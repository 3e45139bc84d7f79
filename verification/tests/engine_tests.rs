use sudoku::parser::ParsedGrid;
use sudoku::solver::{SimpleSolver, Solver};

/// A complete valid sudoku assignment: row `r`, column `c` holds
/// `((3 * r + r / 3 + c) % 9) + 1`.
fn pattern(r: usize, c: usize) -> u8 {
    (((3 * r + r / 3 + c) % 9) + 1) as u8
}

fn full_pattern_grid() -> Vec<Option<u8>> {
    let mut cells = Vec::new();
    for r in 0..9 {
        for c in 0..9 {
            cells.push(Some(pattern(r, c)));
        }
    }
    cells
}

#[test]
fn test_solves_single_missing_cell() {
    // Fully given except one cell; the row holds the other eight values, so
    // one pass of naked-single propagation must fill it.
    let mut cells = full_pattern_grid();
    cells[0] = None;
    let parsed = ParsedGrid { cells };
    let solutions = SimpleSolver.solve(&parsed);
    assert_eq!(solutions.len(), 1);
    for r in 0..9 {
        for c in 0..9 {
            assert_eq!(solutions[0].cells[r * 9 + c], pattern(r, c));
        }
    }
}

#[test]
fn test_solves_several_missing_cells() {
    let mut cells = full_pattern_grid();
    cells[0] = None;
    cells[10] = None;
    cells[40] = None;
    cells[80] = None;
    let parsed = ParsedGrid { cells };
    let solutions = SimpleSolver.solve(&parsed);
    assert_eq!(solutions.len(), 1);
    for r in 0..9 {
        for c in 0..9 {
            assert_eq!(solutions[0].cells[r * 9 + c], pattern(r, c));
        }
    }
}

#[test]
fn test_two_cells_forced_to_same_value_is_contradiction() {
    // Row 0 leaves only {5, 9} for its two empty cells; a 9 placed below
    // them in the same box removes 9 from both, forcing both to 5: zero
    // solutions.
    let mut cells: Vec<Option<u8>> = vec![None; 81];
    let row_values = [1u8, 2, 3, 4, 6, 7, 8];
    for (k, &v) in row_values.iter().enumerate() {
        cells[2 + k] = Some(v);
    }
    cells[9] = Some(9); // row 1, column 0: same box as both empty cells
    let parsed = ParsedGrid { cells };
    let solutions = SimpleSolver.solve(&parsed);
    assert_eq!(solutions.len(), 0);
}

#[test]
fn test_propagation_is_idempotent() {
    // Re-running the engine on an already solved (fixpoint) grid mutates
    // nothing and returns the same unique solution.
    let mut cells = full_pattern_grid();
    cells[17] = None;
    let parsed = ParsedGrid { cells };
    let first = SimpleSolver.solve(&parsed);
    assert_eq!(first.len(), 1);

    let again = ParsedGrid { cells: first[0].cells.iter().map(|&v| Some(v)).collect() };
    let second = SimpleSolver.solve(&again);
    assert_eq!(second.len(), 1);
    assert_eq!(second[0].cells, first[0].cells);
}

#[test]
fn test_underdetermined_grid_yields_no_solution_yet() {
    // A nearly empty grid is beyond naked-single propagation: fixpoint is
    // reached unsolved and no solution is reported.
    let mut cells: Vec<Option<u8>> = vec![None; 81];
    cells[0] = Some(1);
    let parsed = ParsedGrid { cells };
    let solutions = SimpleSolver.solve(&parsed);
    assert_eq!(solutions.len(), 0);
}

#[test]
fn test_empty_grid_reaches_fixpoint_unsolved() {
    // With no givens nothing can be deduced: the full-candidate grid is
    // already a fixpoint and no solution is reported.
    let parsed = ParsedGrid { cells: vec![None; 81] };
    assert_eq!(SimpleSolver.solve(&parsed).len(), 0);
}

#[test]
fn test_conflicting_givens_zero_solutions() {
    // Two equal givens in one row: propagating the first empties the
    // second, and the region is reported contradictory.
    let mut cells: Vec<Option<u8>> = vec![None; 81];
    cells[0] = Some(5);
    cells[1] = Some(5);
    let parsed = ParsedGrid { cells };
    assert_eq!(SimpleSolver.solve(&parsed).len(), 0);
}
