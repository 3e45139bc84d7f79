use sudoku::parser::ParsedGrid;
use sudoku::solver::{BlockType, Cell, SolvableGrid};

fn empty_grid() -> SolvableGrid {
    let mut cells = Vec::new();
    for _ in 0..81 {
        cells.push(Cell::default());
    }
    SolvableGrid { cells, values: (1..=9).collect() }
}

#[test]
fn test_row_block_cells() {
    let grid = empty_grid();
    assert_eq!(grid.block((BlockType::Row, 0)), vec![0, 1, 2, 3, 4, 5, 6, 7, 8]);
    assert_eq!(grid.block((BlockType::Row, 8)), vec![72, 73, 74, 75, 76, 77, 78, 79, 80]);
}

#[test]
fn test_column_block_cells() {
    let grid = empty_grid();
    assert_eq!(grid.block((BlockType::Column, 2)), vec![2, 11, 20, 29, 38, 47, 56, 65, 74]);
}

#[test]
fn test_box_block_cells() {
    let grid = empty_grid();
    assert_eq!(grid.block((BlockType::Box, 0)), vec![0, 1, 2, 9, 10, 11, 18, 19, 20]);
    assert_eq!(grid.block((BlockType::Box, 4)), vec![30, 31, 32, 39, 40, 41, 48, 49, 50]);
}

#[test]
fn test_block_ids_of_cell() {
    let grid = empty_grid();
    assert_eq!(
        grid.block_ids(40),
        vec![(BlockType::Row, 4), (BlockType::Column, 4), (BlockType::Box, 4)]
    );
    assert_eq!(
        grid.block_ids(0),
        vec![(BlockType::Row, 0), (BlockType::Column, 0), (BlockType::Box, 0)]
    );
}

#[test]
fn test_region_decomposition_membership() {
    // Every cell appears exactly once in its row, column, and box, and the
    // 27 blocks of each family together cover each cell the right number of
    // times.
    let grid = empty_grid();
    for cell in 0..81usize {
        for bt in [BlockType::Row, BlockType::Column, BlockType::Box] {
            let mut containing: usize = 0;
            for b in 0..9usize {
                let hits = grid.block((bt, b)).iter().filter(|&&c| c == cell).count();
                assert!(hits <= 1);
                containing += hits;
            }
            assert_eq!(containing, 1);
        }
    }
}

#[test]
fn test_block_cells_distinct() {
    let grid = empty_grid();
    for bt in [BlockType::Row, BlockType::Column, BlockType::Box] {
        for b in 0..9usize {
            let mut cells = grid.block((bt, b));
            assert_eq!(cells.len(), 9);
            cells.sort();
            cells.dedup();
            assert_eq!(cells.len(), 9);
        }
    }
}

#[test]
fn test_cell_values() {
    let c = Cell::default();
    assert!(!c.has_value());
    assert_eq!(c.get_value(), None);

    let c = Cell::of(5);
    assert!(c.has_value());
    assert_eq!(c.get_value(), Some(5));

    let mut c = Cell::of(9);
    assert!(c.remove(9));
    assert!(!c.has_value());
    assert_eq!(c.get_value(), None);

    let mut c = Cell::default();
    assert!(c.remove(1));
    assert!(!c.remove(1));
    c.set_value(3);
    assert_eq!(c.get_value(), Some(3));
}

#[test]
fn test_is_solved() {
    let mut grid = empty_grid();
    assert!(!grid.is_solved());
    for i in 0..81usize {
        let v = ((i % 9) + 1) as u8;
        grid.cell_mut(i).set_value(v);
    }
    assert!(grid.is_solved());
}

#[test]
fn test_from_squares() {
    let squares = vec![(0usize, 0usize, 5u8), (8usize, 8usize, 9u8)];
    let parsed = ParsedGrid::from_squares(&squares);
    assert_eq!(parsed.cells.len(), 81);
    assert_eq!(parsed.cells[0], Some(5));
    assert_eq!(parsed.cells[80], Some(9));
    assert_eq!(parsed.cells[1], None);
}

#[test]
fn test_from_squares_last_writer_wins() {
    let squares = vec![(0usize, 0usize, 1u8), (0usize, 0usize, 2u8)];
    let parsed = ParsedGrid::from_squares(&squares);
    assert_eq!(parsed.cells[0], Some(2));
}

#[test]
fn test_from_parsed() {
    let squares = vec![(3usize, 0usize, 7u8)];
    let parsed = ParsedGrid::from_squares(&squares);
    let grid = SolvableGrid::from_parsed(&parsed);
    assert_eq!(grid.cell(3).get_value(), Some(7));
    assert_eq!(grid.cell(4).get_value(), None);
    assert_eq!(grid.values, vec![1, 2, 3, 4, 5, 6, 7, 8, 9]);
}
