use sudoku::bi_map::BiMap;
use sudoku::solver::{BlockType, Cell, SolvableGrid};

fn mask(values: &[u8]) -> u16 {
    let mut m: u16 = 0;
    for &v in values {
        m |= 1u16 << (v as u16);
    }
    m
}

fn digits() -> Vec<u8> {
    (1..=9).collect()
}

#[test]
fn test_singles_reports_forced_assignment() {
    let bm = BiMap::new(
        vec![10, 11, 12],
        digits(),
        vec![(10, mask(&[5])), (11, mask(&[1, 2])), (12, mask(&[3]))],
    );
    assert_eq!(bm.singles(), Some(vec![(10, 5), (12, 3)]));
}

#[test]
fn test_singles_empty_when_no_singleton() {
    let bm = BiMap::new(vec![0, 1], digits(), vec![(0, mask(&[1, 2])), (1, mask(&[2, 3]))]);
    assert_eq!(bm.singles(), Some(vec![]));
}

#[test]
fn test_overfull_group_is_contradiction() {
    // Three unsolved cells all restricted to the same two-value candidate
    // set make the region unsatisfiable.
    let m = mask(&[4, 7]);
    let bm = BiMap::new(vec![0, 1, 2], digits(), vec![(0, m), (1, m), (2, m)]);
    assert_eq!(bm.singles(), None);
    assert_eq!(bm.doubles(), None);
}

#[test]
fn test_duplicate_singleton_is_contradiction() {
    let m = mask(&[5]);
    let bm = BiMap::new(vec![0, 1], digits(), vec![(0, m), (1, m)]);
    assert_eq!(bm.singles(), None);
}

#[test]
fn test_empty_candidate_set_is_contradiction() {
    let bm = BiMap::new(vec![0], digits(), vec![(0, 0u16)]);
    assert_eq!(bm.singles(), None);
}

#[test]
fn test_doubles_reports_naked_pair() {
    let m = mask(&[2, 6]);
    let bm = BiMap::new(
        vec![0, 1, 2],
        digits(),
        vec![(0, m), (1, m), (2, mask(&[1, 3, 4]))],
    );
    assert_eq!(bm.doubles(), Some(vec![([0, 1], [2, 6])]));
}

#[test]
fn test_doubles_skips_single_cell_group() {
    // A two-candidate set held by only one cell is no naked pair.
    let bm = BiMap::new(vec![0], digits(), vec![(0, mask(&[2, 6]))]);
    assert_eq!(bm.doubles(), Some(vec![]));
}

#[test]
fn test_reversed_maps_values_to_cells() {
    let bm = BiMap::new(
        vec![3, 4],
        digits(),
        vec![(3, mask(&[1, 2])), (4, mask(&[2, 9]))],
    );
    let rev = bm.reversed();
    assert_eq!(rev.len(), 9);
    assert_eq!(rev[0], (1, vec![3]));
    assert_eq!(rev[1], (2, vec![3, 4]));
    assert_eq!(rev[2], (3, vec![]));
    assert_eq!(rev[8], (9, vec![4]));
}

#[test]
fn test_block_bi_map_maps_unsolved_cells() {
    let mut cells = Vec::new();
    for _ in 0..81 {
        cells.push(Cell::default());
    }
    let mut grid = SolvableGrid { cells, values: digits() };
    grid.cell_mut(0).set_value(4);
    grid.cell_mut(5).remove(1);
    let block = grid.block((BlockType::Row, 0));
    let bm = grid.block_bi_map(&block);
    assert_eq!(bm.keys, block);
    assert_eq!(bm.mapping.len(), 8);
    assert_eq!(bm.mapping[0].0, 1);
    assert_eq!(bm.mapping[4], (5, mask(&[2, 3, 4, 5, 6, 7, 8, 9])));
}
