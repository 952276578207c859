use sudoku::sudoku::Iterator;
use sudoku::{Region, Sudoku};

#[test]
fn test_is_consistent_row() {
    let mut sudoku = Sudoku::new(4).unwrap();
    assert!(sudoku.is_consistent());

    sudoku.set_cell_value(0, 0, 1);
    assert!(sudoku.is_consistent());

    sudoku.set_cell_value(1, 0, 2);
    assert!(sudoku.is_consistent());

    sudoku.set_cell_value(2, 0, 3);
    assert!(sudoku.is_consistent());

    sudoku.set_cell_value(3, 0, 1);
    assert!(!sudoku.is_completed());
}

#[test]
fn test_is_consistent_column() {
    let mut sudoku = Sudoku::new(4).unwrap();
    assert!(sudoku.is_consistent());

    sudoku.set_cell_value(0, 0, 1);
    assert!(sudoku.is_consistent());

    sudoku.set_cell_value(0, 1, 2);
    assert!(sudoku.is_consistent());

    sudoku.set_cell_value(0, 2, 3);
    assert!(sudoku.is_consistent());

    sudoku.set_cell_value(0, 3, 1);
    assert!(!sudoku.is_completed());
}

#[test]
fn test_is_consistent_block() {
    let mut sudoku = Sudoku::new(4).unwrap();
    assert!(sudoku.is_consistent());

    sudoku.set_cell_value(0, 0, 1);
    assert!(sudoku.is_consistent());

    sudoku.set_cell_value(0, 1, 2);
    assert!(sudoku.is_consistent());

    sudoku.set_cell_value(1, 0, 3);
    assert!(sudoku.is_consistent());

    sudoku.set_cell_value(1, 1, 1);
    assert!(!sudoku.is_completed());
}

#[test]
fn repeated_value_in_a_row_is_inconsistent() {
    let mut sudoku = Sudoku::new(4).unwrap();
    sudoku.set_cell_value(0, 0, 1);
    sudoku.set_cell_value(0, 1, 2);
    sudoku.set_cell_value(0, 2, 3);
    sudoku.set_cell_value(0, 3, 1);
    assert!(!sudoku.is_consistent());
}

#[test]
fn repeated_value_in_a_column_is_inconsistent() {
    let mut sudoku = Sudoku::new(4).unwrap();
    sudoku.set_cell_value(0, 2, 4);
    sudoku.set_cell_value(3, 2, 4);
    assert!(!sudoku.is_consistent());
}

#[test]
fn repeated_value_in_a_block_is_inconsistent() {
    let mut sudoku = Sudoku::new(4).unwrap();
    sudoku.set_cell_value(2, 2, 3);
    sudoku.set_cell_value(3, 3, 3);
    assert!(!sudoku.is_consistent());
    sudoku.set_cell_value(3, 3, 4);
    assert!(sudoku.is_consistent());
}

#[test]
fn value_equal_to_the_side_is_accepted() {
    let mut sudoku = Sudoku::new(4).unwrap();
    sudoku.set_cell_value(1, 1, 4);
    sudoku.set_cell_value(2, 2, 4);
    assert!(sudoku.is_consistent());
    sudoku.set_cell_value(1, 3, 4);
    assert!(!sudoku.is_consistent());
}

#[test]
fn block_numbers_of_a_9x9() {
    let sudoku = Sudoku::new(9).unwrap();
    assert_eq!(0, sudoku.block_no(0, 0));
    assert_eq!(2, sudoku.block_no(1, 8));
    assert_eq!(4, sudoku.block_no(4, 4));
    assert_eq!(6, sudoku.block_no(8, 0));
    assert_eq!(8, sudoku.block_no(8, 8));
}

#[test]
fn new_rejects_sides_that_are_not_squares() {
    assert_eq!(Some(sudoku::SudokuError::InvalidDimension), Sudoku::new(5).err());
    assert_eq!(Some(sudoku::SudokuError::InvalidDimension), Sudoku::new(0).err());
    assert_eq!(Some(sudoku::SudokuError::InvalidDimension), Sudoku::new(8).err());
    let s = Sudoku::new(16).unwrap();
    assert_eq!(16, s.dimension());
    assert_eq!(4, s.block_dimension());
    assert_eq!(256, s.num_cells());
}

fn walk(mut it: Iterator) -> Vec<(usize, usize)> {
    let mut cells = Vec::new();
    while let Some(cell) = it.next() {
        cells.push(cell);
    }
    cells
}

#[test]
fn region_walks_list_cells_row_major() {
    let s = Sudoku::new(4).unwrap();
    assert_eq!(vec![(0, 2), (1, 2), (2, 2), (3, 2)], walk(Iterator::row_iter(&s, 2)));
    assert_eq!(vec![(1, 0), (1, 1), (1, 2), (1, 3)], walk(Iterator::col_iter(&s, 1)));
    assert_eq!(
        vec![(2, 2), (3, 2), (2, 3), (3, 3)],
        walk(Iterator::region_iter(&s, Region::Block(3)))
    );
    assert_eq!(
        vec![(2, 0), (3, 0), (2, 1), (3, 1)],
        walk(Iterator::block_for_cell_iter(&s, (3, 1)))
    );
    let mut it = Iterator::block_iter(&s, 1);
    assert_eq!(Some((2, 0)), it.next());
    it.reset();
    assert_eq!(4, walk(it).len());
}

#[test]
fn region_walk_past_the_grid_is_empty() {
    let s = Sudoku::new(4).unwrap();
    assert_eq!(0, walk(Iterator::new(&s, 4..6, 0..4)).len());
    assert_eq!(2, walk(Iterator::new(&s, 3..6, 2..4)).len());
}
