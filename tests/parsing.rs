use sudoku::{Sudoku, SudokuError};

#[test]
fn parse_infers_side_from_token_count() {
    let s = Sudoku::from("1 . . . . . . . . . . . . . . .").unwrap();
    assert_eq!(4, s.dimension());
    assert_eq!(2, s.block_dimension());
    assert_eq!(Some(1), s.cell_value(0, 0));
    assert_eq!(None, s.cell_value(0, 1));
    assert_eq!(1, s.num_completed_cells());
}

#[test]
fn parse_infers_side_from_largest_value() {
    // five tokens need a 4x4 grid; the value 9 needs a 9x9 grid
    let s = Sudoku::from("1 2 9 . 3").unwrap();
    assert_eq!(9, s.dimension());
    assert_eq!(3, s.block_dimension());
    assert_eq!(Some(9), s.cell_value(0, 2));
    assert_eq!(Some(3), s.cell_value(0, 4));
    assert_eq!(None, s.cell_value(0, 5));
    assert_eq!(None, s.cell_value(8, 8));
}

#[test]
fn parse_rounds_side_up_to_a_square() {
    // five values up to 5 need a side of at least 5: the next square is 9
    let s = Sudoku::from("5,4,3,2,1").unwrap();
    assert_eq!(9, s.dimension());
    let t = Sudoku::from("").unwrap();
    assert_eq!(1, t.dimension());
    assert_eq!(None, t.cell_value(0, 0));
    let u = Sudoku::from("1 2").unwrap();
    assert_eq!(4, u.dimension());
}

#[test]
fn parse_treats_zero_as_unknown_and_other_bytes_as_separators() {
    let s = Sudoku::from("0|1x2é3\n.").unwrap();
    assert_eq!(4, s.dimension());
    assert_eq!(None, s.cell_value(0, 0));
    assert_eq!(Some(1), s.cell_value(0, 1));
    assert_eq!(Some(2), s.cell_value(0, 2));
    assert_eq!(Some(3), s.cell_value(0, 3));
    assert_eq!(None, s.cell_value(1, 0));
    assert_eq!(3, s.num_completed_cells());
}

#[test]
fn parse_reads_multi_digit_values() {
    let s = Sudoku::from("16 . 10").unwrap();
    assert_eq!(16, s.dimension());
    assert_eq!(Some(16), s.cell_value(0, 0));
    assert_eq!(Some(10), s.cell_value(0, 2));
}

#[test]
fn parse_rejects_a_value_too_large_for_a_word() {
    let r = Sudoku::from("1 99999999999999999999999999 3");
    assert_eq!(Some(SudokuError::ParseError), r.err());
}

#[test]
fn parse_rejects_a_side_whose_cells_do_not_fit() {
    let r = Sudoku::from("4294967296");
    assert_eq!(Some(SudokuError::InvalidDimension), r.err());
}

#[test]
fn completed_cells_are_row_major() {
    let s = Sudoku::from(". 2 . . 3 . . . . . . 4 . . . .").unwrap();
    assert_eq!(vec![(0, 1, 2), (1, 0, 3), (2, 3, 4)], s.completed_cells());
    assert!(!s.is_completed());
}

#[test]
fn render_four_by_four() {
    let s = Sudoku::from("1 . . .\n. . . 2\n. 4 . .\n. . 3 .").unwrap();
    let expected = "-------------\n\
                    | 1 . | . . |\n\
                    | . . | . 2 |\n\
                    -------------\n\
                    | . 4 | . . |\n\
                    | . . | 3 . |\n\
                    -------------";
    assert_eq!(expected, s.to_string());
}

#[test]
fn render_pads_cells_to_the_width_of_the_side() {
    let mut s = Sudoku::new(16).unwrap();
    s.set_cell_value(0, 0, 16);
    s.set_cell_value(0, 1, 7);
    let text = s.to_string();
    let lines: Vec<&str> = text.lines().collect();
    let width = 3 * 16 + 2 * 4 + 1;
    assert_eq!("-".repeat(width), lines[0]);
    assert!(lines[1].starts_with("| 16  7  .  . |  ."));
    assert_eq!(width, lines[1].len());
    assert_eq!(16 + 5, lines.len());
}
