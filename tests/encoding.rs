use sudoku::solver;
use sudoku::Sudoku;

#[test]
fn test_cell_value_for_matrix_row() {
    let sud = &Sudoku::new(4).unwrap();

    assert_eq!((0, 0, 1), solver::cell_value_for_matrix_row(sud, 0), "row 0");
    assert_eq!((0, 2, 3), solver::cell_value_for_matrix_row(sud, 10), "row 10");
    assert_eq!((1, 1, 2), solver::cell_value_for_matrix_row(sud, 21), "row 21");
    assert_eq!((2, 0, 3), solver::cell_value_for_matrix_row(sud, 34), "row 34");
    assert_eq!((3, 1, 4), solver::cell_value_for_matrix_row(sud, 55), "row 55");
    assert_eq!((3, 3, 4), solver::cell_value_for_matrix_row(sud, 63), "row 63");
}

#[test]
fn test_matrix_row_for_cell_value() {
    let sud = &Sudoku::new(4).unwrap();

    assert_eq!(0, solver::matrix_row_for_cell_value(sud, 0, 0, 1), "row 0");
    assert_eq!(10, solver::matrix_row_for_cell_value(sud, 0, 2, 3), "row 10");
    assert_eq!(21, solver::matrix_row_for_cell_value(sud, 1, 1, 2), "row 21");
    assert_eq!(34, solver::matrix_row_for_cell_value(sud, 2, 0, 3), "row 34");
    assert_eq!(55, solver::matrix_row_for_cell_value(sud, 3, 1, 4), "row 55");
    assert_eq!(63, solver::matrix_row_for_cell_value(sud, 3, 3, 4), "row 63");
}

#[test]
fn placement_round_trip_for_every_placement_of_a_9x9() {
    let sud = &Sudoku::new(9).unwrap();
    for row in 0..9 {
        for col in 0..9 {
            for val in 1..=9 {
                let q = solver::matrix_row_for_cell_value(sud, row, col, val);
                assert!(q < 729);
                assert_eq!((row, col, val), solver::cell_value_for_matrix_row(sud, q));
            }
        }
    }
}

#[test]
fn matrix_dimensions_of_a_9x9() {
    let sud = &Sudoku::new(9).unwrap();
    assert_eq!((729, 324), solver::matrix_dimensions(sud));
}

#[test]
fn populated_matrix_rows_have_four_constraints() {
    let sud = &Sudoku::new(4).unwrap();
    let (rows, cols) = solver::matrix_dimensions(sud);
    let mut matrix = sudoku::Matrix::new(false, rows, cols);
    solver::populate_matrix(&mut matrix, sud);
    for q in 0..rows {
        let set: Vec<usize> = (0..cols).filter(|&k| *matrix.element(q, k)).collect();
        assert_eq!(4, set.len());
    }
    // row 21 places 2 in cell (1, 1): cell 5, row 1 value 2, column 1 value 2, block 0 value 2
    let set: Vec<usize> = (0..cols).filter(|&k| *matrix.element(21, k)).collect();
    assert_eq!(vec![5, 16 + 5, 32 + 5, 48 + 1], set);
}

#[test]
fn decode_of_encoded_puzzle_restores_it() {
    // whitespace separates the cells
    let text = "534678912672195348198342567859761423426853791713924856961537284287419635345286179";
    let spaced: Vec<String> = text.chars().map(|c| c.to_string()).collect();
    let puzzle = Sudoku::from(&spaced.join(" ")).unwrap();
    let rows: Vec<usize> = puzzle
        .completed_cells()
        .iter()
        .map(|&(r, c, v)| solver::matrix_row_for_cell_value(&puzzle, r, c, v))
        .collect();
    let empty = Sudoku::new(9).unwrap();
    let decoded = solver::complete_sudoku(&empty, &rows);
    assert_eq!(puzzle.to_string(), decoded.to_string());
}

#[test]
fn complete_sudoku_writes_each_placement() {
    let empty = Sudoku::new(4).unwrap();
    let done = solver::complete_sudoku(&empty, &vec![0, 21, 63]);
    assert_eq!(Some(1), done.cell_value(0, 0));
    assert_eq!(Some(2), done.cell_value(1, 1));
    assert_eq!(Some(4), done.cell_value(3, 3));
    assert_eq!(None, done.cell_value(2, 2));
    assert_eq!(None, empty.cell_value(0, 0));
}
