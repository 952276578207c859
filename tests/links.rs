use sudoku::{Matrix, Table, DLX};

/// Knuth's example: the only exact cover is rows 0, 3 and 4.
fn knuth_matrix() -> Matrix<bool> {
    let rows = [
        [0, 0, 1, 0, 1, 1, 0],
        [1, 0, 0, 1, 0, 0, 1],
        [0, 1, 1, 0, 0, 1, 0],
        [1, 0, 0, 1, 0, 0, 0],
        [0, 1, 0, 0, 0, 0, 1],
        [0, 0, 0, 1, 1, 0, 1],
    ];
    let mut m = Matrix::new(false, 6, 7);
    for (q, row) in rows.iter().enumerate() {
        for (k, &bit) in row.iter().enumerate() {
            if bit == 1 {
                m.set_element(q, k, true);
            }
        }
    }
    m
}

fn sorted(mut v: Vec<usize>) -> Vec<usize> {
    v.sort();
    v
}

#[test]
fn dlx_finds_the_single_exact_cover() {
    let mut dlx = DLX::new(knuth_matrix());
    let all = dlx.solve(Vec::new(), true);
    assert_eq!(1, all.len());
    assert_eq!(vec![0, 3, 4], sorted(all[0].clone()));
    assert!(dlx.is_exact_cover(&vec![0, 3, 4]));
    assert!(!dlx.is_exact_cover(&vec![0, 3]));
    assert!(!dlx.is_exact_cover(&vec![0, 3, 4, 4]));
    assert!(!dlx.is_exact_cover(&vec![0, 3, 9]));
}

#[test]
fn dlx_search_leaves_the_links_as_they_were() {
    let mut dlx = DLX::new(knuth_matrix());
    let first = dlx.solve(Vec::new(), true);
    let second = dlx.solve(Vec::new(), true);
    assert_eq!(first, second);
}

#[test]
fn cover_then_uncover_restores_the_links() {
    let mut dlx = DLX::new(knuth_matrix());
    let before = dlx.solve(Vec::new(), true);
    // column header of matrix column k is node k + 1
    assert!(dlx.cover(4));
    assert!(!dlx.cover(4));
    dlx.uncover(4);
    assert_eq!(before, dlx.solve(Vec::new(), true));
}

#[test]
fn covering_a_row_pins_it() {
    let mut dlx = DLX::new(knuth_matrix());
    assert!(dlx.cover_row(3));
    let all = dlx.solve(vec![3], true);
    assert_eq!(1, all.len());
    assert_eq!(vec![0, 3, 4], sorted(all[0].clone()));
    assert_eq!(3, all[0][0]);
    // row 1 needs column 0, which row 3 has covered
    assert!(!dlx.cover_row(1));
}

#[test]
fn pinning_a_row_outside_every_cover_gives_no_solution() {
    let mut dlx = DLX::new(knuth_matrix());
    assert!(dlx.cover_row(5));
    assert!(dlx.solve(vec![5], true).is_empty());
}

#[test]
fn empty_matrix_has_the_empty_cover() {
    let mut dlx = DLX::new(Matrix::new(false, 0, 0));
    assert_eq!(vec![Vec::<usize>::new()], dlx.solve(Vec::new(), true));
    let mut no_rows = DLX::new(Matrix::new(false, 0, 3));
    assert!(no_rows.solve(Vec::new(), true).is_empty());
}

#[test]
fn pinning_conflicting_givens_reports_it() {
    let mut puzzle = sudoku::Sudoku::new(4).unwrap();
    puzzle.set_cell_value(0, 0, 1);
    puzzle.set_cell_value(0, 1, 1);
    let (rows, cols) = sudoku::solver::matrix_dimensions(&puzzle);
    let mut matrix = Matrix::new(false, rows, cols);
    sudoku::solver::populate_matrix(&mut matrix, &puzzle);
    let mut dlx = DLX::new(matrix);
    assert_eq!(
        Err(sudoku::SolveError::InconsistentGiven),
        sudoku::solver::eliminate_rows_for_completed_cells(&mut dlx, &puzzle)
    );
}

#[test]
fn pinning_consistent_givens_returns_their_rows() {
    let mut puzzle = sudoku::Sudoku::new(4).unwrap();
    puzzle.set_cell_value(0, 0, 1);
    puzzle.set_cell_value(1, 1, 2);
    let (rows, cols) = sudoku::solver::matrix_dimensions(&puzzle);
    let mut matrix = Matrix::new(false, rows, cols);
    sudoku::solver::populate_matrix(&mut matrix, &puzzle);
    let mut dlx = DLX::new(matrix);
    assert_eq!(Ok(vec![0, 21]), sudoku::solver::eliminate_rows_for_completed_cells(&mut dlx, &puzzle));
}

#[test]
fn matrix_reads_back_what_was_written() {
    let mut m = Matrix::new(7usize, 2, 3);
    assert_eq!((2, 3, 6), (m.num_rows(), m.num_cols(), m.num_elements()));
    assert_eq!(7, *m.element(1, 2));
    m.set_element(1, 2, 9);
    assert_eq!(9, *m.element(1, 2));
    assert_eq!(7, *m.element(0, 2));
    let c = m.clone();
    assert_eq!(9, *c.element(1, 2));
}

#[test]
fn matrix_walks_rows_and_columns() {
    let m = Matrix::new(0u8, 3, 2);
    let mut it = sudoku::matrix::Iterator::with_row(&m, 1);
    assert_eq!(Some((0, 1)), it.next());
    assert_eq!(Some((1, 1)), it.next());
    assert_eq!(None, it.next());
    let mut it = sudoku::matrix::Iterator::with_col(&m, 1);
    assert_eq!(Some((1, 0)), it.next());
    assert_eq!(Some((1, 1)), it.next());
    assert_eq!(Some((1, 2)), it.next());
    assert_eq!(None, it.next());
    it.reset();
    assert_eq!(Some((1, 0)), it.next());
    let mut all = sudoku::matrix::Iterator::new(&m, 0..5, 1..5);
    let mut n = 0;
    while all.next().is_some() {
        n += 1;
    }
    assert_eq!(4, n);
}

#[test]
fn table_counts_set_slots() {
    let mut t: Table<&str> = Table::new(2, 2);
    assert_eq!((2, 2, 0), (t.num_rows(), t.num_cols(), t.num_set_elements()));
    assert!(!t.is_full());
    t.set_element(0, 0, "a");
    t.set_element(0, 0, "b");
    assert_eq!(1, t.num_set_elements());
    assert_eq!(&Some("b"), t.element(0, 0));
    t.set_element(0, 1, "c");
    t.set_element(1, 0, "d");
    t.set_element(1, 1, "e");
    assert!(t.is_full());
    t.unset_element(1, 1);
    t.unset_element(1, 1);
    assert_eq!(3, t.num_set_elements());
    assert_eq!(&None, t.element(1, 1));
    assert!(!t.is_full());
}

#[test]
fn empty_table_is_full() {
    let t: Table<u8> = Table::new(0, 5);
    assert!(t.is_full());
}

#[test]
fn all_flag_selects_every_solution() {
    let args = |v: &[&str]| v.iter().map(|s| s.to_string()).collect::<Vec<String>>();
    assert!(sudoku::terminate_on_first(&args(&["sudoku", "puzzle"])));
    assert!(!sudoku::terminate_on_first(&args(&["sudoku", "puzzle", "--all"])));
    assert!(sudoku::terminate_on_first(&args(&["sudoku", "puzzle", "-all"])));
}
