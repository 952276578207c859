use sudoku::{solve, Sudoku};

fn grid(s: &Sudoku) -> Vec<usize> {
    let d = s.dimension();
    let mut cells = Vec::new();
    for row in 0..d {
        for col in 0..d {
            cells.push(s.cell_value(row, col).unwrap_or(0));
        }
    }
    cells
}

/// One cell per character, separated by whitespace.
fn spaced(text: &str) -> String {
    let cells: Vec<String> = text.chars().map(|c| c.to_string()).collect();
    cells.join(" ")
}

fn digits(text: &str) -> Vec<usize> {
    text.chars().map(|c| c.to_digit(10).unwrap() as usize).collect()
}

fn is_solution_of(s: &Sudoku, puzzle: &Sudoku) -> bool {
    s.is_completed() && s.is_consistent() && s.agrees_with(puzzle)
}

#[test]
fn trivial_one_by_one_has_single_solution() {
    let puzzle = Sudoku::new(1).unwrap();
    let all = solve(&puzzle, false);
    assert_eq!(1, all.len());
    assert_eq!(vec![1], grid(&all[0]));
}

#[test]
fn empty_four_by_four_has_288_solutions() {
    let puzzle = Sudoku::new(4).unwrap();
    let all = solve(&puzzle, false);
    assert_eq!(288, all.len());
    for s in &all {
        assert!(is_solution_of(s, &puzzle));
    }
    let first = solve(&puzzle, true);
    assert_eq!(1, first.len());
    assert_eq!(grid(&all[0]), grid(&first[0]));
}

#[test]
fn full_consistent_puzzle_solves_to_itself() {
    let text = "534678912672195348198342567859761423426853791713924856961537284287419635345286179";
    let puzzle = Sudoku::from(&spaced(text)).unwrap();
    assert!(puzzle.is_completed());
    let all = solve(&puzzle, false);
    assert_eq!(1, all.len());
    assert_eq!(digits(text), grid(&all[0]));
}

#[test]
fn row_with_repeated_value_is_inconsistent() {
    let puzzle = Sudoku::from("1 2 3 1 . . . . . . . . . . . .").unwrap();
    assert_eq!(4, puzzle.dimension());
    assert!(!puzzle.is_consistent());
}

#[test]
fn minimal_satisfiable_four_by_four() {
    let puzzle = Sudoku::from("1 . . .\n. . . 2\n. 4 . .\n. . 3 .\n").unwrap();
    assert_eq!(4, puzzle.dimension());
    assert_eq!(4, puzzle.num_completed_cells());
    let all = solve(&puzzle, false);
    assert_eq!(1, all.len());
    assert_eq!(Some(1), all[0].cell_value(0, 0));
    assert!(is_solution_of(&all[0], &puzzle));
    assert_eq!(vec![1, 2, 4, 3, 4, 3, 1, 2, 3, 4, 2, 1, 2, 1, 3, 4], grid(&all[0]));
}

#[test]
fn unique_classic_nine_by_nine() {
    let puzzle = Sudoku::from(&spaced(
        "53..7....6..195....98....6.8...6...34..8.3..17...2...6.6....28....419..5....8..79",
    ))
    .unwrap();
    assert_eq!(9, puzzle.dimension());
    assert!(puzzle.is_consistent());
    let all = solve(&puzzle, false);
    assert_eq!(1, all.len());
    assert_eq!(
        digits("534678912672195348198342567859761423426853791713924856961537284287419635345286179"),
        grid(&all[0])
    );
}

#[test]
fn ambiguous_nine_by_nine_has_more_than_one_solution() {
    let mut text = String::from("1 2 3 4 5 6 7 8 9");
    for _ in 0..72 {
        text.push_str(" .");
    }
    let puzzle = Sudoku::from(&text).unwrap();
    assert_eq!(9, puzzle.dimension());
    let first = solve(&puzzle, true);
    assert_eq!(1, first.len());
    assert!(is_solution_of(&first[0], &puzzle));
    // pin one more cell to a value other than the first solution's: a second solution
    let mut other = puzzle.clone();
    let v = first[0].cell_value(1, 0).unwrap();
    let w = if v == 4 { 5 } else { 4 };
    other.set_cell_value(1, 0, w);
    let second = solve(&other, true);
    assert_eq!(1, second.len());
    assert!(is_solution_of(&second[0], &puzzle));
    assert_ne!(grid(&first[0]), grid(&second[0]));
}

#[test]
fn unsolvable_repeated_givens_fail_the_consistency_check() {
    let mut puzzle = Sudoku::new(9).unwrap();
    puzzle.set_cell_value(0, 0, 1);
    puzzle.set_cell_value(0, 1, 1);
    assert!(!puzzle.is_consistent());
}

#[test]
fn conflicting_diagonal_givens_have_no_solution() {
    let mut puzzle = Sudoku::new(4).unwrap();
    puzzle.set_cell_value(0, 0, 1);
    puzzle.set_cell_value(1, 1, 1);
    puzzle.set_cell_value(2, 2, 1);
    puzzle.set_cell_value(3, 3, 1);
    assert!(solve(&puzzle, false).is_empty());
}

#[test]
fn all_solutions_are_deterministic() {
    let puzzle = Sudoku::new(4).unwrap();
    let a: Vec<Vec<usize>> = solve(&puzzle, false).iter().map(grid).collect();
    let b: Vec<Vec<usize>> = solve(&puzzle, false).iter().map(grid).collect();
    assert_eq!(a, b);
    let mut text = String::from("1 2 3 4 5 6 7 8 9");
    for _ in 0..72 {
        text.push_str(" .");
    }
    let ambiguous = Sudoku::from(&text).unwrap();
    let c: Vec<Vec<usize>> = solve(&ambiguous, true).iter().map(grid).collect();
    let d: Vec<Vec<usize>> = solve(&ambiguous, true).iter().map(grid).collect();
    assert_eq!(c, d);
}

#[test]
fn solutions_of_a_puzzle_with_two_completions() {
    // the two bottom rows can be completed in four ways
    let puzzle = Sudoku::from("1 2 3 4 3 4 1 2 . . . . . . . .").unwrap();
    let all = solve(&puzzle, false);
    assert_eq!(4, all.len());
    for s in &all {
        assert!(is_solution_of(s, &puzzle));
    }
    assert!(solve(&puzzle, true).len() == 1);
}
