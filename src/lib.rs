pub mod dlx;
pub mod links;
pub mod matrix;
pub mod options;
pub mod solver;
pub mod sudoku;
pub mod table;

pub use dlx::DLX;
pub use matrix::Matrix;
pub use options::terminate_on_first;
pub use solver::{solve, SolveError};
pub use sudoku::{Region, Sudoku, SudokuError};
pub use table::Table;
