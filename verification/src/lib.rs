//! A verified 9x9 Sudoku solver.
//!
//! A grid is 81 cells in row-major order, each holding a digit 1..=9 or the
//! placeholder 0 for an empty cell. `Sudoku::new` rejects a grid that breaks
//! the uniqueness rules; `Sudoku::solve` fills the empty cells by backtracking
//! and returns true exactly when the grid has a completion, restoring the grid
//! when it has none.

pub mod grid;
pub mod laws;
pub mod solver;

pub use solver::InvalidBoardError;
pub use solver::Sudoku;
