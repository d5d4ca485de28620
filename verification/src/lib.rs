//! A 9x9 Sudoku board with parsing, validation and rendering, and a lazy
//! backtracking solver that hands out every completion of a puzzle, one per
//! request. All of it is verified with Verus.

pub mod app;
pub mod sudoku;

pub use app::{App, AppConfig};
