//! A 9x9 Sudoku board and a backtracking solver that advances one cell per call.

pub mod grid;
pub mod laws;
pub mod search;
pub mod solver;
