//! Sudoku model, logical solver and generator.
pub mod util;
pub mod candidate;
pub mod grid_constant;
pub mod error;
pub mod difficulty;
pub mod grid;
pub mod solver;
pub mod solution;
pub mod generator;
pub mod front;
