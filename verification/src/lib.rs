//! A 9×9 Sudoku engine: grid model, constraint propagation and exhaustive
//! backtracking search, with machine-checked contracts.

pub mod board;
pub mod completion;
pub mod geometry;
pub mod grid;
pub mod pairs;
pub mod propagation;
pub mod search;
pub mod soundness;
pub mod steps;
