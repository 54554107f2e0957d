//! A 9×9 Sudoku model with a backtracking solver.
//!
//! [`puzzle::Puzzle`] holds the 81 cells together with the digits already used
//! in each row, column and box. It is built from a grid of integers, filled in
//! by an exhaustive depth-first search, checked for being solved, and turned
//! back into a grid. Every function carries a contract over the mathematical
//! model in [`board`].

pub mod index;
pub mod board;
pub mod model;
pub mod grid;
pub mod puzzle;
pub mod search;
