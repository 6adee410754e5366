//! A verified solver for the classic 9x9 digit-placement puzzle.
//!
//! A [`Board`] holds 81 cells, each empty or a digit 1 through 9. The solver
//! fills the empty cells by backtracking search so that every row, column and
//! 3x3 box holds each digit at most once, or reports that no completion
//! exists. The contracts are stated over a flat sequence view of the grid.

pub mod grid;
pub mod parse;
pub mod render;
pub mod solver;

pub use grid::Board;
pub use solver::Unsolvable;
