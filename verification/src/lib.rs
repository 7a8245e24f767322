//! A verified solver for standard 9x9 Sudoku puzzles.
//!
//! The solver takes a grid with some cells pre-filled (the givens) and
//! either completes it by exhaustive backtracking search, reports that
//! the givens already conflict, or reports that no completion exists.

pub mod grid;
pub mod laws;
pub mod solve;

pub use grid::Grid;
pub use solve::solve;
pub use solve::SolverError;
