//! Constraint-propagation engine for 9x9 Sudoku and its variants: a grid of
//! candidate sets, a list of constraint regions, and three deduction passes.

pub mod grid;
pub mod local;
pub mod adjacency;
pub mod pointing;
pub mod propagate;
pub mod laws;
