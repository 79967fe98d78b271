//! Exhaustive tiler for the twelve free pentominoes.
//!
//! The crate enumerates the distinct rotated and reflected forms of each
//! pentomino, and searches for ways to tile a rectangular board using each
//! piece at most once, collecting every complete covering it accepts.

pub mod args;
pub mod board;
pub mod piece;
pub mod solver;

pub use args::Args;
pub use board::Board;
pub use board::Placement;
pub use piece::FixedPentomino;
pub use piece::Pentomino;
pub use piece::make_catalog;
pub use solver::solve;
pub use solver::solve_recursively;
