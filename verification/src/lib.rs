//! A Sudoku solver built on a SAT engine.
//!
//! The board is a 9x9 grid of optional digits.  Each proposition
//! "cell (row, col) holds digit d" is named by a variable identifier,
//! and the rules of Sudoku are emitted as a clause set over those
//! variables.  A SAT engine searches for a model, and the model is
//! decoded back into a completed grid.

pub mod codec;
pub mod formula;
pub mod grid;
mod sat;
pub mod solve;

pub use codec::decode;
pub use codec::encode;
pub use grid::Grid;
pub use grid::ParseError;
pub use solve::DecodeError;
pub use solve::SolveError;
