//! Shortest solutions for discrete puzzles.
//!
//! A puzzle state says whether it is solved and which states lie one move
//! away. From that alone, [`solve`] finds a shortest sequence of moves to a
//! solved state by breadth-first search, and [`check`] replays a sequence of
//! moves to confirm that it is legal and ends in a solved state.

pub mod backtrack;
pub mod laws;
pub mod order;
pub mod replay;
pub mod route;
pub mod search;
pub mod state;

pub use backtrack::backtrack;
pub use replay::{advance, check};
pub use search::solve;
pub use state::Puzzle;
