//! Monte Carlo tree search over any game that offers the capabilities of
//! [`MCTS`], with tic-tac-toe as the game that comes with it.

pub mod algorithm;
mod chance;
pub mod display;
pub mod logic;
pub mod mcts;
pub mod mcts_impl;
pub mod minimal;
pub mod opening;
pub mod parse;
pub mod selection;
pub mod tree;

pub use crate::logic::{TTTGameMove, TTTGameState, TTTPlayer};
pub use crate::mcts::{sim, MCTS};
pub use crate::minimal::GameStateTest;
