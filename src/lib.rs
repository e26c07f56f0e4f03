//! Move recommendation for N×N tic-tac-toe: the board model, a decoder for
//! textual move histories, a line-completion evaluator and an exhaustive
//! minimax search with alpha-beta pruning.
use vstd::prelude::*;

pub mod board;
pub mod outcome;
pub mod search;
pub mod decoder;
pub mod service;

pub use board::{MoveError, Player, TicTacToe};
pub use service::{Refusal, parse_player, recommend};

verus! {

} // verus!
