//! A Mastermind code-breaking engine: scoring of peg codes, the board of
//! codes still consistent with the scores seen, the outcome histogram of a
//! guess, and a greedy worst-case-minimising choice of the next guess.

mod board;
mod error;
mod histogram;
mod pegs;
mod strategy;
mod universe;

pub use board::{Board, BoardRow};
pub use error::GameError;
pub use histogram::{count_outcomes, list_scores, score_index, ScoreHistogram, N_SCORE};
pub use pegs::{Pegs, Score, N_COLOR, N_PEG};
pub use strategy::strategy_greedy;
pub use universe::{build_all_configs, N_CODES};
