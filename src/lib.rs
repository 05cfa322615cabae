//! Reversi (Othello) on an 8x8 board: move legality, move application with
//! flipping, move enumeration, a positional evaluation and an alpha-beta search.

pub mod ai;
pub mod eval;
pub mod minimax;
pub mod reversi;
pub mod score;

pub use ai::{alpha_beta, get_best_move};
pub use reversi::{CellState, ReversiBoard};
pub use score::Score;
