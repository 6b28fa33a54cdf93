//! Optimal play for two-player, zero-sum, perfect-information board games.
//!
//! The crate has three layers:
//!
//! * [`MinMaxGame`] is what a game state has to offer to be searched: a
//!   terminal test and an ordered list of successors.
//! * [`min_max_game_strategy`] is the search itself, minimax with alpha-beta
//!   pruning, written once against [`MinMaxGame`]. The laws in [`pruning`]
//!   show that it returns the game-theoretic value.
//! * [`TicTacToeGame`] and [`Connect4Game`] are two games that can be
//!   searched. [`notation`] is the text form in which their boards are
//!   written and read.
pub mod connect4;
pub mod game;
pub mod min_max_game_strategy;
pub mod notation;
pub mod pruning;
pub mod tic_tac_toe;

pub use connect4::Connect4Game;
pub use game::MinMaxGame;
pub use tic_tac_toe::TicTacToeGame;
