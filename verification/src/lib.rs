//! Rules engine for Super (Ultimate) Tic-Tac-Toe.
//!
//! The board is a 3x3 grid of sub-boards, each itself a 3x3 grid of cells.
//! The cell a player marks decides the sub-board the opponent has to answer
//! in, and the grid of sub-boards is won by the same three-in-a-row rule as
//! each sub-board.

pub mod codec;
pub mod game;
pub mod history;
pub mod line;
pub mod player;
pub mod small_game;

pub use codec::DecodeError;
pub use game::{Board, Game, Move, NextMove, Rejected, Winner};
pub use history::History;
pub use line::{Mark, WIN_CONDITIONS};
pub use player::Player;
pub use small_game::{Field, SmallGame, SubBoard};
