//! A minimal Go module: board creation, stone placement, and game state
//! management with turn alternation and resignation.

pub mod board;
pub mod game;

pub use board::{Board, Point, Stone};
pub use game::{Game, GameResult};
