//! A rule-validating chess engine: board representation, per-piece
//! pseudo-legal move generation, check and checkmate detection, castling,
//! and turn/promotion orchestration.

pub mod board;
pub mod castle;
pub mod game;
pub mod check;
pub mod display;
pub mod moves;
pub mod piece;
pub mod position;

pub use board::{Board, CastleError, GameState, MoveError};
pub use piece::{Color, Piece, PieceType};
pub use position::Position;
