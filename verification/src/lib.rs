//! A small collection of board-game and puzzle engines: a rule-validating
//! chess engine (move generation, check and checkmate detection, castling,
//! promotion), two classic substitution ciphers, a minimal Go board, and
//! two maze utilities with generation, traversal and pathfinding.

pub mod chess;
pub mod cipher;
pub mod go;
pub mod maze;
pub mod seq_util;
pub mod text;
