//! Game state and turn management for a game of Go.

use vstd::prelude::*;
use crate::go::board::{Board, Point, Stone};

verus! {

/// The result of a Go game.
#[derive(Debug, Clone, PartialEq, Eq, Structural)]
pub enum GameResult {
    Ongoing,
    Resigned(Stone),
    Finished { black_score: usize, white_score: usize },
}

/// A game of Go: the board, the side to move, and the result.
#[derive(Debug)]
pub struct Game {
    pub board: Board,
    pub to_move: Stone,
    pub result: GameResult,
}

/// The stone color opposing `s`.
pub open spec fn other_stone(s: Stone) -> Stone {
    match s {
        Stone::Black => Stone::White,
        Stone::White => Stone::Black,
    }
}

impl Game {
    /// Creates a new Go game with the given board size: an empty board,
    /// Black to move, game ongoing.
    pub fn new(size: usize) -> (g: Self)
        ensures
            g.board.wf(),
            g.board.spec_size() == size,
            g.board.stones() == Map::<Point, Stone>::empty(),
            g.to_move == Stone::Black,
            g.result == GameResult::Ongoing,
    {
        Self { board: Board::new(size), to_move: Stone::Black, result: GameResult::Ongoing }
    }

    /// Attempts to play a move for the side to move: fails when the game
    /// is over or the point is occupied (leaving everything unchanged),
    /// and otherwise places the stone and passes the turn to the other
    /// side.
    pub fn play(&mut self, point: Point) -> (result: Result<(), &'static str>)
        requires
            old(self).board.wf(),
        ensures
            final(self).board.wf(),
            final(self).board.spec_size() == old(self).board.spec_size(),
            ({
                let b = *old(self);
                let s = *final(self);
                if b.result != GameResult::Ongoing {
                    &&& result matches Err(m) && m@ == "Game is already over"@
                    &&& s.board.stones() == b.board.stones()
                    &&& s.to_move == b.to_move
                    &&& s.result == b.result
                } else if b.board.stones().dom().contains(point) {
                    &&& result matches Err(m) && m@ == "Point already occupied"@
                    &&& s.board.stones() == b.board.stones()
                    &&& s.to_move == b.to_move
                    &&& s.result == b.result
                } else {
                    &&& result is Ok
                    &&& s.board.stones() == b.board.stones().insert(point, b.to_move)
                    &&& s.to_move == other_stone(b.to_move)
                    &&& s.result == GameResult::Ongoing
                }
            }),
    {
        let game_over = match &self.result {
            GameResult::Ongoing => false,
            _ => true,
        };
        if game_over {
            return Err("Game is already over");
        }
        match self.board.place_stone(point, self.to_move) {
            Ok(()) => {},
            Err(e) => {
                return Err(e);
            },
        }
        self.to_move = match self.to_move {
            Stone::Black => Stone::White,
            Stone::White => Stone::Black,
        };
        Ok(())
    }

    /// Forfeits the game for the side to move.
    pub fn resign(&mut self)
        ensures
            final(self).result == GameResult::Resigned(old(self).to_move),
            final(self).to_move == old(self).to_move,
            final(self).board.stones() == old(self).board.stones(),
            final(self).board.wf() == old(self).board.wf(),
            final(self).board.spec_size() == old(self).board.spec_size(),
    {
        self.result = GameResult::Resigned(self.to_move);
    }
}

} // verus!
