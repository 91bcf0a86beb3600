//! The orchestrator: the single public mutating entry point for normal
//! play. It sequences the legality checks, delegates castling moves to the
//! castling subsystem, simulates the move on a copy to reject self-checks,
//! commits, resolves promotion, switches the turn and recomputes the
//! terminal state.

use vstd::prelude::*;
use crate::chess::piece::{Color, Piece, PieceType, opposite};
use crate::chess::position::{Position, file_ord};
use crate::chess::board::{Board, CastleError, GameState, MoveError, moved, seq_at, sq_idx};
use crate::chess::moves::{home_rank, promo_rank};
use crate::chess::check::{contains_position, in_check, lemma_checkmate_same_position};
use crate::chess::castle::castled_squares;

verus! {

/// The move is the generator's castling destination: a king moving from
/// its original square two files sideways along its back rank.
pub open spec fn is_castle_attempt(pc: Piece, f0: int, r0: int, f1: int, r1: int) -> bool {
    &&& pc.kind == PieceType::King
    &&& f0 == 5
    &&& r0 == home_rank(pc.color)
    &&& r1 == home_rank(pc.color)
    &&& (f1 == 7 || f1 == 3)
}

/// The pawn that just moved must promote: it reached its farthest rank.
pub open spec fn needs_promotion(pc: Piece, r1: int) -> bool {
    pc.kind == PieceType::Pawn && r1 == promo_rank(pc.color)
}

/// An acceptable promotion request: one of the four promotable kinds, or
/// no request at all (which defaults to a queen).
pub open spec fn promo_choice_ok(p: Option<PieceType>) -> bool {
    match p {
        None => true,
        Some(k) => k == PieceType::Queen || k == PieceType::Rook || k == PieceType::Bishop || k
            == PieceType::Knight,
    }
}

/// The kind the promoting pawn becomes: the requested kind, or a queen
/// when none was requested.
pub open spec fn promoted_kind(p: Option<PieceType>) -> PieceType {
    match p {
        Some(k) => k,
        None => PieceType::Queen,
    }
}

/// A castling failure as the orchestrator reports it.
pub open spec fn castle_move_error(e: CastleError) -> MoveError {
    match e {
        CastleError::CastlingForbidden => MoveError::CastlingForbidden,
        CastleError::RookMissing => MoveError::RookMissing,
        CastleError::PathBlocked => MoveError::PathBlocked,
        CastleError::CastleWhileInCheck => MoveError::CastleWhileInCheck,
        CastleError::CastleThroughCheck => MoveError::CastleThroughCheck,
    }
}

/// Converts a castling failure into the orchestrator's error.
fn castle_error_of(e: CastleError) -> (r: MoveError)
    ensures
        r == castle_move_error(e),
{
    match e {
        CastleError::CastlingForbidden => MoveError::CastlingForbidden,
        CastleError::RookMissing => MoveError::RookMissing,
        CastleError::PathBlocked => MoveError::PathBlocked,
        CastleError::CastleWhileInCheck => MoveError::CastleWhileInCheck,
        CastleError::CastleThroughCheck => MoveError::CastleThroughCheck,
    }
}

impl Board {
    /// Attempts to move the piece at `from` to `to`, with an optional
    /// promotion choice for a pawn reaching its farthest rank.
    ///
    /// In order: `from` must be occupied, by a piece of the side to move,
    /// and `to` must be among that piece's pseudo-legal destinations. A
    /// king stepping two files from its original square is delegated
    /// entirely to the castling subsystem. Any other move is first tried
    /// on a copy and rejected if it would leave the mover's own king in
    /// check; then it is committed (decaying castling rights), a
    /// promoting pawn receives the chosen kind (a queen when no choice
    /// was given; a king or pawn choice fails after the move has already
    /// been committed — the one failure that alters the board), the turn
    /// switches, and the game state becomes `Checkmate` of the new side
    /// to move when it is checkmated, else `Ongoing`.
    pub fn try_move(&mut self, from: Position, to: Position, promotion: Option<PieceType>) -> (result:
        Result<(), MoveError>)
        requires
            old(self).wf(),
            from.is_valid(),
            to.is_valid(),
        ensures
            final(self).wf(),
            old(self).rights_monotone_to(*final(self)),
            ({
                let b = *old(self);
                let s = *final(self);
                let f0 = file_ord(from.file);
                let r0 = from.rank as int;
                let f1 = file_ord(to.file);
                let r1 = to.rank as int;
                match b.spec_piece_at(from) {
                    None => result == Err::<(), MoveError>(MoveError::NoPieceAtSource)
                        && b.same_content(s),
                    Some(pc) => if pc.color != b.turn {
                        result == Err::<(), MoveError>(MoveError::WrongTurn) && b.same_content(s)
                    } else if !b.is_pseudo_legal(from, to) {
                        result == Err::<(), MoveError>(MoveError::IllegalDestination)
                            && b.same_content(s)
                    } else if is_castle_attempt(pc, f0, r0, f1, r1) {
                        let kingside = (f1 == 7);
                        match b.castle_error(pc.color, kingside) {
                            Some(e) => result == Err::<(), MoveError>(castle_move_error(e))
                                && b.same_content(s),
                            None => result == Ok::<(), MoveError>(()) && s.squares@
                                == castled_squares(b.squares@, pc.color, kingside)
                                && b.castle_rights_cleared(s, pc.color) && s.turn == opposite(
                                b.turn,
                            ) && s.game_state == b.game_state,
                        }
                    } else if in_check(moved(b.squares@, f0, r0, f1, r1), pc.color) {
                        result == Err::<(), MoveError>(MoveError::SelfCheck) && b.same_content(s)
                    } else if needs_promotion(pc, r1) && !promo_choice_ok(promotion) {
                        result == Err::<(), MoveError>(MoveError::InvalidPromotion)
                            && b.force_moved_to(s, from, to)
                    } else {
                        let sq1 = moved(b.squares@, f0, r0, f1, r1);
                        &&& result == Ok::<(), MoveError>(())
                        &&& s.squares@ == (if needs_promotion(pc, r1) {
                            sq1.update(
                                sq_idx(f1, r1),
                                Some(Piece { color: pc.color, kind: promoted_kind(promotion) }),
                            )
                        } else {
                            sq1
                        })
                        &&& b.rights_after_move(s, pc, f0, r0)
                        &&& s.turn == opposite(b.turn)
                        &&& s.game_state == (if s.spec_is_checkmate(opposite(b.turn)) {
                            GameState::Checkmate(opposite(b.turn))
                        } else {
                            GameState::Ongoing
                        })
                    },
                }
            }),
    {
        let ghost b = *self;
        let piece = match self.piece_at(from) {
            Some(p) => p,
            None => {
                return Err(MoveError::NoPieceAtSource);
            },
        };
        if piece.color != self.turn {
            return Err(MoveError::WrongTurn);
        }
        let legal_moves = self.get_legal_moves(from);
        if !contains_position(&legal_moves, to) {
            proof {
                assert(!legal_moves@.contains(to));
            }
            return Err(MoveError::IllegalDestination);
        }
        proof {
            assert(legal_moves@.contains(to));
        }

        // castling: a king stepping from its original square to the
        // castling destination file on its back rank is delegated entirely
        if piece.kind == PieceType::King {
            let castle_rank: u8 = match piece.color {
                Color::White => 1,
                Color::Black => 8,
            };
            if from.rank == castle_rank && from.file == 'e' {
                proof {
                    assert(file_ord(from.file) == 5);
                    assert(piece == (Piece { color: piece.color, kind: PieceType::King }));
                }
                if to.file == 'g' && to.rank == castle_rank {
                    assert(file_ord(to.file) == 7);
                    let r = self.try_castle(piece.color, true);
                    return match r {
                        Ok(()) => Ok(()),
                        Err(e) => Err(castle_error_of(e)),
                    };
                } else if to.file == 'c' && to.rank == castle_rank {
                    assert(file_ord(to.file) == 3);
                    let r = self.try_castle(piece.color, false);
                    return match r {
                        Ok(()) => Ok(()),
                        Err(e) => Err(castle_error_of(e)),
                    };
                }
            }
            proof {
                assert(!is_castle_attempt(
                    piece,
                    file_ord(from.file),
                    from.rank as int,
                    file_ord(to.file),
                    to.rank as int,
                ));
            }
        }

        // simulate on an isolated copy: the mover's own king must not be
        // left in check
        let mut trial = self.clone_board();
        let trial_result = trial.force_move(from, to);
        if trial.is_in_check(piece.color) {
            return Err(MoveError::SelfCheck);
        }

        // commit the move on the real board
        let commit_result = self.force_move(from, to);

        // promotion: a pawn reaching its farthest rank takes the chosen
        // kind, defaulting to a queen; other requests fail after commit
        if piece.kind == PieceType::Pawn {
            let promote = match piece.color {
                Color::White => to.rank == 8,
                Color::Black => to.rank == 1,
            };
            if promote {
                let new_kind = match promotion {
                    Some(PieceType::Queen) => PieceType::Queen,
                    Some(PieceType::Rook) => PieceType::Rook,
                    Some(PieceType::Bishop) => PieceType::Bishop,
                    Some(PieceType::Knight) => PieceType::Knight,
                    None => PieceType::Queen,
                    _ => {
                        return Err(MoveError::InvalidPromotion);
                    },
                };
                self.set_piece(to, Piece { color: piece.color, kind: new_kind });
            }
        }

        // switch the turn, then recompute the terminal state for the new
        // side to move
        self.turn = Board::opponent_color(self.turn);
        let ghost pre = *self;
        if self.is_checkmate(self.turn) {
            self.game_state = GameState::Checkmate(self.turn);
        } else {
            self.game_state = GameState::Ongoing;
        }
        proof {
            lemma_checkmate_same_position(pre, *self, pre.turn);
        }
        Ok(())
    }
}

} // verus!
