//! The castling subsystem: sequential validation (right held, rook in
//! place, clear path, no check now, no check along the king's transit),
//! then a transactional commit that relocates king and rook, revokes both
//! of the color's rights, and switches the turn.

use vstd::prelude::*;
use crate::chess::piece::{Color, Piece, PieceType, opposite};
use crate::chess::position::position_of_coords;
use crate::chess::board::{Board, CastleError, moved, seq_at, sq_idx};
use crate::chess::check::in_check;
use crate::chess::moves::{home_rank, kingside_right, queenside_right};

verus! {

/// The grid after a committed castle of `color` on the given side: king
/// and rook leave their original squares, the king lands two files toward
/// the rook and the rook on the square next to it that the king crossed.
pub open spec fn castled_squares(sq: Seq<Option<Piece>>, c: Color, kingside: bool) -> Seq<
    Option<Piece>,
> {
    let home = home_rank(c);
    let rook_from = if kingside {
        8int
    } else {
        1int
    };
    let king_to = if kingside {
        7int
    } else {
        3int
    };
    let rook_to = if kingside {
        6int
    } else {
        4int
    };
    sq.update(sq_idx(5, home), None).update(sq_idx(rook_from, home), None).update(
        sq_idx(king_to, home),
        Some(Piece { color: c, kind: PieceType::King }),
    ).update(sq_idx(rook_to, home), Some(Piece { color: c, kind: PieceType::Rook }))
}

/// The rook of color `c` still occupies the corner square of the given
/// side.
pub open spec fn castle_rook_ok(sq: Seq<Option<Piece>>, c: Color, kingside: bool) -> bool {
    seq_at(
        sq,
        if kingside {
            8int
        } else {
            1int
        },
        home_rank(c),
    ) == Some(Piece { color: c, kind: PieceType::Rook })
}

/// Every square strictly between king and rook is empty.
pub open spec fn castle_path_clear(sq: Seq<Option<Piece>>, c: Color, kingside: bool) -> bool {
    let home = home_rank(c);
    if kingside {
        seq_at(sq, 6, home) is None && seq_at(sq, 7, home) is None
    } else {
        seq_at(sq, 2, home) is None && seq_at(sq, 3, home) is None && seq_at(sq, 4, home) is None
    }
}

/// Neither square the king transits (its crossing square and its final
/// destination), tried as a lone king relocation on a board copy, leaves
/// `c` in check.
pub open spec fn castle_transit_safe(sq: Seq<Option<Piece>>, c: Color, kingside: bool) -> bool {
    let home = home_rank(c);
    if kingside {
        !in_check(moved(sq, 5, home, 6, home), c) && !in_check(moved(sq, 5, home, 7, home), c)
    } else {
        !in_check(moved(sq, 5, home, 4, home), c) && !in_check(moved(sq, 5, home, 3, home), c)
    }
}

/// The castling rule in general, for every position: each way a castle
/// can be refused maps to exactly one error, in validation order — right
/// revoked, rook missing from its corner, a piece between king and rook,
/// king in check, or a checked transit square — and a position breaking
/// none of them is refused nothing. Together with `try_castle`'s
/// contract, every refused attempt leaves the board unchanged in squares,
/// turn, rights and game state, and every accepted one relocates king and
/// rook in one committed transition and revokes both of the color's
/// rights.
pub proof fn lemma_castle_outcomes(b: Board, color: Color, kingside: bool)
    ensures
        ({
            let sq = b.squares@;
            let right = if kingside {
                kingside_right(b, color)
            } else {
                queenside_right(b, color)
            };
            &&& (!right ==> b.castle_error(color, kingside) == Some(
                CastleError::CastlingForbidden,
            ))
            &&& (right && !castle_rook_ok(sq, color, kingside) ==> b.castle_error(color, kingside)
                == Some(CastleError::RookMissing))
            &&& (right && castle_rook_ok(sq, color, kingside) && !castle_path_clear(
                sq,
                color,
                kingside,
            ) ==> b.castle_error(color, kingside) == Some(CastleError::PathBlocked))
            &&& (right && castle_rook_ok(sq, color, kingside) && castle_path_clear(
                sq,
                color,
                kingside,
            ) && in_check(sq, color) ==> b.castle_error(color, kingside) == Some(
                CastleError::CastleWhileInCheck,
            ))
            &&& (right && castle_rook_ok(sq, color, kingside) && castle_path_clear(
                sq,
                color,
                kingside,
            ) && !in_check(sq, color) && !castle_transit_safe(sq, color, kingside)
                ==> b.castle_error(color, kingside) == Some(CastleError::CastleThroughCheck))
            &&& (right && castle_rook_ok(sq, color, kingside) && castle_path_clear(
                sq,
                color,
                kingside,
            ) && !in_check(sq, color) && castle_transit_safe(sq, color, kingside)
                ==> b.castle_error(color, kingside) is None)
        }),
{
}

impl Board {
    /// The first castling rule that the position breaks, in validation
    /// order, or `None` when the castle may be committed.
    pub open spec fn castle_error(self, color: Color, kingside: bool) -> Option<CastleError> {
        let sq = self.squares@;
        let right = if kingside {
            kingside_right(self, color)
        } else {
            queenside_right(self, color)
        };
        if !right {
            Some(CastleError::CastlingForbidden)
        } else if !castle_rook_ok(sq, color, kingside) {
            Some(CastleError::RookMissing)
        } else if !castle_path_clear(sq, color, kingside) {
            Some(CastleError::PathBlocked)
        } else if in_check(sq, color) {
            Some(CastleError::CastleWhileInCheck)
        } else if !castle_transit_safe(sq, color, kingside) {
            Some(CastleError::CastleThroughCheck)
        } else {
            None
        }
    }

    /// Both castling rights of `color` are revoked in `other`, and the
    /// opposing color's rights are kept from `self`.
    pub open spec fn castle_rights_cleared(self, other: Board, color: Color) -> bool {
        match color {
            Color::White => {
                &&& !other.white_can_castle_kingside
                &&& !other.white_can_castle_queenside
                &&& other.black_can_castle_kingside == self.black_can_castle_kingside
                &&& other.black_can_castle_queenside == self.black_can_castle_queenside
            },
            Color::Black => {
                &&& !other.black_can_castle_kingside
                &&& !other.black_can_castle_queenside
                &&& other.white_can_castle_kingside == self.white_can_castle_kingside
                &&& other.white_can_castle_queenside == self.white_can_castle_queenside
            },
        }
    }

    /// Attempts to castle for `color` on the given side. Validates, in
    /// order: the right is still held, the rook stands on its corner, the
    /// path is clear, the king is not in check, and no transit square
    /// exposes the king to check — failing with the matching error and an
    /// untouched board. On success it commits the king and rook
    /// relocation, revokes both of the color's rights, and switches the
    /// turn; the game state is left to the orchestrator.
    ///
    /// The caller guarantees that the king of `color` stands on its
    /// original square, as the orchestrator's delegation rule does.
    pub fn try_castle(&mut self, color: Color, kingside: bool) -> (result: Result<(), CastleError>)
        requires
            old(self).wf(),
            seq_at(old(self).squares@, 5, home_rank(color)) == Some(
                Piece { color, kind: PieceType::King },
            ),
        ensures
            final(self).wf(),
            old(self).rights_monotone_to(*final(self)),
            match old(self).castle_error(color, kingside) {
                Some(e) => result == Err::<(), CastleError>(e) && old(self).same_content(
                    *final(self),
                ),
                None => result == Ok::<(), CastleError>(()) && final(self).squares@
                    == castled_squares(old(self).squares@, color, kingside) && old(
                    self,
                ).castle_rights_cleared(*final(self), color) && final(self).turn == opposite(
                    old(self).turn,
                ) && final(self).game_state == old(self).game_state,
            },
    {
        let ghost sq = self.squares@;
        let home: u8 = match color {
            Color::White => 1,
            Color::Black => 8,
        };
        assert(home as int == home_rank(color));
        let rook_file: u8 = if kingside {
            8
        } else {
            1
        };

        // 1. the right must still be held
        let can_castle = match (color, kingside) {
            (Color::White, true) => self.white_can_castle_kingside,
            (Color::White, false) => self.white_can_castle_queenside,
            (Color::Black, true) => self.black_can_castle_kingside,
            (Color::Black, false) => self.black_can_castle_queenside,
        };
        if !can_castle {
            return Err(CastleError::CastlingForbidden);
        }

        // 2. the rook must still stand on its corner
        let rook_pos = position_of_coords(rook_file, home);
        let rook_ok = match self.piece_at(rook_pos) {
            Some(p) => p.color == color && p.kind == PieceType::Rook,
            None => false,
        };
        if !rook_ok {
            proof {
                if castle_rook_ok(sq, color, kingside) {
                    assert(false);
                }
            }
            return Err(CastleError::RookMissing);
        }
        proof {
            let p = seq_at(sq, rook_file as int, home as int)->0;
            assert(p == (Piece { color, kind: PieceType::Rook }));
        }

        // 3. every square between king and rook must be empty
        let blocked = if kingside {
            self.piece_at(position_of_coords(6, home)).is_some() || self.piece_at(
                position_of_coords(7, home),
            ).is_some()
        } else {
            self.piece_at(position_of_coords(2, home)).is_some() || self.piece_at(
                position_of_coords(3, home),
            ).is_some() || self.piece_at(position_of_coords(4, home)).is_some()
        };
        if blocked {
            return Err(CastleError::PathBlocked);
        }

        // 4. the king must not currently be in check
        if self.is_in_check(color) {
            return Err(CastleError::CastleWhileInCheck);
        }

        // 5. no transited square may expose the king to check
        let king_from = position_of_coords(5, home);
        let pass_first: u8 = if kingside {
            6
        } else {
            4
        };
        let pass_second: u8 = if kingside {
            7
        } else {
            3
        };
        let mut trial = self.clone_board();
        let r1 = trial.force_move(king_from, position_of_coords(pass_first, home));
        if trial.is_in_check(color) {
            return Err(CastleError::CastleThroughCheck);
        }
        let mut trial2 = self.clone_board();
        let r2 = trial2.force_move(king_from, position_of_coords(pass_second, home));
        if trial2.is_in_check(color) {
            return Err(CastleError::CastleThroughCheck);
        }

        // commit: relocate king and rook
        let king_to = position_of_coords(
            if kingside {
                7
            } else {
                3
            },
            home,
        );
        let rook_to = position_of_coords(
            if kingside {
                6
            } else {
                4
            },
            home,
        );
        let ki = Board::index_of(king_from);
        self.squares.set(ki, None);
        let ri = Board::index_of(rook_pos);
        self.squares.set(ri, None);
        let kti = Board::index_of(king_to);
        self.squares.set(kti, Some(Piece { color, kind: PieceType::King }));
        let rti = Board::index_of(rook_to);
        self.squares.set(rti, Some(Piece { color, kind: PieceType::Rook }));
        assert(self.squares@ == castled_squares(sq, color, kingside));

        // revoke both rights of this color
        match color {
            Color::White => {
                self.white_can_castle_kingside = false;
                self.white_can_castle_queenside = false;
            },
            Color::Black => {
                self.black_can_castle_kingside = false;
                self.black_can_castle_queenside = false;
            },
        }

        // switch the turn
        self.turn = Board::opponent_color(self.turn);
        Ok(())
    }
}

} // verus!
