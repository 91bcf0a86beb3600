//! Check and checkmate detection, built on pseudo-legal move generation:
//! a color is in check when some enemy piece's basic movement reaches its
//! king's square, and checkmated when no trial move of its own escapes.

use vstd::prelude::*;
use crate::chess::piece::{Color, Piece, PieceType, opposite};
use crate::chess::position::{Position, file_ord, position_of_coords};
use crate::chess::board::{Board, moved, occupied_by, on_board, seq_at, sq_idx};
use crate::chess::moves::piece_step;

verus! {

/// Whether a square's contents are a king of color `c`.
pub open spec fn is_king_of(cell: Option<Piece>, c: Color) -> bool {
    cell matches Some(p) && p.color == c && p.kind == PieceType::King
}

/// The storage index of the first king of color `c` at index `i` or
/// later, or 64 when there is none.
pub open spec fn king_index_from(sq: Seq<Option<Piece>>, c: Color, i: int) -> int
    decreases 64 - i,
{
    if i < 0 || i >= 64 {
        64
    } else if is_king_of(sq[i], c) {
        i
    } else {
        king_index_from(sq, c, i + 1)
    }
}

/// The storage index of the first king of color `c`, or 64 when the
/// board holds none.
pub open spec fn king_idx(sq: Seq<Option<Piece>>, c: Color) -> int {
    king_index_from(sq, c, 0)
}

/// When the king search succeeds, it lands on a king of the right color.
pub proof fn lemma_king_index_found(sq: Seq<Option<Piece>>, c: Color, i: int)
    ensures
        king_index_from(sq, c, i) < 64 ==> is_king_of(sq[king_index_from(sq, c, i)], c),
    decreases 64 - i,
{
    if 0 <= i < 64 && !is_king_of(sq[i], c) {
        lemma_king_index_found(sq, c, i + 1);
    }
}

/// Some piece of color `by` reaches (f, r) by its basic movement.
pub open spec fn square_attacked(sq: Seq<Option<Piece>>, f: int, r: int, by: Color) -> bool {
    exists|f0: int, r0: int|
        {
            &&& on_board(f0, r0)
            &&& (#[trigger] seq_at(sq, f0, r0)) matches Some(p) && p.color == by && piece_step(
                sq,
                p,
                f0,
                r0,
                f,
                r,
            )
        }
}

/// Color `c` is in check: it has a king (the first one found, when the
/// board degenerately holds several) and some enemy piece attacks that
/// king's square. A color without a king is never in check.
pub open spec fn in_check(sq: Seq<Option<Piece>>, c: Color) -> bool {
    let ki = king_idx(sq, c);
    ki < 64 && square_attacked(sq, ki % 8 + 1, ki / 8 + 1, opposite(c))
}

/// Whether the vector holds the given position.
pub(crate) fn contains_position(v: &Vec<Position>, p: Position) -> (r: bool)
    ensures
        r == v@.contains(p),
{
    let mut i: usize = 0;
    while i < v.len()
        invariant
            0 <= i <= v@.len(),
            forall|j: int| 0 <= j < i ==> v@[j] != p,
        decreases v@.len() - i,
    {
        if v[i] == p {
            return true;
        }
        i = i + 1;
    }
    false
}

impl Board {
    /// The position stored at index `i` of the grid.
    pub fn position_of_index(i: usize) -> (p: Position)
        requires
            i < 64,
        ensures
            p.is_valid(),
            file_ord(p.file) == i as int % 8 + 1,
            p.rank as int == i as int / 8 + 1,
            sq_idx(file_ord(p.file), p.rank as int) == i,
    {
        position_of_coords((i % 8 + 1) as u8, (i / 8 + 1) as u8)
    }

    /// The storage index of the first king of `color`, or 64 if none.
    fn find_king(&self, color: Color) -> (ki: usize)
        requires
            self.wf(),
        ensures
            ki == king_idx(self.squares@, color),
    {
        let ghost sq = self.squares@;
        let mut i: usize = 0;
        while i < 64
            invariant
                self.wf(),
                sq == self.squares@,
                0 <= i <= 64,
                king_idx(sq, color) == king_index_from(sq, color, i as int),
            decreases 64 - i,
        {
            let is_k = match self.squares[i] {
                Some(p) => p.color == color && p.kind == PieceType::King,
                None => false,
            };
            if is_k {
                return i;
            }
            i = i + 1;
        }
        64
    }

    /// Whether the player of `color` is currently in check: its (first)
    /// king's square is among some enemy piece's pseudo-legal
    /// destinations. A color without a king is reported not in check.
    pub fn is_in_check(&self, color: Color) -> (r: bool)
        requires
            self.wf(),
        ensures
            r == in_check(self.squares@, color),
    {
        let ghost sq = self.squares@;
        let ki = self.find_king(color);
        if ki >= 64 {
            return false;
        }
        let kpos = Self::position_of_index(ki);
        let ghost kf = ki as int % 8 + 1;
        let ghost kr = ki as int / 8 + 1;
        proof {
            lemma_king_index_found(sq, color, 0);
        }
        assert(is_king_of(sq[ki as int], color));
        assert(seq_at(sq, kf, kr) == sq[ki as int]);
        let mut i: usize = 0;
        while i < 64
            invariant
                self.wf(),
                sq == self.squares@,
                0 <= i <= 64,
                ki as int == king_idx(sq, color),
                ki < 64,
                kf == ki as int % 8 + 1,
                kr == ki as int / 8 + 1,
                kpos.is_valid(),
                file_ord(kpos.file) == kf,
                kpos.rank as int == kr,
                is_king_of(seq_at(sq, kf, kr), color),
                forall|f0: int, r0: int|
                    on_board(f0, r0) && sq_idx(f0, r0) < i ==> !((#[trigger] seq_at(sq, f0, r0))
                        matches Some(p) && p.color == opposite(color) && piece_step(
                        sq,
                        p,
                        f0,
                        r0,
                        kf,
                        kr,
                    )),
            decreases 64 - i,
        {
            let is_enemy = match self.squares[i] {
                Some(p) => p.color != color,
                None => false,
            };
            if is_enemy {
                let pos = Self::position_of_index(i);
                let mvs = self.get_legal_moves(pos);
                if contains_position(&mvs, kpos) {
                    proof {
                        let f0 = file_ord(pos.file);
                        let r0 = pos.rank as int;
                        let p = seq_at(sq, f0, r0)->0;
                        assert(self.is_pseudo_legal(pos, kpos));
                        // a castling destination is empty, but the king's
                        // square is occupied, so the attack is a basic move
                        assert(piece_step(sq, p, f0, r0, kf, kr));
                        assert(square_attacked(sq, kf, kr, opposite(color)));
                    }
                    return true;
                }
                proof {
                    let f0 = file_ord(pos.file);
                    let r0 = pos.rank as int;
                    if seq_at(sq, f0, r0) matches Some(p) && p.color == opposite(color)
                        && piece_step(sq, p, f0, r0, kf, kr) {
                        assert(self.is_pseudo_legal(pos, kpos));
                        assert(mvs@.contains(kpos));
                        assert(false);
                    }
                }
            }
            proof {
                assert forall|f0: int, r0: int|
                    on_board(f0, r0) && sq_idx(f0, r0) < i + 1 implies !((#[trigger] seq_at(
                    sq,
                    f0,
                    r0,
                )) matches Some(p) && p.color == opposite(color) && piece_step(
                    sq,
                    p,
                    f0,
                    r0,
                    kf,
                    kr,
                )) by {
                    if sq_idx(f0, r0) == i {
                        assert(f0 == i as int % 8 + 1 && r0 == i as int / 8 + 1);
                    }
                }
            }
            i = i + 1;
        }
        proof {
            if square_attacked(sq, kf, kr, opposite(color)) {
                let (f0, r0) = choose|f0: int, r0: int|
                    {
                        &&& on_board(f0, r0)
                        &&& (#[trigger] seq_at(sq, f0, r0)) matches Some(p) && p.color == opposite(
                            color,
                        ) && piece_step(sq, p, f0, r0, kf, kr)
                    };
                assert(sq_idx(f0, r0) < 64);
                assert(false);
            }
        }
        false
    }

    /// Checkmate for `color`: it is in check, and every trial move of one
    /// of its pieces to a pseudo-legal destination, applied without
    /// legality checks to an isolated copy, still leaves it in check.
    pub open spec fn spec_is_checkmate(self, c: Color) -> bool {
        &&& in_check(self.squares@, c)
        &&& forall|from: Position, to: Position|
            #[trigger] self.is_pseudo_legal(from, to) && occupied_by(
                self.squares@,
                file_ord(from.file),
                from.rank as int,
                c,
            ) ==> in_check(
                moved(
                    self.squares@,
                    file_ord(from.file),
                    from.rank as int,
                    file_ord(to.file),
                    to.rank as int,
                ),
                c,
            )
    }

    /// Whether the player of `color` is checkmated: in check, with no
    /// piece/destination trial that removes the check.
    pub fn is_checkmate(&self, color: Color) -> (r: bool)
        requires
            self.wf(),
        ensures
            r == self.spec_is_checkmate(color),
    {
        let ghost sq = self.squares@;
        if !self.is_in_check(color) {
            return false;
        }
        let mut i: usize = 0;
        while i < 64
            invariant
                self.wf(),
                sq == self.squares@,
                0 <= i <= 64,
                in_check(sq, color),
                forall|from: Position, to: Position|
                    (#[trigger] self.is_pseudo_legal(from, to) && occupied_by(
                        sq,
                        file_ord(from.file),
                        from.rank as int,
                        color,
                    ) && sq_idx(file_ord(from.file), from.rank as int) < i) ==> in_check(
                        moved(
                            sq,
                            file_ord(from.file),
                            from.rank as int,
                            file_ord(to.file),
                            to.rank as int,
                        ),
                        color,
                    ),
            decreases 64 - i,
        {
            let is_own = match self.squares[i] {
                Some(p) => p.color == color,
                None => false,
            };
            if is_own {
                let from = Self::position_of_index(i);
                let ghost gf0 = file_ord(from.file);
                let ghost gr0 = from.rank as int;
                let mvs = self.get_legal_moves(from);
                let mut j: usize = 0;
                while j < mvs.len()
                    invariant
                        self.wf(),
                        sq == self.squares@,
                        in_check(sq, color),
                        from.is_valid(),
                        gf0 == file_ord(from.file),
                        gr0 == from.rank as int,
                        occupied_by(sq, gf0, gr0, color),
                        0 <= j <= mvs@.len(),
                        forall|to: Position|
                            #[trigger] mvs@.contains(to) <==> self.is_pseudo_legal(from, to),
                        forall|jj: int|
                            0 <= jj < j ==> in_check(
                                moved(
                                    sq,
                                    gf0,
                                    gr0,
                                    file_ord((#[trigger] mvs@[jj]).file),
                                    mvs@[jj].rank as int,
                                ),
                                color,
                            ),
                    decreases mvs@.len() - j,
                {
                    let to = mvs[j];
                    proof {
                        assert(mvs@.contains(to));
                    }
                    let mut cloned = self.clone_board();
                    let res = cloned.force_move(from, to);
                    if !cloned.is_in_check(color) {
                        proof {
                            assert(self.is_pseudo_legal(from, to));
                            assert(cloned.squares@ == moved(
                                sq,
                                gf0,
                                gr0,
                                file_ord(to.file),
                                to.rank as int,
                            ));
                            assert(!self.spec_is_checkmate(color));
                        }
                        return false;
                    }
                    j = j + 1;
                }
                proof {
                    assert forall|from2: Position, to: Position|
                        (#[trigger] self.is_pseudo_legal(from2, to) && occupied_by(
                            sq,
                            file_ord(from2.file),
                            from2.rank as int,
                            color,
                        ) && sq_idx(file_ord(from2.file), from2.rank as int) < i + 1) implies
                        in_check(
                        moved(
                            sq,
                            file_ord(from2.file),
                            from2.rank as int,
                            file_ord(to.file),
                            to.rank as int,
                        ),
                        color,
                    ) by {
                        if sq_idx(file_ord(from2.file), from2.rank as int) == i {
                            assert(file_ord(from2.file) == i as int % 8 + 1 && from2.rank as int
                                == i as int / 8 + 1);
                            assert(from2.file == from.file && from2.rank == from.rank);
                            assert(mvs@.contains(to));
                            let jj = choose|jj: int| 0 <= jj < mvs@.len() && mvs@[jj] == to;
                            assert(in_check(
                                moved(
                                    sq,
                                    gf0,
                                    gr0,
                                    file_ord(mvs@[jj].file),
                                    mvs@[jj].rank as int,
                                ),
                                color,
                            ));
                        }
                    }
                }
            } else {
                proof {
                    assert forall|from2: Position, to: Position|
                        (#[trigger] self.is_pseudo_legal(from2, to) && occupied_by(
                            sq,
                            file_ord(from2.file),
                            from2.rank as int,
                            color,
                        ) && sq_idx(file_ord(from2.file), from2.rank as int) < i + 1) implies
                        in_check(
                        moved(
                            sq,
                            file_ord(from2.file),
                            from2.rank as int,
                            file_ord(to.file),
                            to.rank as int,
                        ),
                        color,
                    ) by {
                        if sq_idx(file_ord(from2.file), from2.rank as int) == i {
                            assert(file_ord(from2.file) == i as int % 8 + 1 && from2.rank as int
                                == i as int / 8 + 1);
                            assert(seq_at(sq, file_ord(from2.file), from2.rank as int) == sq[
                                i as int]);
                            assert(false);
                        }
                    }
                }
            }
            i = i + 1;
        }
        proof {
            assert forall|from: Position, to: Position|
                #[trigger] self.is_pseudo_legal(from, to) && occupied_by(
                    sq,
                    file_ord(from.file),
                    from.rank as int,
                    color,
                ) implies in_check(
                moved(
                    sq,
                    file_ord(from.file),
                    from.rank as int,
                    file_ord(to.file),
                    to.rank as int,
                ),
                color,
            ) by {
                assert(sq_idx(file_ord(from.file), from.rank as int) < 64);
            }
        }
        true
    }
}

/// Check and checkmate depend only on the piece placement and the
/// castling rights: two boards equal in those agree on checkmate,
/// whatever their turn or game-state markers say.
pub proof fn lemma_checkmate_same_position(a: Board, b: Board, c: Color)
    requires
        a.squares@ == b.squares@,
        a.same_rights(b),
    ensures
        a.spec_is_checkmate(c) == b.spec_is_checkmate(c),
{
    if a.spec_is_checkmate(c) {
        assert forall|from: Position, to: Position|
            #[trigger] b.is_pseudo_legal(from, to) && occupied_by(
                b.squares@,
                file_ord(from.file),
                from.rank as int,
                c,
            ) implies in_check(
            moved(
                b.squares@,
                file_ord(from.file),
                from.rank as int,
                file_ord(to.file),
                to.rank as int,
            ),
            c,
        ) by {
            assert(a.is_pseudo_legal(from, to));
        }
    }
    if b.spec_is_checkmate(c) {
        assert forall|from: Position, to: Position|
            #[trigger] a.is_pseudo_legal(from, to) && occupied_by(
                a.squares@,
                file_ord(from.file),
                from.rank as int,
                c,
            ) implies in_check(
            moved(
                a.squares@,
                file_ord(from.file),
                from.rank as int,
                file_ord(to.file),
                to.rank as int,
            ),
            c,
        ) by {
            assert(b.is_pseudo_legal(from, to));
        }
    }
}

} // verus!
