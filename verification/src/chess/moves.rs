//! Pseudo-legal move generation: the movement and occupancy rules of each
//! piece kind, stated declaratively, and the generator that enumerates a
//! piece's destination squares. Check-safety is deliberately not part of
//! this layer: the check detector reuses it on enemy pieces, so mixing the
//! layers would recurse without bound.

use vstd::prelude::*;
use crate::chess::piece::{Color, Piece, PieceType, opposite};
use crate::chess::position::{Position, char_of_file, file_ord, position_at, position_of_coords};
use crate::chess::board::{Board, occupied_by, on_board, seq_at};
use crate::seq_util::{lemma_push_contains, lemma_push_contains_all, lemma_push_nodup};

verus! {

/// The absolute value of `x`.
pub open spec fn abs(x: int) -> int {
    if x < 0 {
        -x
    } else {
        x
    }
}

/// The sign of `x`: -1, 0 or 1.
pub open spec fn sgn(x: int) -> int {
    if x > 0 {
        1
    } else if x < 0 {
        -1
    } else {
        0
    }
}

/// A unit direction: each component is -1, 0 or 1, and not both are 0.
pub open spec fn valid_dir(d: (i8, i8)) -> bool {
    -1 <= d.0 <= 1 && -1 <= d.1 <= 1 && !(d.0 == 0 && d.1 == 0)
}

/// The rank toward which pawns of color `c` advance: +1 for White, -1
/// for Black.
pub open spec fn pawn_dir(c: Color) -> int {
    match c {
        Color::White => 1,
        Color::Black => -1,
    }
}

/// The starting rank of pawns of color `c`.
pub open spec fn pawn_start_rank(c: Color) -> int {
    match c {
        Color::White => 2,
        Color::Black => 7,
    }
}

/// The farthest rank for pawns of color `c`, where they promote.
pub open spec fn promo_rank(c: Color) -> int {
    match c {
        Color::White => 8,
        Color::Black => 1,
    }
}

/// The back rank of color `c`, where its king and rooks start.
pub open spec fn home_rank(c: Color) -> int {
    match c {
        Color::White => 1,
        Color::Black => 8,
    }
}

/// The number of king steps along the line from (f0, r0) to (f1, r1).
pub open spec fn line_len(f0: int, r0: int, f1: int, r1: int) -> int {
    if abs(f1 - f0) >= abs(r1 - r0) {
        abs(f1 - f0)
    } else {
        abs(r1 - r0)
    }
}

/// The square `i` steps from (f0, r0) along direction (df, dr) is empty.
pub open spec fn empty_at_step(
    sq: Seq<Option<Piece>>,
    f0: int,
    r0: int,
    df: int,
    dr: int,
    i: int,
) -> bool {
    seq_at(sq, f0 + i * df, r0 + i * dr) is None
}

/// All squares strictly between (f0, r0) and (f1, r1) on their shared
/// line (rank, file or diagonal) are empty.
pub open spec fn line_clear(sq: Seq<Option<Piece>>, f0: int, r0: int, f1: int, r1: int) -> bool {
    forall|i: int|
        1 <= i < line_len(f0, r0, f1, r1) ==> #[trigger] empty_at_step(
            sq,
            f0,
            r0,
            sgn(f1 - f0),
            sgn(r1 - r0),
            i,
        )
}

/// Rook geometry: the two squares differ, and share a file or a rank.
pub open spec fn rook_shape(f0: int, r0: int, f1: int, r1: int) -> bool {
    (f1 == f0) != (r1 == r0)
}

/// Bishop geometry: the two squares differ and share a diagonal.
pub open spec fn bishop_shape(f0: int, r0: int, f1: int, r1: int) -> bool {
    f1 != f0 && abs(f1 - f0) == abs(r1 - r0)
}

/// Knight geometry: an L-shaped jump.
pub open spec fn knight_shape(f0: int, r0: int, f1: int, r1: int) -> bool {
    (abs(f1 - f0) == 1 && abs(r1 - r0) == 2) || (abs(f1 - f0) == 2 && abs(r1 - r0) == 1)
}

/// King geometry: one step in any of the eight directions.
pub open spec fn king_shape(f0: int, r0: int, f1: int, r1: int) -> bool {
    abs(f1 - f0) <= 1 && abs(r1 - r0) <= 1 && !(f1 == f0 && r1 == r0)
}

/// Pawn movement from (f0, r0) to (f1, r1): one square forward onto an
/// empty square; a two-square advance from the starting rank when both
/// squares ahead are empty; or a diagonal capture of an enemy piece.
pub open spec fn pawn_step(
    sq: Seq<Option<Piece>>,
    c: Color,
    f0: int,
    r0: int,
    f1: int,
    r1: int,
) -> bool {
    let d = pawn_dir(c);
    ||| (f1 == f0 && r1 == r0 + d && seq_at(sq, f1, r1) is None)
    ||| (f1 == f0 && r1 == r0 + 2 * d && r0 == pawn_start_rank(c) && seq_at(sq, f0, r0 + d) is None
        && seq_at(sq, f1, r1) is None)
    ||| ((f1 == f0 - 1 || f1 == f0 + 1) && r1 == r0 + d && occupied_by(sq, f1, r1, opposite(c)))
}

/// The basic movement rule of piece `pc` from (f0, r0) to (f1, r1):
/// the destination is on the board, is not occupied by a friendly piece,
/// and fits the geometry and occupancy rules of the piece's kind.
/// Castling is layered on top separately (see `castle_clause`).
pub open spec fn piece_step(
    sq: Seq<Option<Piece>>,
    pc: Piece,
    f0: int,
    r0: int,
    f1: int,
    r1: int,
) -> bool {
    &&& on_board(f1, r1)
    &&& !occupied_by(sq, f1, r1, pc.color)
    &&& match pc.kind {
        PieceType::Pawn => pawn_step(sq, pc.color, f0, r0, f1, r1),
        PieceType::Rook => rook_shape(f0, r0, f1, r1) && line_clear(sq, f0, r0, f1, r1),
        PieceType::Bishop => bishop_shape(f0, r0, f1, r1) && line_clear(sq, f0, r0, f1, r1),
        PieceType::Queen => (rook_shape(f0, r0, f1, r1) || bishop_shape(f0, r0, f1, r1))
            && line_clear(sq, f0, r0, f1, r1),
        PieceType::Knight => knight_shape(f0, r0, f1, r1),
        PieceType::King => king_shape(f0, r0, f1, r1),
    }
}

/// The kingside castling right of color `c` on board `b`.
pub open spec fn kingside_right(b: Board, c: Color) -> bool {
    match c {
        Color::White => b.white_can_castle_kingside,
        Color::Black => b.black_can_castle_kingside,
    }
}

/// The queenside castling right of color `c` on board `b`.
pub open spec fn queenside_right(b: Board, c: Color) -> bool {
    match c {
        Color::White => b.white_can_castle_queenside,
        Color::Black => b.black_can_castle_queenside,
    }
}

/// The castling destinations the move generator appends for a king of
/// color `c`: from its original square, two files toward a rook, when the
/// matching right is still held and every square strictly between king
/// and rook is empty. Check-safety of the king's path is deliberately not
/// tested here; the castling subsystem layers it on top.
pub open spec fn castle_clause(b: Board, c: Color, f0: int, r0: int, f1: int, r1: int) -> bool {
    let home = home_rank(c);
    &&& f0 == 5
    &&& r0 == home
    &&& r1 == home
    &&& {
        ||| (f1 == 7 && kingside_right(b, c) && seq_at(b.squares@, 6, home) is None && seq_at(
            b.squares@,
            7,
            home,
        ) is None)
        ||| (f1 == 3 && queenside_right(b, c) && seq_at(b.squares@, 2, home) is None && seq_at(
            b.squares@,
            3,
            home,
        ) is None && seq_at(b.squares@, 4, home) is None)
    }
}

impl Board {
    /// The generator's membership rule: `to` is among the pseudo-legal
    /// destinations of the piece occupying `from` (the empty set when
    /// `from` is unoccupied).
    pub open spec fn is_pseudo_legal(self, from: Position, to: Position) -> bool {
        let f0 = file_ord(from.file);
        let r0 = from.rank as int;
        let f1 = file_ord(to.file);
        let r1 = to.rank as int;
        &&& from.is_valid()
        &&& to.is_valid()
        &&& match self.spec_piece_at(from) {
            Option::None => false,
            Option::Some(pc) => piece_step(self.squares@, pc, f0, r0, f1, r1) || (pc.kind
                == PieceType::King && castle_clause(self, pc.color, f0, r0, f1, r1)),
        }
    }
}

/// A capture-or-slide along direction (df, dr), reached in exactly `n`
/// steps from (f0, r0): every strictly earlier square along the ray is
/// empty, the destination is on the board and not friendly to `c`.
pub open spec fn ray_move_n(
    sq: Seq<Option<Piece>>,
    c: Color,
    f0: int,
    r0: int,
    df: int,
    dr: int,
    f1: int,
    r1: int,
    n: int,
) -> bool {
    &&& n >= 1
    &&& f1 == f0 + n * df
    &&& r1 == r0 + n * dr
    &&& on_board(f1, r1)
    &&& !occupied_by(sq, f1, r1, c)
    &&& forall|m: int| 1 <= m < n ==> #[trigger] empty_at_step(sq, f0, r0, df, dr, m)
}

/// (f1, r1) is reachable from (f0, r0) along direction (df, dr) by a
/// piece of color `c` sliding until blocked.
pub open spec fn ray_move(
    sq: Seq<Option<Piece>>,
    c: Color,
    f0: int,
    r0: int,
    df: int,
    dr: int,
    f1: int,
    r1: int,
) -> bool {
    exists|n: int| ray_move_n(sq, c, f0, r0, df, dr, f1, r1, n)
}

/// The squares of one ray in step order: walking outward from the given
/// square along (df, dr), every empty square, ending with the first
/// occupied one exactly when it holds an enemy of `c`, and clipped at the
/// board's edge. The fuel bounds the walk; eight steps always suffice on
/// this board.
pub open spec fn ray_from(
    sq: Seq<Option<Piece>>,
    c: Color,
    f: int,
    r: int,
    df: int,
    dr: int,
    fuel: nat,
) -> Seq<Position>
    decreases fuel,
{
    if fuel == 0 || !on_board(f, r) {
        Seq::empty()
    } else {
        match seq_at(sq, f, r) {
            None => seq![position_at(f, r)] + ray_from(
                sq,
                c,
                f + df,
                r + dr,
                df,
                dr,
                (fuel - 1) as nat,
            ),
            Some(p) => if p.color != c {
                seq![position_at(f, r)]
            } else {
                Seq::empty()
            },
        }
    }
}

/// The rays of the listed directions, concatenated in the given order.
pub open spec fn rays_seq(
    sq: Seq<Option<Piece>>,
    c: Color,
    from: Position,
    dirs: Seq<(i8, i8)>,
) -> Seq<Position>
    decreases dirs.len(),
{
    if dirs.len() == 0 {
        Seq::empty()
    } else {
        let d = dirs.last();
        rays_seq(sq, c, from, dirs.drop_last()) + ray_from(
            sq,
            c,
            file_ord(from.file) + d.0,
            from.rank as int + d.1,
            d.0 as int,
            d.1 as int,
            8,
        )
    }
}

/// On the board, `position_at` has exactly the coordinates it was built
/// from, and is valid.
pub proof fn lemma_position_at_coords(f: int, r: int)
    requires
        on_board(f, r),
    ensures
        file_ord(position_at(f, r).file) == f,
        position_at(f, r).rank as int == r,
        position_at(f, r).is_valid(),
{
}

/// Two rays from one origin that land on the same square after some
/// steps travel the same unit direction, in the same number of steps.
pub proof fn lemma_dir_determined(dj: (i8, i8), d: (i8, i8), n: int, k: int)
    requires
        valid_dir(dj),
        valid_dir(d),
        n >= 1,
        k >= 1,
        n * (dj.0 as int) == k * (d.0 as int),
        n * (dj.1 as int) == k * (d.1 as int),
    ensures
        dj == d,
        n == k,
{
    lemma_mul_unit(n, dj.0 as int);
    lemma_mul_unit(n, dj.1 as int);
    lemma_mul_unit(k, d.0 as int);
    lemma_mul_unit(k, d.1 as int);
}

/// `to` is reachable from `from` along direction `d`.
pub open spec fn dir_ray_move(
    sq: Seq<Option<Piece>>,
    c: Color,
    from: Position,
    d: (i8, i8),
    to: Position,
) -> bool {
    ray_move(
        sq,
        c,
        file_ord(from.file),
        from.rank as int,
        d.0 as int,
        d.1 as int,
        file_ord(to.file),
        to.rank as int,
    )
}

/// Multiplying by a factor that is -1, 0 or 1 negates, zeroes or keeps
/// the other factor.
pub proof fn lemma_mul_unit(n: int, d: int)
    requires
        -1 <= d <= 1,
    ensures
        d == 1 ==> n * d == n,
        d == -1 ==> n * d == -n,
        d == 0 ==> n * d == 0,
{
    assert(n * 1 == n) by (nonlinear_arith);
    assert(n * -1 == -n) by (nonlinear_arith);
    assert(n * 0 == 0) by (nonlinear_arith);
}

/// Once a ray has left the board it never returns: if step `k` from an
/// on-board origin is off the board, so is every later step.
pub proof fn lemma_ray_stays_off(f0: int, r0: int, df: int, dr: int, k: int, n: int)
    requires
        -1 <= df <= 1,
        -1 <= dr <= 1,
        on_board(f0, r0),
        1 <= k <= n,
        !on_board(f0 + k * df, r0 + k * dr),
    ensures
        !on_board(f0 + n * df, r0 + n * dr),
{
    lemma_mul_unit(k, df);
    lemma_mul_unit(n, df);
    lemma_mul_unit(k, dr);
    lemma_mul_unit(n, dr);
}

/// A ray hit is a sliding move: reaching (f1, r1) in `n` blocked-free
/// steps along a unit direction from an on-board origin means the two
/// squares share a line of sight (a rook line when a component is 0, a
/// diagonal otherwise) whose strictly-between squares are all empty.
pub proof fn lemma_ray_implies_line(
    sq: Seq<Option<Piece>>,
    c: Color,
    f0: int,
    r0: int,
    df: int,
    dr: int,
    f1: int,
    r1: int,
    n: int,
)
    requires
        -1 <= df <= 1,
        -1 <= dr <= 1,
        !(df == 0 && dr == 0),
        on_board(f0, r0),
        ray_move_n(sq, c, f0, r0, df, dr, f1, r1, n),
    ensures
        on_board(f1, r1),
        !occupied_by(sq, f1, r1, c),
        line_clear(sq, f0, r0, f1, r1),
        sgn(f1 - f0) == df,
        sgn(r1 - r0) == dr,
        line_len(f0, r0, f1, r1) == n,
        (df == 0 || dr == 0) ==> rook_shape(f0, r0, f1, r1),
        (df != 0 && dr != 0) ==> bishop_shape(f0, r0, f1, r1),
{
    lemma_mul_unit(n, df);
    lemma_mul_unit(n, dr);
    assert forall|i: int|
        1 <= i < line_len(f0, r0, f1, r1) implies #[trigger] empty_at_step(
        sq,
        f0,
        r0,
        sgn(f1 - f0),
        sgn(r1 - r0),
        i,
    ) by {
        assert(empty_at_step(sq, f0, r0, df, dr, i));
    }
}

/// A sliding move is a ray hit: a clear line of sight to a non-friendly
/// on-board square is reached by stepping along the unit direction given
/// by the signs of the coordinate differences.
pub proof fn lemma_line_implies_ray(
    sq: Seq<Option<Piece>>,
    c: Color,
    f0: int,
    r0: int,
    f1: int,
    r1: int,
)
    requires
        on_board(f0, r0),
        on_board(f1, r1),
        rook_shape(f0, r0, f1, r1) || bishop_shape(f0, r0, f1, r1),
        line_clear(sq, f0, r0, f1, r1),
        !occupied_by(sq, f1, r1, c),
    ensures
        ray_move(sq, c, f0, r0, sgn(f1 - f0), sgn(r1 - r0), f1, r1),
        -1 <= sgn(f1 - f0) <= 1,
        -1 <= sgn(r1 - r0) <= 1,
        !(sgn(f1 - f0) == 0 && sgn(r1 - r0) == 0),
{
    let df = sgn(f1 - f0);
    let dr = sgn(r1 - r0);
    let n = line_len(f0, r0, f1, r1);
    lemma_mul_unit(n, df);
    lemma_mul_unit(n, dr);
    assert(f1 == f0 + n * df);
    assert(r1 == r0 + n * dr);
    assert(ray_move_n(sq, c, f0, r0, df, dr, f1, r1, n));
}

/// `to` lies exactly one fixed offset (df, dr) from `from`, on the board
/// and not occupied by a piece of color `c`: the jump rule shared by the
/// knight and king candidate tables.
pub open spec fn offset_move(
    sq: Seq<Option<Piece>>,
    c: Color,
    from: Position,
    df: int,
    dr: int,
    to: Position,
) -> bool {
    &&& file_ord(to.file) == file_ord(from.file) + df
    &&& to.rank as int == from.rank as int + dr
    &&& on_board(file_ord(to.file), to.rank as int)
    &&& !occupied_by(sq, file_ord(to.file), to.rank as int, c)
}

/// One offset-table step keeps the collection duplicate-free: the
/// appended square, when one is appended, lies at an offset no earlier
/// entry occupies.
proof fn lemma_offset_step_nodup(
    sq: Seq<Option<Piece>>,
    c: Color,
    from: Position,
    prev: Seq<Position>,
    now: Seq<Position>,
    df: int,
    dr: int,
)
    requires
        prev.no_duplicates(),
        ({
            let f1 = file_ord(from.file) + df;
            let r1 = from.rank as int + dr;
            if on_board(f1, r1) && !occupied_by(sq, f1, r1, c) {
                now == prev.push(position_at(f1, r1))
            } else {
                now == prev
            }
        }),
        forall|to: Position|
            #[trigger] prev.contains(to) ==> !(file_ord(to.file) == file_ord(from.file) + df
                && to.rank as int == from.rank as int + dr),
    ensures
        now.no_duplicates(),
{
    let f1 = file_ord(from.file) + df;
    let r1 = from.rank as int + dr;
    if on_board(f1, r1) && !occupied_by(sq, f1, r1, c) {
        lemma_position_at_coords(f1, r1);
        assert(!prev.contains(position_at(f1, r1)));
        lemma_push_nodup(prev, position_at(f1, r1));
    }
}

impl Board {
    /// Appends the destination one offset (df, dr) from `from` when it is
    /// on the board and not occupied by a friendly piece; otherwise the
    /// collection is unchanged.
    fn push_offset_move(
        &self,
        moves: &mut Vec<Position>,
        from: Position,
        df: i8,
        dr: i8,
        color: Color,
    )
        requires
            self.wf(),
            from.is_valid(),
            -2 <= df <= 2,
            -2 <= dr <= 2,
        ensures
            forall|to: Position|
                #[trigger] final(moves)@.contains(to) <==> old(moves)@.contains(to) || offset_move(
                    self.squares@,
                    color,
                    from,
                    df as int,
                    dr as int,
                    to,
                ),
            ({
                let f1 = file_ord(from.file) + df as int;
                let r1 = from.rank as int + dr as int;
                if on_board(f1, r1) && !occupied_by(self.squares@, f1, r1, color) {
                    final(moves)@ == old(moves)@.push(position_at(f1, r1))
                } else {
                    final(moves)@ == old(moves)@
                }
            }),
    {
        let f0: i8 = ((from.file as u32) - 96) as i8;
        let r0: i8 = from.rank as i8;
        let f = f0 + df;
        let r = r0 + dr;
        if 1 <= f && f <= 8 && 1 <= r && r <= 8 {
            let pos = position_of_coords(f as u8, r as u8);
            let i = Board::index_of(pos);
            let friendly = match self.squares[i] {
                Some(p) => p.color == color,
                None => false,
            };
            if !friendly {
                let ghost before = moves@;
                moves.push(pos);
                proof {
                    lemma_push_contains_all(before, pos);
                    assert(pos == position_at(
                        file_ord(from.file) + df as int,
                        from.rank as int + dr as int,
                    ));
                    assert forall|to: Position|
                        to == pos <==> offset_move(
                            self.squares@,
                            color,
                            from,
                            df as int,
                            dr as int,
                            to,
                        ) by {
                        if offset_move(self.squares@, color, from, df as int, dr as int, to) {
                            assert(to.file == pos.file);
                            assert(to.rank == pos.rank);
                        }
                    }
                }
            }
        }
    }
}

impl Board {
    /// Slides outward from `from` in each of the given unit directions,
    /// collecting empty squares until the ray leaves the board or is
    /// blocked; a blocking enemy piece is included as a capture, a
    /// friendly one is excluded. The result is exactly the rays of the
    /// given directions, concatenated in order, each ray's squares in
    /// increasing step order — so it holds exactly the squares reachable
    /// along some listed direction by a piece of color `color`, without
    /// duplicates when the directions are distinct.
    pub fn moves_in_directions(
        &self,
        from: Position,
        directions: &[(i8, i8)],
        color: Color,
    ) -> (moves: Vec<Position>)
        requires
            self.wf(),
            from.is_valid(),
            forall|j: int| 0 <= j < directions@.len() ==> valid_dir(#[trigger] directions@[j]),
        ensures
            moves@ == rays_seq(self.squares@, color, from, directions@),
            directions@.no_duplicates() ==> moves@.no_duplicates(),
            forall|to: Position|
                #[trigger] moves@.contains(to) <==> exists|j: int|
                    0 <= j < directions@.len() && dir_ray_move(
                        self.squares@,
                        color,
                        from,
                        #[trigger] directions@[j],
                        to,
                    ),
    {
        let ghost sq = self.squares@;
        let f0: i8 = ((from.file as u32) - 96) as i8;
        let r0: i8 = from.rank as i8;
        let ghost gf0 = file_ord(from.file);
        let ghost gr0 = from.rank as int;
        assert(f0 as int == gf0);
        assert(r0 as int == gr0);
        let mut moves: Vec<Position> = Vec::new();
        proof {
            assert(directions@.subrange(0, 0) =~= Seq::<(i8, i8)>::empty());
            assert(moves@ =~= rays_seq(sq, color, from, directions@.subrange(0, 0)));
        }
        let mut d_idx: usize = 0;
        while d_idx < directions.len()
            invariant
                self.wf(),
                from.is_valid(),
                sq == self.squares@,
                f0 as int == gf0,
                r0 as int == gr0,
                gf0 == file_ord(from.file),
                gr0 == from.rank as int,
                0 <= d_idx <= directions@.len(),
                forall|j: int| 0 <= j < directions@.len() ==> valid_dir(#[trigger] directions@[j]),
                moves@ == rays_seq(sq, color, from, directions@.subrange(0, d_idx as int)),
                directions@.no_duplicates() ==> moves@.no_duplicates(),
                forall|to: Position|
                    #[trigger] moves@.contains(to) <==> exists|j: int|
                        0 <= j < d_idx && dir_ray_move(sq, color, from, #[trigger] directions@[j], to),
            decreases directions@.len() - d_idx,
        {
            let (df, dr) = directions[d_idx];
            let ghost gdf = df as int;
            let ghost gdr = dr as int;
            let ghost prev = moves@;
            let mut cf: i8 = f0 + df;
            let mut cr: i8 = r0 + dr;
            let ghost mut k: int = 1;
            proof {
                lemma_mul_unit(1, gdf);
                lemma_mul_unit(1, gdr);
                assert(prev + ray_from(sq, color, gf0 + gdf, gr0 + gdr, gdf, gdr, 8) == moves@
                    + ray_from(sq, color, gf0 + k * gdf, gr0 + k * gdr, gdf, gdr, (9 - k) as nat));
            }
            loop
                invariant_except_break
                    self.wf(),
                    sq == self.squares@,
                    valid_dir((df, dr)),
                    gdf == df as int,
                    gdr == dr as int,
                    on_board(gf0, gr0),
                    1 <= k <= 8,
                    cf as int == gf0 + k * gdf,
                    cr as int == gr0 + k * gdr,
                    gf0 == file_ord(from.file),
                    gr0 == from.rank as int,
                    0 <= d_idx < directions@.len(),
                    directions@[d_idx as int] == (df, dr),
                    forall|j: int|
                        0 <= j < directions@.len() ==> valid_dir(#[trigger] directions@[j]),
                    forall|to: Position|
                        #[trigger] prev.contains(to) <==> exists|j: int|
                            0 <= j < d_idx && dir_ray_move(
                                sq,
                                color,
                                from,
                                #[trigger] directions@[j],
                                to,
                            ),
                    directions@.no_duplicates() ==> prev.no_duplicates(),
                    directions@.no_duplicates() ==> moves@.no_duplicates(),
                    prev + ray_from(sq, color, gf0 + gdf, gr0 + gdr, gdf, gdr, 8) == moves@
                        + ray_from(
                        sq,
                        color,
                        gf0 + k * gdf,
                        gr0 + k * gdr,
                        gdf,
                        gdr,
                        (9 - k) as nat,
                    ),
                    forall|m: int|
                        1 <= m < k ==> #[trigger] empty_at_step(sq, gf0, gr0, gdf, gdr, m)
                            && on_board(gf0 + m * gdf, gr0 + m * gdr),
                    forall|to: Position|
                        #[trigger] moves@.contains(to) <==> prev.contains(to) || exists|n: int|
                            1 <= n < k && ray_move_n(
                                sq,
                                color,
                                gf0,
                                gr0,
                                gdf,
                                gdr,
                                file_ord(to.file),
                                to.rank as int,
                                n,
                            ),
                ensures
                    moves@ == prev + ray_from(sq, color, gf0 + gdf, gr0 + gdr, gdf, gdr, 8),
                    directions@.no_duplicates() ==> moves@.no_duplicates(),
                    forall|to: Position|
                        #[trigger] moves@.contains(to) <==> prev.contains(to) || ray_move(
                            sq,
                            color,
                            gf0,
                            gr0,
                            gdf,
                            gdr,
                            file_ord(to.file),
                            to.rank as int,
                        ),
                decreases 8 - k,
            {
                if cf < 1 || cf > 8 || cr < 1 || cr > 8 {
                    proof {
                        assert forall|to: Position, n: int|
                            ray_move_n(
                                sq,
                                color,
                                gf0,
                                gr0,
                                gdf,
                                gdr,
                                file_ord(to.file),
                                to.rank as int,
                                n,
                            ) implies n < k by {
                            if n >= k {
                                lemma_ray_stays_off(gf0, gr0, gdf, gdr, k, n);
                            }
                        }
                        // the walk has left the board: the ray's tail is empty
                        assert(ray_from(
                            sq,
                            color,
                            gf0 + k * gdf,
                            gr0 + k * gdr,
                            gdf,
                            gdr,
                            (9 - k) as nat,
                        ) =~= Seq::<Position>::empty());
                        assert(moves@ + Seq::<Position>::empty() =~= moves@);
                        assert(moves@ =~= prev + ray_from(
                            sq,
                            color,
                            gf0 + gdf,
                            gr0 + gdr,
                            gdf,
                            gdr,
                            8,
                        ));
                    }
                    break;
                }
                let pos = Position { file: char_of_file(cf as u8), rank: cr as u8 };
                proof {
                    assert(file_ord(pos.file) == gf0 + k * gdf);
                    assert(pos.rank as int == gr0 + k * gdr);
                }
                let i = Board::index_of(pos);
                match self.squares[i] {
                    None => {
                        let ghost before = moves@;
                        moves.push(pos);
                        proof {
                            assert(empty_at_step(sq, gf0, gr0, gdf, gdr, k));
                            assert(on_board(gf0 + k * gdf, gr0 + k * gdr));
                            assert(ray_move_n(
                                sq,
                                color,
                                gf0,
                                gr0,
                                gdf,
                                gdr,
                                file_ord(pos.file),
                                pos.rank as int,
                                k,
                            ));
                            assert forall|to: Position| #[trigger]
                                moves@.contains(to) <==> prev.contains(to) || exists|n: int|
                                    1 <= n < k + 1 && ray_move_n(
                                        sq,
                                        color,
                                        gf0,
                                        gr0,
                                        gdf,
                                        gdr,
                                        file_ord(to.file),
                                        to.rank as int,
                                        n,
                                    ) by {
                                lemma_push_contains(before, pos, to);
                                if moves@.contains(to) {
                                    if to == pos {
                                        assert(ray_move_n(
                                            sq,
                                            color,
                                            gf0,
                                            gr0,
                                            gdf,
                                            gdr,
                                            file_ord(to.file),
                                            to.rank as int,
                                            k,
                                        ));
                                    }
                                } else {
                                    if exists|n: int|
                                        1 <= n < k + 1 && ray_move_n(
                                            sq,
                                            color,
                                            gf0,
                                            gr0,
                                            gdf,
                                            gdr,
                                            file_ord(to.file),
                                            to.rank as int,
                                            n,
                                        ) {
                                        let n = choose|n: int|
                                            1 <= n < k + 1 && ray_move_n(
                                                sq,
                                                color,
                                                gf0,
                                                gr0,
                                                gdf,
                                                gdr,
                                                file_ord(to.file),
                                                to.rank as int,
                                                n,
                                            );
                                        if n == k {
                                            assert(file_ord(to.file) == file_ord(pos.file));
                                            assert(to.file == pos.file);
                                            assert(to.rank == pos.rank);
                                            assert(to == pos);
                                        }
                                    }
                                }
                            }
                            lemma_position_at_coords(gf0 + k * gdf, gr0 + k * gdr);
                            assert(pos == position_at(gf0 + k * gdf, gr0 + k * gdr));
                            if directions@.no_duplicates() {
                                assert(!before.contains(pos)) by {
                                    if before.contains(pos) {
                                        if prev.contains(pos) {
                                            let j = choose|j: int|
                                                0 <= j < d_idx && dir_ray_move(
                                                    sq,
                                                    color,
                                                    from,
                                                    #[trigger] directions@[j],
                                                    pos,
                                                );
                                            let dj = directions@[j];
                                            let n = choose|n: int|
                                                ray_move_n(
                                                    sq,
                                                    color,
                                                    gf0,
                                                    gr0,
                                                    dj.0 as int,
                                                    dj.1 as int,
                                                    file_ord(pos.file),
                                                    pos.rank as int,
                                                    n,
                                                );
                                            lemma_dir_determined(dj, (df, dr), n, k);
                                            assert(directions@[j] == directions@[d_idx as int]);
                                            assert(false);
                                        } else {
                                            let n = choose|n: int|
                                                1 <= n < k && ray_move_n(
                                                    sq,
                                                    color,
                                                    gf0,
                                                    gr0,
                                                    gdf,
                                                    gdr,
                                                    file_ord(pos.file),
                                                    pos.rank as int,
                                                    n,
                                                );
                                            lemma_dir_determined((df, dr), (df, dr), n, k);
                                            assert(false);
                                        }
                                    }
                                }
                                lemma_push_nodup(before, pos);
                            }
                            lemma_mul_unit(k, gdf);
                            lemma_mul_unit(k, gdr);
                            lemma_mul_unit(k + 1, gdf);
                            lemma_mul_unit(k + 1, gdr);
                            assert(k * gdf + gdf == (k + 1) * gdf);
                            assert(k * gdr + gdr == (k + 1) * gdr);
                            assert(ray_from(
                                sq,
                                color,
                                gf0 + k * gdf,
                                gr0 + k * gdr,
                                gdf,
                                gdr,
                                (9 - k) as nat,
                            ) == seq![pos] + ray_from(
                                sq,
                                color,
                                gf0 + (k + 1) * gdf,
                                gr0 + (k + 1) * gdr,
                                gdf,
                                gdr,
                                (9 - (k + 1)) as nat,
                            ));
                            assert(moves@ + ray_from(
                                sq,
                                color,
                                gf0 + (k + 1) * gdf,
                                gr0 + (k + 1) * gdr,
                                gdf,
                                gdr,
                                (9 - (k + 1)) as nat,
                            ) =~= prev + ray_from(sq, color, gf0 + gdf, gr0 + gdr, gdf, gdr, 8));
                            k = k + 1;
                            if k > 8 {
                                lemma_mul_unit(8, gdf);
                                lemma_mul_unit(8, gdr);
                                assert(false);
                            }
                        }
                        cf = cf + df;
                        cr = cr + dr;
                    },
                    Some(p) => {
                        if p.color != color {
                            let ghost before = moves@;
                            moves.push(pos);
                            proof {
                                assert(ray_move_n(
                                    sq,
                                    color,
                                    gf0,
                                    gr0,
                                    gdf,
                                    gdr,
                                    file_ord(pos.file),
                                    pos.rank as int,
                                    k,
                                ));
                                assert forall|to: Position| #[trigger]
                                    moves@.contains(to) <==> prev.contains(to) || ray_move(
                                        sq,
                                        color,
                                        gf0,
                                        gr0,
                                        gdf,
                                        gdr,
                                        file_ord(to.file),
                                        to.rank as int,
                                    ) by {
                                    lemma_push_contains(before, pos, to);
                                    if prev.contains(to) || ray_move(
                                        sq,
                                        color,
                                        gf0,
                                        gr0,
                                        gdf,
                                        gdr,
                                        file_ord(to.file),
                                        to.rank as int,
                                    ) {
                                        if !prev.contains(to) {
                                            let n = choose|n: int|
                                                ray_move_n(
                                                    sq,
                                                    color,
                                                    gf0,
                                                    gr0,
                                                    gdf,
                                                    gdr,
                                                    file_ord(to.file),
                                                    to.rank as int,
                                                    n,
                                                );
                                            if n > k {
                                                assert(!empty_at_step(sq, gf0, gr0, gdf, gdr, k));
                                                assert(false);
                                            } else if n == k {
                                                assert(to.file == pos.file);
                                                assert(to.rank == pos.rank);
                                            }
                                        }
                                    }
                                }
                                lemma_position_at_coords(gf0 + k * gdf, gr0 + k * gdr);
                                assert(pos == position_at(gf0 + k * gdf, gr0 + k * gdr));
                                if directions@.no_duplicates() {
                                    assert(!before.contains(pos)) by {
                                        if before.contains(pos) {
                                            if prev.contains(pos) {
                                                let j = choose|j: int|
                                                    0 <= j < d_idx && dir_ray_move(
                                                        sq,
                                                        color,
                                                        from,
                                                        #[trigger] directions@[j],
                                                        pos,
                                                    );
                                                let dj = directions@[j];
                                                let n = choose|n: int|
                                                    ray_move_n(
                                                        sq,
                                                        color,
                                                        gf0,
                                                        gr0,
                                                        dj.0 as int,
                                                        dj.1 as int,
                                                        file_ord(pos.file),
                                                        pos.rank as int,
                                                        n,
                                                    );
                                                lemma_dir_determined(dj, (df, dr), n, k);
                                                assert(directions@[j] == directions@[
                                                    d_idx as int]);
                                                assert(false);
                                            } else {
                                                let n = choose|n: int|
                                                    1 <= n < k && ray_move_n(
                                                        sq,
                                                        color,
                                                        gf0,
                                                        gr0,
                                                        gdf,
                                                        gdr,
                                                        file_ord(pos.file),
                                                        pos.rank as int,
                                                        n,
                                                    );
                                                lemma_dir_determined((df, dr), (df, dr), n, k);
                                                assert(false);
                                            }
                                        }
                                    }
                                    lemma_push_nodup(before, pos);
                                }
                                assert(ray_from(
                                    sq,
                                    color,
                                    gf0 + k * gdf,
                                    gr0 + k * gdr,
                                    gdf,
                                    gdr,
                                    (9 - k) as nat,
                                ) =~= seq![pos]);
                                assert(moves@ =~= before + seq![pos]);
                                assert(moves@ =~= prev + ray_from(
                                    sq,
                                    color,
                                    gf0 + gdf,
                                    gr0 + gdr,
                                    gdf,
                                    gdr,
                                    8,
                                ));
                            }
                        } else {
                            proof {
                                assert forall|to: Position|
                                    #[trigger] moves@.contains(to) <==> prev.contains(to)
                                        || ray_move(
                                        sq,
                                        color,
                                        gf0,
                                        gr0,
                                        gdf,
                                        gdr,
                                        file_ord(to.file),
                                        to.rank as int,
                                    ) by {
                                    if !prev.contains(to) && ray_move(
                                        sq,
                                        color,
                                        gf0,
                                        gr0,
                                        gdf,
                                        gdr,
                                        file_ord(to.file),
                                        to.rank as int,
                                    ) {
                                        let n = choose|n: int|
                                            ray_move_n(
                                                sq,
                                                color,
                                                gf0,
                                                gr0,
                                                gdf,
                                                gdr,
                                                file_ord(to.file),
                                                to.rank as int,
                                                n,
                                            );
                                        if n > k {
                                            assert(!empty_at_step(sq, gf0, gr0, gdf, gdr, k));
                                            assert(false);
                                        } else if n == k {
                                            assert(!occupied_by(
                                                sq,
                                                gf0 + k * gdf,
                                                gr0 + k * gdr,
                                                color,
                                            ));
                                            assert(false);
                                        }
                                    }
                                }
                                assert(ray_from(
                                    sq,
                                    color,
                                    gf0 + k * gdf,
                                    gr0 + k * gdr,
                                    gdf,
                                    gdr,
                                    (9 - k) as nat,
                                ) =~= Seq::<Position>::empty());
                                assert(moves@ + Seq::<Position>::empty() =~= moves@);
                                assert(moves@ =~= prev + ray_from(
                                    sq,
                                    color,
                                    gf0 + gdf,
                                    gr0 + gdr,
                                    gdf,
                                    gdr,
                                    8,
                                ));
                            }
                        }
                        break;
                    },
                }
            }
            proof {
                assert forall|to: Position|
                    #[trigger] moves@.contains(to) <==> exists|j: int|
                        0 <= j < d_idx + 1 && dir_ray_move(
                            sq,
                            color,
                            from,
                            #[trigger] directions@[j],
                            to,
                        ) by {
                    if moves@.contains(to) {
                        if prev.contains(to) {
                        } else {
                            assert(dir_ray_move(sq, color, from, directions@[d_idx as int], to));
                        }
                    } else {
                        assert(!prev.contains(to));
                    }
                }
                let sub1 = directions@.subrange(0, d_idx + 1);
                assert(sub1.drop_last() =~= directions@.subrange(0, d_idx as int));
                assert(sub1.last() == directions@[d_idx as int]);
                assert(moves@ == rays_seq(sq, color, from, sub1));
            }
            d_idx = d_idx + 1;
        }
        proof {
            assert(directions@.subrange(0, directions@.len() as int) =~= directions@);
        }
        moves
    }

    /// Enumerates the pseudo-legal destinations of the piece at `from`:
    /// exactly the squares allowed by the piece's movement and occupancy
    /// rules (including, for a king on its original square, the castling
    /// destinations whose requirements of rights and empty transit hold),
    /// each listed once. Check-safety is not considered; an empty square
    /// yields no moves.
    #[verifier::rlimit(100)]
    #[verifier::spinoff_prover]
    pub fn get_legal_moves(&self, from: Position) -> (moves: Vec<Position>)
        requires
            self.wf(),
            from.is_valid(),
        ensures
            forall|to: Position| #[trigger] moves@.contains(to) <==> self.is_pseudo_legal(from, to),
            moves@.no_duplicates(),
    {
        let ghost sq = self.squares@;
        let ghost gf0 = file_ord(from.file);
        let ghost gr0 = from.rank as int;
        let piece = match self.piece_at(from) {
            Some(p) => p,
            None => {
                let empty_moves: Vec<Position> = Vec::new();
                return empty_moves;
            },
        };
        let f0: i8 = ((from.file as u32) - 96) as i8;
        let r0: i8 = from.rank as i8;
        assert(f0 as int == gf0);
        assert(r0 as int == gr0);
        match piece.kind {
            PieceType::Pawn => {
                let mut moves: Vec<Position> = Vec::new();
                let d: i8 = match piece.color {
                    Color::White => 1,
                    Color::Black => -1,
                };
                let ghost gd = pawn_dir(piece.color);
                assert(d as int == gd);
                let fr: i8 = r0 + d;
                // forward, and the double step from the starting rank
                if 1 <= fr && fr <= 8 {
                    let fwd = position_of_coords(f0 as u8, fr as u8);
                    let fi = Board::index_of(fwd);
                    if self.squares[fi].is_none() {
                        let ghost before = moves@;
                        moves.push(fwd);
                        proof {
                            lemma_push_contains_all(before, fwd);
                            lemma_push_nodup(before, fwd);
                        }
                        let on_start = match piece.color {
                            Color::White => from.rank == 2,
                            Color::Black => from.rank == 7,
                        };
                        if on_start {
                            let fr2: i8 = r0 + 2 * d;
                            if 1 <= fr2 && fr2 <= 8 {
                                let dbl = position_of_coords(f0 as u8, fr2 as u8);
                                let di = Board::index_of(dbl);
                                if self.squares[di].is_none() {
                                    let ghost before2 = moves@;
                                    moves.push(dbl);
                                    proof {
                                        lemma_push_contains_all(before2, dbl);
                                        assert(!before2.contains(dbl)) by {
                                            if before2.contains(dbl) {
                                                assert(dbl.rank != fwd.rank);
                                            }
                                        }
                                        lemma_push_nodup(before2, dbl);
                                    }
                                }
                            }
                        }
                    }
                }
                proof {
                    assert forall|to: Position|
                        #[trigger] moves@.contains(to) <==> ({
                            let f1 = file_ord(to.file);
                            let r1 = to.rank as int;
                            ||| (f1 == gf0 && r1 == gr0 + gd && on_board(f1, r1) && seq_at(
                                sq,
                                f1,
                                r1,
                            ) is None)
                            ||| (f1 == gf0 && r1 == gr0 + 2 * gd && gr0 == pawn_start_rank(
                                piece.color,
                            ) && on_board(f1, r1) && seq_at(sq, gf0, gr0 + gd) is None && seq_at(
                                sq,
                                f1,
                                r1,
                            ) is None)
                        }) by {
                        let f1 = file_ord(to.file);
                        let r1 = to.rank as int;
                        if f1 == gf0 && (r1 == gr0 + gd || r1 == gr0 + 2 * gd) && on_board(f1, r1) {
                            assert(to.file == from.file);
                        }
                    }
                    assert(moves@.no_duplicates());
                }
                // diagonal captures
                let ghost after_fwd = moves@;
                if 1 <= fr && fr <= 8 {
                    let mut side: usize = 0;
                    while side < 2
                        invariant
                            self.wf(),
                            from.is_valid(),
                            sq == self.squares@,
                            f0 as int == gf0,
                            fr as int == gr0 + gd,
                            1 <= fr <= 8,
                            1 <= gf0 <= 8,
                            gf0 == file_ord(from.file),
                            gr0 == from.rank as int,
                            gd == pawn_dir(piece.color),
                            0 <= side <= 2,
                            moves@.no_duplicates(),
                            forall|to: Position|
                                #[trigger] after_fwd.contains(to) ==> file_ord(to.file) == gf0,
                            forall|to: Position|
                                #[trigger] moves@.contains(to) <==> after_fwd.contains(to) || ({
                                    let f1 = file_ord(to.file);
                                    let r1 = to.rank as int;
                                    &&& (f1 == gf0 - 1 && side >= 1) || (f1 == gf0 + 1 && side
                                        >= 2)
                                    &&& r1 == gr0 + gd
                                    &&& on_board(f1, r1)
                                    &&& occupied_by(sq, f1, r1, opposite(piece.color))
                                }),
                        decreases 2 - side,
                    {
                        let df: i8 = if side == 0 {
                            -1
                        } else {
                            1
                        };
                        let cf = f0 + df;
                        if 1 <= cf && cf <= 8 {
                            let cap = position_of_coords(cf as u8, fr as u8);
                            let ci = Board::index_of(cap);
                            let is_enemy = match self.squares[ci] {
                                Some(p) => p.color != piece.color,
                                None => false,
                            };
                            if is_enemy {
                                let ghost before = moves@;
                                moves.push(cap);
                                proof {
                                    lemma_push_contains_all(before, cap);
                                    assert(!before.contains(cap)) by {
                                        if before.contains(cap) {
                                            assert(file_ord(cap.file) == gf0 + df as int);
                                        }
                                    }
                                    lemma_push_nodup(before, cap);
                                    assert forall|to: Position|
                                        to == cap <==> (file_ord(to.file) == gf0 + df as int
                                            && to.rank as int == gr0 + gd) by {
                                        if file_ord(to.file) == gf0 + df as int && to.rank as int
                                            == gr0 + gd {
                                            assert(to.file == cap.file);
                                            assert(to.rank == cap.rank);
                                        }
                                    }
                                }
                            }
                        }
                        side = side + 1;
                    }
                }
                proof {
                    assert forall|to: Position|
                        #[trigger] moves@.contains(to) <==> self.is_pseudo_legal(from, to) by {
                        let f1 = file_ord(to.file);
                        let r1 = to.rank as int;
                        if moves@.contains(to) {
                            assert(on_board(f1, r1));
                            assert(to.is_valid());
                            assert(pawn_step(sq, piece.color, gf0, gr0, f1, r1));
                        }
                        if self.is_pseudo_legal(from, to) {
                            assert(piece_step(sq, piece, gf0, gr0, f1, r1));
                        }
                    }
                }
                moves
            },
            PieceType::Rook => {
                let dirs: [(i8, i8); 4] = [(1, 0), (-1, 0), (0, 1), (0, -1)];
                proof {
                    assert(dirs@.no_duplicates());
                }
                let mv = self.moves_in_directions(from, dirs.as_slice(), piece.color);
                proof {
                    assert forall|to: Position|
                        #[trigger] mv@.contains(to) <==> self.is_pseudo_legal(from, to) by {
                        let f1 = file_ord(to.file);
                        let r1 = to.rank as int;
                        if mv@.contains(to) {
                            let j = choose|j: int|
                                0 <= j < dirs@.len() && dir_ray_move(
                                    sq,
                                    piece.color,
                                    from,
                                    #[trigger] dirs@[j],
                                    to,
                                );
                            let dd = dirs@[j];
                            let n = choose|n: int|
                                ray_move_n(
                                    sq,
                                    piece.color,
                                    gf0,
                                    gr0,
                                    dd.0 as int,
                                    dd.1 as int,
                                    f1,
                                    r1,
                                    n,
                                );
                            lemma_ray_implies_line(
                                sq,
                                piece.color,
                                gf0,
                                gr0,
                                dd.0 as int,
                                dd.1 as int,
                                f1,
                                r1,
                                n,
                            );
                            assert(to.is_valid());
                            assert(piece_step(sq, piece, gf0, gr0, f1, r1));
                        }
                        if self.is_pseudo_legal(from, to) {
                            assert(piece_step(sq, piece, gf0, gr0, f1, r1));
                            lemma_line_implies_ray(sq, piece.color, gf0, gr0, f1, r1);
                            let df = sgn(f1 - gf0);
                            let dr = sgn(r1 - gr0);
                            if df == 1 && dr == 0 {
                                assert(dir_ray_move(sq, piece.color, from, dirs@[0], to));
                            } else if df == -1 && dr == 0 {
                                assert(dir_ray_move(sq, piece.color, from, dirs@[1], to));
                            } else if df == 0 && dr == 1 {
                                assert(dir_ray_move(sq, piece.color, from, dirs@[2], to));
                            } else {
                                assert(df == 0 && dr == -1);
                                assert(dir_ray_move(sq, piece.color, from, dirs@[3], to));
                            }
                            assert(mv@.contains(to));
                        }
                    }
                }
                mv
            },
            PieceType::Bishop => {
                let dirs: [(i8, i8); 4] = [(1, 1), (-1, 1), (1, -1), (-1, -1)];
                proof {
                    assert(dirs@.no_duplicates());
                }
                let mv = self.moves_in_directions(from, dirs.as_slice(), piece.color);
                proof {
                    assert forall|to: Position|
                        #[trigger] mv@.contains(to) <==> self.is_pseudo_legal(from, to) by {
                        let f1 = file_ord(to.file);
                        let r1 = to.rank as int;
                        if mv@.contains(to) {
                            let j = choose|j: int|
                                0 <= j < dirs@.len() && dir_ray_move(
                                    sq,
                                    piece.color,
                                    from,
                                    #[trigger] dirs@[j],
                                    to,
                                );
                            let dd = dirs@[j];
                            let n = choose|n: int|
                                ray_move_n(
                                    sq,
                                    piece.color,
                                    gf0,
                                    gr0,
                                    dd.0 as int,
                                    dd.1 as int,
                                    f1,
                                    r1,
                                    n,
                                );
                            lemma_ray_implies_line(
                                sq,
                                piece.color,
                                gf0,
                                gr0,
                                dd.0 as int,
                                dd.1 as int,
                                f1,
                                r1,
                                n,
                            );
                            assert(to.is_valid());
                            assert(piece_step(sq, piece, gf0, gr0, f1, r1));
                        }
                        if self.is_pseudo_legal(from, to) {
                            assert(piece_step(sq, piece, gf0, gr0, f1, r1));
                            lemma_line_implies_ray(sq, piece.color, gf0, gr0, f1, r1);
                            let df = sgn(f1 - gf0);
                            let dr = sgn(r1 - gr0);
                            if df == 1 && dr == 1 {
                                assert(dir_ray_move(sq, piece.color, from, dirs@[0], to));
                            } else if df == -1 && dr == 1 {
                                assert(dir_ray_move(sq, piece.color, from, dirs@[1], to));
                            } else if df == 1 && dr == -1 {
                                assert(dir_ray_move(sq, piece.color, from, dirs@[2], to));
                            } else {
                                assert(df == -1 && dr == -1);
                                assert(dir_ray_move(sq, piece.color, from, dirs@[3], to));
                            }
                            assert(mv@.contains(to));
                        }
                    }
                }
                mv
            },
            PieceType::Queen => {
                let dirs: [(i8, i8); 8] = [
                    (1, 0),
                    (-1, 0),
                    (0, 1),
                    (0, -1),
                    (1, 1),
                    (-1, 1),
                    (1, -1),
                    (-1, -1),
                ];
                proof {
                    assert(dirs@.no_duplicates());
                }
                let mv = self.moves_in_directions(from, dirs.as_slice(), piece.color);
                proof {
                    assert forall|to: Position|
                        #[trigger] mv@.contains(to) <==> self.is_pseudo_legal(from, to) by {
                        let f1 = file_ord(to.file);
                        let r1 = to.rank as int;
                        if mv@.contains(to) {
                            let j = choose|j: int|
                                0 <= j < dirs@.len() && dir_ray_move(
                                    sq,
                                    piece.color,
                                    from,
                                    #[trigger] dirs@[j],
                                    to,
                                );
                            let dd = dirs@[j];
                            let n = choose|n: int|
                                ray_move_n(
                                    sq,
                                    piece.color,
                                    gf0,
                                    gr0,
                                    dd.0 as int,
                                    dd.1 as int,
                                    f1,
                                    r1,
                                    n,
                                );
                            lemma_ray_implies_line(
                                sq,
                                piece.color,
                                gf0,
                                gr0,
                                dd.0 as int,
                                dd.1 as int,
                                f1,
                                r1,
                                n,
                            );
                            assert(to.is_valid());
                            assert(piece_step(sq, piece, gf0, gr0, f1, r1));
                        }
                        if self.is_pseudo_legal(from, to) {
                            assert(piece_step(sq, piece, gf0, gr0, f1, r1));
                            lemma_line_implies_ray(sq, piece.color, gf0, gr0, f1, r1);
                            let df = sgn(f1 - gf0);
                            let dr = sgn(r1 - gr0);
                            if df == 1 && dr == 0 {
                                assert(dir_ray_move(sq, piece.color, from, dirs@[0], to));
                            } else if df == -1 && dr == 0 {
                                assert(dir_ray_move(sq, piece.color, from, dirs@[1], to));
                            } else if df == 0 && dr == 1 {
                                assert(dir_ray_move(sq, piece.color, from, dirs@[2], to));
                            } else if df == 0 && dr == -1 {
                                assert(dir_ray_move(sq, piece.color, from, dirs@[3], to));
                            } else if df == 1 && dr == 1 {
                                assert(dir_ray_move(sq, piece.color, from, dirs@[4], to));
                            } else if df == -1 && dr == 1 {
                                assert(dir_ray_move(sq, piece.color, from, dirs@[5], to));
                            } else if df == 1 && dr == -1 {
                                assert(dir_ray_move(sq, piece.color, from, dirs@[6], to));
                            } else {
                                assert(df == -1 && dr == -1);
                                assert(dir_ray_move(sq, piece.color, from, dirs@[7], to));
                            }
                            assert(mv@.contains(to));
                        }
                    }
                }
                mv
            },
            PieceType::Knight => {
                let mut moves: Vec<Position> = Vec::new();
                let ghost kn0 = moves@;
                self.push_offset_move(&mut moves, from, 2, 1, piece.color);
                proof {
                    lemma_offset_step_nodup(sq, piece.color, from, kn0, moves@, 2, 1);
                }
                let ghost kn1 = moves@;
                self.push_offset_move(&mut moves, from, 1, 2, piece.color);
                proof {
                    lemma_offset_step_nodup(sq, piece.color, from, kn1, moves@, 1, 2);
                }
                let ghost kn2 = moves@;
                self.push_offset_move(&mut moves, from, -1, 2, piece.color);
                proof {
                    lemma_offset_step_nodup(sq, piece.color, from, kn2, moves@, -1, 2);
                }
                let ghost kn3 = moves@;
                self.push_offset_move(&mut moves, from, -2, 1, piece.color);
                proof {
                    lemma_offset_step_nodup(sq, piece.color, from, kn3, moves@, -2, 1);
                }
                let ghost kn4 = moves@;
                self.push_offset_move(&mut moves, from, -2, -1, piece.color);
                proof {
                    lemma_offset_step_nodup(sq, piece.color, from, kn4, moves@, -2, -1);
                }
                let ghost kn5 = moves@;
                self.push_offset_move(&mut moves, from, -1, -2, piece.color);
                proof {
                    lemma_offset_step_nodup(sq, piece.color, from, kn5, moves@, -1, -2);
                }
                let ghost kn6 = moves@;
                self.push_offset_move(&mut moves, from, 1, -2, piece.color);
                proof {
                    lemma_offset_step_nodup(sq, piece.color, from, kn6, moves@, 1, -2);
                }
                let ghost kn7 = moves@;
                self.push_offset_move(&mut moves, from, 2, -1, piece.color);
                proof {
                    lemma_offset_step_nodup(sq, piece.color, from, kn7, moves@, 2, -1);
                }
                proof {
                    assert forall|to: Position|
                        #[trigger] moves@.contains(to) <==> self.is_pseudo_legal(from, to) by {
                        let f1 = file_ord(to.file);
                        let r1 = to.rank as int;
                        if moves@.contains(to) {
                            assert(to.is_valid());
                            assert(knight_shape(gf0, gr0, f1, r1));
                        }
                        if self.is_pseudo_legal(from, to) {
                            assert(piece_step(sq, piece, gf0, gr0, f1, r1));
                            assert(f1 - gf0 == 2 && r1 - gr0 == 1 || f1 - gf0 == 1 && r1 - gr0 == 2
                                || f1 - gf0 == -1 && r1 - gr0 == 2 || f1 - gf0 == -2 && r1 - gr0
                                == 1 || f1 - gf0 == -2 && r1 - gr0 == -1 || f1 - gf0 == -1 && r1
                                - gr0 == -2 || f1 - gf0 == 1 && r1 - gr0 == -2 || f1 - gf0 == 2
                                && r1 - gr0 == -1);
                            assert(moves@.contains(to));
                        }
                    }
                }
                moves
            },
            PieceType::King => {
                let mut moves: Vec<Position> = Vec::new();
                let ghost kg0 = moves@;
                self.push_offset_move(&mut moves, from, 1, 0, piece.color);
                proof {
                    lemma_offset_step_nodup(sq, piece.color, from, kg0, moves@, 1, 0);
                }
                let ghost kg1 = moves@;
                self.push_offset_move(&mut moves, from, -1, 0, piece.color);
                proof {
                    lemma_offset_step_nodup(sq, piece.color, from, kg1, moves@, -1, 0);
                }
                let ghost kg2 = moves@;
                self.push_offset_move(&mut moves, from, 0, 1, piece.color);
                proof {
                    lemma_offset_step_nodup(sq, piece.color, from, kg2, moves@, 0, 1);
                }
                let ghost kg3 = moves@;
                self.push_offset_move(&mut moves, from, 0, -1, piece.color);
                proof {
                    lemma_offset_step_nodup(sq, piece.color, from, kg3, moves@, 0, -1);
                }
                let ghost kg4 = moves@;
                self.push_offset_move(&mut moves, from, 1, 1, piece.color);
                proof {
                    lemma_offset_step_nodup(sq, piece.color, from, kg4, moves@, 1, 1);
                }
                let ghost kg5 = moves@;
                self.push_offset_move(&mut moves, from, -1, 1, piece.color);
                proof {
                    lemma_offset_step_nodup(sq, piece.color, from, kg5, moves@, -1, 1);
                }
                let ghost kg6 = moves@;
                self.push_offset_move(&mut moves, from, 1, -1, piece.color);
                proof {
                    lemma_offset_step_nodup(sq, piece.color, from, kg6, moves@, 1, -1);
                }
                let ghost kg7 = moves@;
                self.push_offset_move(&mut moves, from, -1, -1, piece.color);
                proof {
                    lemma_offset_step_nodup(sq, piece.color, from, kg7, moves@, -1, -1);
                }
                proof {
                    assert forall|to: Position|
                        #[trigger] moves@.contains(to) <==> (to.is_valid() && piece_step(
                            sq,
                            piece,
                            gf0,
                            gr0,
                            file_ord(to.file),
                            to.rank as int,
                        )) by {
                        let f1 = file_ord(to.file);
                        let r1 = to.rank as int;
                        if !moves@.contains(to) && to.is_valid() && piece_step(
                            sq,
                            piece,
                            gf0,
                            gr0,
                            f1,
                            r1,
                        ) {
                            assert(king_shape(gf0, gr0, f1, r1));
                            assert(-1 <= f1 - gf0 <= 1 && -1 <= r1 - gr0 <= 1);
                            assert(false);
                        }
                    }
                }
                let ghost base = moves@;
                // castling destinations, for a king still on its original square
                let home: u8 = match piece.color {
                    Color::White => 1,
                    Color::Black => 8,
                };
                assert(home as int == home_rank(piece.color));
                if from.file == 'e' && from.rank == home {
                    assert(gf0 == 5 && gr0 == home_rank(piece.color));
                    let kingside_allowed = match piece.color {
                        Color::White => self.white_can_castle_kingside,
                        Color::Black => self.black_can_castle_kingside,
                    };
                    assert(kingside_allowed == kingside_right(*self, piece.color));
                    if kingside_allowed {
                        let fpos = position_of_coords(6, home);
                        let gpos = position_of_coords(7, home);
                        let fpi = Board::index_of(fpos);
                        let gpi = Board::index_of(gpos);
                        if self.squares[fpi].is_none() && self.squares[gpi].is_none() {
                            let ghost before = moves@;
                            moves.push(gpos);
                            proof {
                                lemma_push_contains_all(before, gpos);
                                assert(!before.contains(gpos)) by {
                                    if before.contains(gpos) {
                                        assert(king_shape(gf0, gr0, 7, home_rank(piece.color)));
                                    }
                                }
                                lemma_push_nodup(before, gpos);
                            }
                        }
                    }
                    proof {
                        assert forall|to: Position|
                            #[trigger] moves@.contains(to) <==> base.contains(to) || ({
                                let home = home_rank(piece.color);
                                &&& file_ord(to.file) == 7
                                &&& to.rank as int == home
                                &&& kingside_right(*self, piece.color)
                                &&& seq_at(sq, 6, home) is None
                                &&& seq_at(sq, 7, home) is None
                            }) by {
                            let home = home_rank(piece.color);
                            if file_ord(to.file) == 7 && to.rank as int == home {
                                assert(to.file as int == 103);
                                assert(to.file == 'g');
                            }
                        }
                    }
                    let ghost with_ks = moves@;
                    let queenside_allowed = match piece.color {
                        Color::White => self.white_can_castle_queenside,
                        Color::Black => self.black_can_castle_queenside,
                    };
                    assert(queenside_allowed == queenside_right(*self, piece.color));
                    if queenside_allowed {
                        let bpos = position_of_coords(2, home);
                        let cpos = position_of_coords(3, home);
                        let dpos = position_of_coords(4, home);
                        let bpi = Board::index_of(bpos);
                        let cpi = Board::index_of(cpos);
                        let dpi = Board::index_of(dpos);
                        if self.squares[bpi].is_none() && self.squares[cpi].is_none()
                            && self.squares[dpi].is_none() {
                            let ghost before = moves@;
                            moves.push(cpos);
                            proof {
                                lemma_push_contains_all(before, cpos);
                                assert(!before.contains(cpos)) by {
                                    if before.contains(cpos) {
                                        if base.contains(cpos) {
                                            assert(king_shape(
                                                gf0,
                                                gr0,
                                                3,
                                                home_rank(piece.color),
                                            ));
                                        } else {
                                            assert(file_ord(cpos.file) == 7);
                                        }
                                    }
                                }
                                lemma_push_nodup(before, cpos);
                            }
                        }
                    }
                    proof {
                        assert forall|to: Position|
                            #[trigger] moves@.contains(to) <==> with_ks.contains(to) || ({
                                let home = home_rank(piece.color);
                                &&& file_ord(to.file) == 3
                                &&& to.rank as int == home
                                &&& queenside_right(*self, piece.color)
                                &&& seq_at(sq, 2, home) is None
                                &&& seq_at(sq, 3, home) is None
                                &&& seq_at(sq, 4, home) is None
                            }) by {
                            let home = home_rank(piece.color);
                            if file_ord(to.file) == 3 && to.rank as int == home {
                                assert(to.file as int == 99);
                                assert(to.file == 'c');
                            }
                        }
                    }
                }
                proof {
                    assert forall|to: Position|
                        #[trigger] moves@.contains(to) <==> self.is_pseudo_legal(from, to) by {
                        let f1 = file_ord(to.file);
                        let r1 = to.rank as int;
                        if moves@.contains(to) && !base.contains(to) {
                            assert(on_board(f1, r1));
                            assert(to.is_valid());
                            assert(castle_clause(*self, piece.color, gf0, gr0, f1, r1));
                        }
                        if self.is_pseudo_legal(from, to) && !piece_step(
                            sq,
                            piece,
                            gf0,
                            gr0,
                            f1,
                            r1,
                        ) {
                            assert(castle_clause(*self, piece.color, gf0, gr0, f1, r1));
                            assert(gf0 == 5 && gr0 == home_rank(piece.color));
                            assert(from.file as int == 101);
                            assert(from.file == 'e');
                            assert(moves@.contains(to));
                        }
                    }
                }
                moves
            },
        }
    }
}

} // verus!
