//! The chess board: a mapping from squares to pieces, the side to move,
//! castling rights and the terminal-state marker, together with the
//! low-level move-commit primitive.

use vstd::prelude::*;
use crate::chess::piece::{Color, Piece, PieceType, opposite};
use crate::chess::position::{Position, file_ord};

verus! {

/// The current state of a chess game. Only `Ongoing` and `Checkmate` are
/// ever produced by this engine; `Stalemate` and `Draw` are declared but
/// unreachable.
#[derive(Clone, Copy, Debug, PartialEq, Eq, Structural)]
pub enum GameState {
    Ongoing,
    Checkmate(Color),
    Stalemate,
    Draw,
}

/// Why a move was rejected (or, for `InvalidPromotion`, why a committed
/// pawn move failed to promote).
#[derive(Clone, Copy, Debug, PartialEq, Eq, Structural)]
pub enum MoveError {
    NoPieceAtSource,
    WrongTurn,
    IllegalDestination,
    SelfCheck,
    InvalidPromotion,
    CastlingForbidden,
    RookMissing,
    PathBlocked,
    CastleWhileInCheck,
    CastleThroughCheck,
}

/// Why a castling attempt was rejected.
#[derive(Clone, Copy, Debug, PartialEq, Eq, Structural)]
pub enum CastleError {
    CastlingForbidden,
    RookMissing,
    PathBlocked,
    CastleWhileInCheck,
    CastleThroughCheck,
}

/// The chess board. The 64 squares are stored rank by rank: the square
/// with file ordinal `f` and rank `r` (both `1..=8`) lives at index
/// `(r-1)*8 + (f-1)`, and holds `None` when unoccupied.
pub struct Board {
    pub squares: Vec<Option<Piece>>,
    pub turn: Color,
    pub game_state: GameState,
    pub white_can_castle_kingside: bool,
    pub white_can_castle_queenside: bool,
    pub black_can_castle_kingside: bool,
    pub black_can_castle_queenside: bool,
}

/// True when integer coordinates (file, rank) name a square of the board.
pub open spec fn on_board(f: int, r: int) -> bool {
    1 <= f <= 8 && 1 <= r <= 8
}

/// The storage index of the square with file ordinal `f` and rank `r`.
pub open spec fn sq_idx(f: int, r: int) -> int {
    (r - 1) * 8 + (f - 1)
}

/// The contents of the square with file ordinal `f` and rank `r`.
pub open spec fn seq_at(sq: Seq<Option<Piece>>, f: int, r: int) -> Option<Piece> {
    sq[sq_idx(f, r)]
}

/// A square grid is well formed when it has exactly 64 squares.
pub open spec fn sq_wf(sq: Seq<Option<Piece>>) -> bool {
    sq.len() == 64
}

/// True when the square (f, r) holds a piece of color `c`.
pub open spec fn occupied_by(sq: Seq<Option<Piece>>, f: int, r: int, c: Color) -> bool {
    seq_at(sq, f, r) matches Some(p) && p.color == c
}

/// The grid after the piece on (f0, r0) has been moved, without any
/// legality check, to (f1, r1): the source square is emptied and the
/// destination receives the moved piece (capturing whatever stood there).
pub open spec fn moved(sq: Seq<Option<Piece>>, f0: int, r0: int, f1: int, r1: int) -> Seq<
    Option<Piece>,
> {
    sq.update(sq_idx(f0, r0), None).update(sq_idx(f1, r1), sq[sq_idx(f0, r0)])
}

/// The white back-rank piece kind that starts on file ordinal `f`.
pub open spec fn back_rank_kind(f: int) -> PieceType {
    if f == 1 || f == 8 {
        PieceType::Rook
    } else if f == 2 || f == 7 {
        PieceType::Knight
    } else if f == 3 || f == 6 {
        PieceType::Bishop
    } else if f == 4 {
        PieceType::Queen
    } else {
        PieceType::King
    }
}

/// The standard initial contents of the square with file ordinal `f` and
/// rank `r`.
pub open spec fn standard_piece(f: int, r: int) -> Option<Piece> {
    if r == 1 {
        Some(Piece { color: Color::White, kind: back_rank_kind(f) })
    } else if r == 2 {
        Some(Piece { color: Color::White, kind: PieceType::Pawn })
    } else if r == 7 {
        Some(Piece { color: Color::Black, kind: PieceType::Pawn })
    } else if r == 8 {
        Some(Piece { color: Color::Black, kind: back_rank_kind(f) })
    } else {
        None
    }
}

/// The standard initial grid.
pub open spec fn standard_squares() -> Seq<Option<Piece>> {
    Seq::new(64, |i: int| standard_piece(i % 8 + 1, i / 8 + 1))
}

/// The grid described by a custom piece list: each entry, in order, places
/// its piece on its square of an initially empty board (a later entry for
/// the same square wins).
pub open spec fn placed(pieces: Seq<(char, u8, Color, PieceType)>) -> Seq<Option<Piece>>
    decreases pieces.len(),
{
    if pieces.len() == 0 {
        Seq::new(64, |i: int| None::<Piece>)
    } else {
        let e = pieces.last();
        placed(pieces.drop_last()).update(
            sq_idx(file_ord(e.0), e.1 as int),
            Some(Piece { color: e.2, kind: e.3 }),
        )
    }
}

/// How a move from (f0, r0) by piece `pc` changes one castling-right
/// flag: moving a king forfeits both of its color's rights, and moving a
/// rook off a corner square forfeits the right tied to that corner.
pub open spec fn right_after_move(
    had: bool,
    pc: Piece,
    f0: int,
    r0: int,
    right_color: Color,
    corner_f: int,
    corner_r: int,
) -> bool {
    had && !(pc.kind == PieceType::King && pc.color == right_color) && !(pc.kind
        == PieceType::Rook && f0 == corner_f && r0 == corner_r)
}

impl Board {
    /// Well-formedness: the grid has exactly 64 squares.
    pub open spec fn wf(self) -> bool {
        sq_wf(self.squares@)
    }

    /// The contents of the square with file ordinal `f` and rank `r`.
    pub open spec fn spec_at(self, f: int, r: int) -> Option<Piece> {
        seq_at(self.squares@, f, r)
    }

    /// The contents of the square at `p`.
    pub open spec fn spec_piece_at(self, p: Position) -> Option<Piece> {
        self.spec_at(file_ord(p.file), p.rank as int)
    }

    /// A board in the standard initial configuration: standard piece
    /// placement, White to move, game ongoing, all four castling rights.
    pub open spec fn is_standard_setup(self) -> bool {
        &&& self.squares@ == standard_squares()
        &&& self.turn == Color::White
        &&& self.game_state == GameState::Ongoing
        &&& self.white_can_castle_kingside
        &&& self.white_can_castle_queenside
        &&& self.black_can_castle_kingside
        &&& self.black_can_castle_queenside
    }

    /// The castling-right flags of `other`, unchanged from `self`.
    pub open spec fn same_rights(self, other: Board) -> bool {
        &&& other.white_can_castle_kingside == self.white_can_castle_kingside
        &&& other.white_can_castle_queenside == self.white_can_castle_queenside
        &&& other.black_can_castle_kingside == self.black_can_castle_kingside
        &&& other.black_can_castle_queenside == self.black_can_castle_queenside
    }

    /// Castling rights are monotone: every right held by `other` was
    /// already held by `self`.
    pub open spec fn rights_monotone_to(self, other: Board) -> bool {
        &&& other.white_can_castle_kingside ==> self.white_can_castle_kingside
        &&& other.white_can_castle_queenside ==> self.white_can_castle_queenside
        &&& other.black_can_castle_kingside ==> self.black_can_castle_kingside
        &&& other.black_can_castle_queenside ==> self.black_can_castle_queenside
    }

    /// `other` is `self` with the piece on `from` force-moved to `to`:
    /// the grid changes by exactly that relocation, the rights decay as
    /// `right_after_move` dictates, and turn and game state are kept.
    pub open spec fn force_moved_to(self, other: Board, from: Position, to: Position) -> bool {
        let f0 = file_ord(from.file);
        let r0 = from.rank as int;
        let f1 = file_ord(to.file);
        let r1 = to.rank as int;
        let pc = self.spec_piece_at(from)->0;
        &&& other.squares@ == moved(self.squares@, f0, r0, f1, r1)
        &&& other.turn == self.turn
        &&& other.game_state == self.game_state
        &&& self.rights_after_move(other, pc, f0, r0)
    }

    /// How all four castling rights decay when piece `pc` moves away from
    /// (f0, r0).
    pub open spec fn rights_after_move(self, other: Board, pc: Piece, f0: int, r0: int) -> bool {
        &&& other.white_can_castle_kingside == right_after_move(
            self.white_can_castle_kingside,
            pc,
            f0,
            r0,
            Color::White,
            8,
            1,
        )
        &&& other.white_can_castle_queenside == right_after_move(
            self.white_can_castle_queenside,
            pc,
            f0,
            r0,
            Color::White,
            1,
            1,
        )
        &&& other.black_can_castle_kingside == right_after_move(
            self.black_can_castle_kingside,
            pc,
            f0,
            r0,
            Color::Black,
            8,
            8,
        )
        &&& other.black_can_castle_queenside == right_after_move(
            self.black_can_castle_queenside,
            pc,
            f0,
            r0,
            Color::Black,
            1,
            8,
        )
    }

    /// All observable content of the two boards is equal: squares, turn,
    /// game state and castling rights.
    pub open spec fn same_content(self, other: Board) -> bool {
        &&& other.squares@ == self.squares@
        &&& other.turn == self.turn
        &&& other.game_state == self.game_state
        &&& self.same_rights(other)
    }

    /// The standard initial contents of the square at storage index `i`.
    fn standard_cell(i: usize) -> (p: Option<Piece>)
        requires
            i < 64,
        ensures
            p == standard_piece(i as int % 8 + 1, i as int / 8 + 1),
    {
        let f = i % 8 + 1;
        let r = i / 8 + 1;
        if r == 1 || r == 8 {
            let color = if r == 1 {
                Color::White
            } else {
                Color::Black
            };
            let kind = if f == 1 || f == 8 {
                PieceType::Rook
            } else if f == 2 || f == 7 {
                PieceType::Knight
            } else if f == 3 || f == 6 {
                PieceType::Bishop
            } else if f == 4 {
                PieceType::Queen
            } else {
                PieceType::King
            };
            Some(Piece { color, kind })
        } else if r == 2 {
            Some(Piece { color: Color::White, kind: PieceType::Pawn })
        } else if r == 7 {
            Some(Piece { color: Color::Black, kind: PieceType::Pawn })
        } else {
            None
        }
    }

    /// Restores the standard initial setup from any prior state: standard
    /// piece placement, White to move, game ongoing, and all four castling
    /// rights granted anew.
    pub fn reset(&mut self)
        ensures
            final(self).wf(),
            final(self).is_standard_setup(),
    {
        let mut cells: Vec<Option<Piece>> = Vec::new();
        let mut i: usize = 0;
        while i < 64
            invariant
                0 <= i <= 64,
                cells@.len() == i,
                forall|j: int|
                    0 <= j < i ==> cells@[j] == standard_piece(j % 8 + 1, j / 8 + 1),
            decreases 64 - i,
        {
            cells.push(Self::standard_cell(i));
            i = i + 1;
        }
        proof {
            assert(cells@ =~= standard_squares());
        }
        self.squares = cells;
        self.turn = Color::White;
        self.game_state = GameState::Ongoing;
        self.white_can_castle_kingside = true;
        self.white_can_castle_queenside = true;
        self.black_can_castle_kingside = true;
        self.black_can_castle_queenside = true;
    }

    /// A new board with the standard initial chess setup.
    pub fn new() -> (b: Board)
        ensures
            b.wf(),
            b.is_standard_setup(),
    {
        let mut board = Board {
            squares: Vec::new(),
            turn: Color::White,
            game_state: GameState::Ongoing,
            white_can_castle_kingside: true,
            white_can_castle_queenside: true,
            black_can_castle_kingside: true,
            black_can_castle_queenside: true,
        };
        board.reset();
        board
    }

    /// Replaces the board contents with a custom set of pieces, a side to
    /// move and a game state, for tests, puzzles and custom positions.
    /// Every listed square must be valid; a later entry for the same
    /// square wins. Castling rights are kept as they were.
    pub fn initialize_custom(
        &mut self,
        pieces: Vec<(char, u8, Color, PieceType)>,
        turn: Color,
        game_state: GameState,
    )
        requires
            forall|i: int|
                0 <= i < pieces@.len() ==> (Position {
                    file: pieces@[i].0,
                    rank: pieces@[i].1,
                }).is_valid(),
        ensures
            final(self).wf(),
            final(self).squares@ == placed(pieces@),
            final(self).turn == turn,
            final(self).game_state == game_state,
            old(self).same_rights(*final(self)),
    {
        let mut cells: Vec<Option<Piece>> = Vec::new();
        let mut i: usize = 0;
        while i < 64
            invariant
                0 <= i <= 64,
                cells@.len() == i,
                forall|j: int| 0 <= j < i ==> cells@[j] is None,
            decreases 64 - i,
        {
            cells.push(None);
            i = i + 1;
        }
        proof {
            assert(cells@ =~= placed(Seq::<(char, u8, Color, PieceType)>::empty()));
            assert(pieces@.subrange(0, 0) =~= Seq::<(char, u8, Color, PieceType)>::empty());
        }
        self.squares = cells;
        let mut k: usize = 0;
        while k < pieces.len()
            invariant
                0 <= k <= pieces@.len(),
                forall|i: int|
                    0 <= i < pieces@.len() ==> (Position {
                        file: pieces@[i].0,
                        rank: pieces@[i].1,
                    }).is_valid(),
                self.squares@ == placed(pieces@.subrange(0, k as int)),
                self.squares@.len() == 64,
                old(self).same_rights(*self),
            decreases pieces@.len() - k,
        {
            let (file, rank, color, kind) = pieces[k];
            let pos = Position { file, rank };
            let idx = Self::index_of(pos);
            self.squares.set(idx, Some(Piece { color, kind }));
            proof {
                let sub1 = pieces@.subrange(0, k + 1 as int);
                assert(sub1.drop_last() =~= pieces@.subrange(0, k as int));
                assert(sub1.last() == pieces@[k as int]);
                assert(self.squares@ == placed(sub1));
            }
            k = k + 1;
        }
        proof {
            assert(pieces@.subrange(0, pieces@.len() as int) =~= pieces@);
        }
        self.turn = turn;
        self.game_state = game_state;
    }

    /// The storage index of a valid position.
    pub fn index_of(p: Position) -> (i: usize)
        requires
            p.is_valid(),
        ensures
            i == sq_idx(file_ord(p.file), p.rank as int),
            i < 64,
    {
        let f = (p.file as u32) - 96;
        let r = p.rank as u32;
        (((r - 1) * 8 + (f - 1)) as usize)
    }

    /// The piece occupying `p`, if any.
    pub fn piece_at(&self, p: Position) -> (r: Option<Piece>)
        requires
            self.wf(),
            p.is_valid(),
        ensures
            r == self.spec_piece_at(p),
    {
        let i = Self::index_of(p);
        self.squares[i]
    }

    /// Places `piece` on the square at `p`, replacing whatever stood
    /// there. Everything else is kept.
    pub fn set_piece(&mut self, p: Position, piece: Piece)
        requires
            old(self).wf(),
            p.is_valid(),
        ensures
            final(self).wf(),
            final(self).squares@ == old(self).squares@.update(
                sq_idx(file_ord(p.file), p.rank as int),
                Some(piece),
            ),
            final(self).turn == old(self).turn,
            final(self).game_state == old(self).game_state,
            old(self).same_rights(*final(self)),
    {
        let i = Self::index_of(p);
        self.squares.set(i, Some(piece));
    }

    /// The number of occupied squares.
    pub fn piece_count(&self) -> (n: usize)
        requires
            self.wf(),
        ensures
            n == count_occupied(self.squares@, 64),
    {
        let mut n: usize = 0;
        let mut i: usize = 0;
        while i < 64
            invariant
                self.wf(),
                0 <= i <= 64,
                n == count_occupied(self.squares@, i as int),
                n <= i,
            decreases 64 - i,
        {
            if self.squares[i].is_some() {
                n = n + 1;
            }
            i = i + 1;
        }
        n
    }

    /// An independent copy of the board, equal in all content.
    pub fn clone_board(&self) -> (r: Board)
        requires
            self.wf(),
        ensures
            r.wf(),
            self.same_content(r),
    {
        let mut cells: Vec<Option<Piece>> = Vec::new();
        let mut i: usize = 0;
        while i < 64
            invariant
                self.wf(),
                0 <= i <= 64,
                cells@ =~= self.squares@.subrange(0, i as int),
            decreases 64 - i,
        {
            cells.push(self.squares[i]);
            i = i + 1;
        }
        proof {
            assert(cells@ =~= self.squares@);
        }
        Board {
            squares: cells,
            turn: self.turn,
            game_state: self.game_state,
            white_can_castle_kingside: self.white_can_castle_kingside,
            white_can_castle_queenside: self.white_can_castle_queenside,
            black_can_castle_kingside: self.black_can_castle_kingside,
            black_can_castle_queenside: self.black_can_castle_queenside,
        }
    }

    /// Returns the color opposing the one passed in.
    pub fn opponent_color(color: Color) -> (r: Color)
        ensures
            r == opposite(color),
    {
        match color {
            Color::White => Color::Black,
            Color::Black => Color::White,
        }
    }

    /// Moves the piece at `from` to `to` without any legality check, used
    /// for committing validated moves and for simulating trial moves.
    /// Fails (leaving the board untouched) only when `from` is empty.
    /// Clears a castling right whenever the moved piece is a king of that
    /// right's color, or a rook leaving that right's corner square.
    pub fn force_move(&mut self, from: Position, to: Position) -> (result: Result<(), MoveError>)
        requires
            old(self).wf(),
            from.is_valid(),
            to.is_valid(),
        ensures
            final(self).wf(),
            old(self).spec_piece_at(from) is None ==> result == Err::<(), MoveError>(
                MoveError::NoPieceAtSource,
            ) && old(self).same_content(*final(self)),
            old(self).spec_piece_at(from) is Some ==> result == Ok::<(), MoveError>(()) && old(
                self,
            ).force_moved_to(*final(self), from, to),
            old(self).rights_monotone_to(*final(self)),
    {
        let i_from = Self::index_of(from);
        let i_to = Self::index_of(to);
        let pc = match self.squares[i_from] {
            Some(p) => p,
            None => {
                return Err(MoveError::NoPieceAtSource);
            },
        };
        self.squares.set(i_from, None);
        self.squares.set(i_to, Some(pc));
        if pc.kind == PieceType::King {
            match pc.color {
                Color::White => {
                    self.white_can_castle_kingside = false;
                    self.white_can_castle_queenside = false;
                },
                Color::Black => {
                    self.black_can_castle_kingside = false;
                    self.black_can_castle_queenside = false;
                },
            }
        }
        if pc.kind == PieceType::Rook {
            if from.file == 'a' && from.rank == 1 {
                self.white_can_castle_queenside = false;
            }
            if from.file == 'h' && from.rank == 1 {
                self.white_can_castle_kingside = false;
            }
            if from.file == 'a' && from.rank == 8 {
                self.black_can_castle_queenside = false;
            }
            if from.file == 'h' && from.rank == 8 {
                self.black_can_castle_kingside = false;
            }
        }
        Ok(())
    }
}

/// A reset board equals a freshly constructed one in all content:
/// `reset` and `new` both establish the standard setup, whatever the
/// prior history, and the standard setup determines the squares, the
/// turn, the game state and all four castling rights.
pub proof fn lemma_standard_setup_same_content(a: Board, b: Board)
    requires
        a.is_standard_setup(),
        b.is_standard_setup(),
    ensures
        a.same_content(b),
{
}

/// The number of occupied squares among the first `upto` entries.
pub open spec fn count_occupied(sq: Seq<Option<Piece>>, upto: int) -> int
    decreases upto,
{
    if upto <= 0 {
        0
    } else {
        count_occupied(sq, upto - 1) + if sq[upto - 1] is Some {
            1 as int
        } else {
            0 as int
        }
    }
}

} // verus!
