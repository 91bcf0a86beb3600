//! Text rendering of the board: an 8-by-8 grid, rank 8 first, one glyph
//! per occupied square and a dot for an empty one, with rank numbers on
//! the left and the file letters underneath. Purely presentational.

use vstd::prelude::*;
use crate::chess::piece::{Color, Piece, PieceType};
use crate::chess::position::rank_digit;
use crate::chess::board::{Board, seq_at};
use crate::text::push_char;

verus! {

/// The glyph that renders a square's contents.
pub open spec fn glyph(cell: Option<Piece>) -> char {
    match cell {
        None => '.',
        Some(p) => match (p.color, p.kind) {
            (Color::White, PieceType::Pawn) => '♙',
            (Color::White, PieceType::Rook) => '♖',
            (Color::White, PieceType::Knight) => '♘',
            (Color::White, PieceType::Bishop) => '♗',
            (Color::White, PieceType::Queen) => '♕',
            (Color::White, PieceType::King) => '♔',
            (Color::Black, PieceType::Pawn) => '♟',
            (Color::Black, PieceType::Rook) => '♜',
            (Color::Black, PieceType::Knight) => '♞',
            (Color::Black, PieceType::Bishop) => '♝',
            (Color::Black, PieceType::Queen) => '♛',
            (Color::Black, PieceType::King) => '♚',
        },
    }
}

/// The rendered cells of rank `r` for files 1 through `f`: each cell is
/// its glyph between two spaces.
pub open spec fn cells_upto(sq: Seq<Option<Piece>>, r: int, f: int) -> Seq<char>
    decreases f,
{
    if f <= 0 {
        Seq::empty()
    } else {
        cells_upto(sq, r, f - 1) + seq![' ', glyph(seq_at(sq, f, r)), ' ']
    }
}

/// One rendered rank line: its number, a space, the eight cells, and a
/// line break.
pub open spec fn row_seq(sq: Seq<Option<Piece>>, r: int) -> Seq<char> {
    seq![rank_digit(r as u8), ' '] + cells_upto(sq, r, 8) + seq!['\n']
}

/// The rendered rank lines from rank `r` down to rank 1.
pub open spec fn rows_down(sq: Seq<Option<Piece>>, r: int) -> Seq<char>
    decreases r,
{
    if r < 1 {
        Seq::empty()
    } else {
        row_seq(sq, r) + rows_down(sq, r - 1)
    }
}

/// The footer line naming the files.
pub open spec fn footer_seq() -> Seq<char> {
    seq![
        ' ', ' ', ' ', 'a', ' ', ' ', 'b', ' ', ' ', 'c', ' ', ' ', 'd', ' ', ' ', 'e', ' ', ' ',
        'f', ' ', ' ', 'g', ' ', ' ', 'h', '\n',
    ]
}

impl Board {
    /// The complete text rendering of the board.
    pub open spec fn spec_display(self) -> Seq<char> {
        rows_down(self.squares@, 8) + footer_seq()
    }

    /// The glyph of the square with file ordinal `f` and rank `r`.
    fn glyph_at(&self, f: u8, r: u8) -> (c: char)
        requires
            self.wf(),
            1 <= f <= 8,
            1 <= r <= 8,
        ensures
            c == glyph(seq_at(self.squares@, f as int, r as int)),
    {
        let i: usize = ((r - 1) as usize) * 8 + ((f - 1) as usize);
        match self.squares[i] {
            None => '.',
            Some(p) => match (p.color, p.kind) {
                (Color::White, PieceType::Pawn) => '♙',
                (Color::White, PieceType::Rook) => '♖',
                (Color::White, PieceType::Knight) => '♘',
                (Color::White, PieceType::Bishop) => '♗',
                (Color::White, PieceType::Queen) => '♕',
                (Color::White, PieceType::King) => '♔',
                (Color::Black, PieceType::Pawn) => '♟',
                (Color::Black, PieceType::Rook) => '♜',
                (Color::Black, PieceType::Knight) => '♞',
                (Color::Black, PieceType::Bishop) => '♝',
                (Color::Black, PieceType::Queen) => '♛',
                (Color::Black, PieceType::King) => '♚',
            },
        }
    }

    /// Renders the board as text: ranks 8 down to 1, one line each, then
    /// the file letters.
    pub fn write_display(&self) -> (s: String)
        requires
            self.wf(),
        ensures
            s@ == self.spec_display(),
    {
        let ghost sq = self.squares@;
        let mut s = String::new();
        let mut rr: u8 = 0;
        while rr < 8
            invariant
                self.wf(),
                sq == self.squares@,
                0 <= rr <= 8,
                s@ + rows_down(sq, 8 - rr as int) =~= rows_down(sq, 8),
            decreases 8 - rr,
        {
            let r: u8 = 8 - rr;
            let ghost row_start = s@;
            push_char(&mut s, (r + 48) as char);
            push_char(&mut s, ' ');
            let mut f: u8 = 0;
            while f < 8
                invariant
                    self.wf(),
                    sq == self.squares@,
                    1 <= r <= 8,
                    0 <= f <= 8,
                    s@ =~= row_start + seq![rank_digit(r), ' '] + cells_upto(
                        sq,
                        r as int,
                        f as int,
                    ),
                decreases 8 - f,
            {
                push_char(&mut s, ' ');
                push_char(&mut s, self.glyph_at(f + 1, r));
                push_char(&mut s, ' ');
                f = f + 1;
            }
            push_char(&mut s, '\n');
            proof {
                assert(s@ =~= row_start + row_seq(sq, r as int));
                assert(rows_down(sq, r as int) == row_seq(sq, r as int) + rows_down(
                    sq,
                    r as int - 1,
                ));
                assert(s@ + rows_down(sq, 8 - (rr + 1) as int) =~= rows_down(sq, 8));
            }
            rr = rr + 1;
        }
        proof {
            assert(s@ =~= rows_down(sq, 8));
        }
        let ghost body = s@;
        push_char(&mut s, ' ');
        push_char(&mut s, ' ');
        push_char(&mut s, ' ');
        push_char(&mut s, 'a');
        push_char(&mut s, ' ');
        push_char(&mut s, ' ');
        push_char(&mut s, 'b');
        push_char(&mut s, ' ');
        push_char(&mut s, ' ');
        push_char(&mut s, 'c');
        push_char(&mut s, ' ');
        push_char(&mut s, ' ');
        push_char(&mut s, 'd');
        push_char(&mut s, ' ');
        push_char(&mut s, ' ');
        push_char(&mut s, 'e');
        push_char(&mut s, ' ');
        push_char(&mut s, ' ');
        push_char(&mut s, 'f');
        push_char(&mut s, ' ');
        push_char(&mut s, ' ');
        push_char(&mut s, 'g');
        push_char(&mut s, ' ');
        push_char(&mut s, ' ');
        push_char(&mut s, 'h');
        push_char(&mut s, '\n');
        proof {
            assert(s@ =~= body + footer_seq());
        }
        s
    }
}

} // verus!
