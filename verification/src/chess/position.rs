//! Validated (file, rank) coordinates for squares of the chess board.

use vstd::prelude::*;
use crate::text::push_char;

verus! {

/// A square on the chess board, addressed by a file letter `'a'..='h'`
/// and a rank number `1..=8`.
#[derive(Clone, Copy, Debug, PartialEq, Eq, Structural)]
pub struct Position {
    pub file: char,
    pub rank: u8,
}

/// The ordinal of a file letter: `'a'` is 1, ..., `'h'` is 8.
pub open spec fn file_ord(c: char) -> int {
    c as int - 96
}

/// The digit character that renders a rank `1..=8`.
pub open spec fn rank_digit(r: u8) -> char {
    ((r + 48) as u8) as char
}

impl Position {
    /// A position is on the board when its file is `'a'..='h'` and its
    /// rank is `1..=8`.
    pub open spec fn is_valid(self) -> bool {
        1 <= file_ord(self.file) <= 8 && 1 <= self.rank <= 8
    }

    /// The canonical text form `<file><rank>`, e.g. `e4`.
    pub open spec fn spec_text(self) -> Seq<char> {
        seq![self.file, rank_digit(self.rank)]
    }

    /// Validating factory: the sole validation boundary for board
    /// coordinates. Returns `Some` exactly for files `'a'..='h'` and
    /// ranks `1..=8`, and `None` for every other pair.
    pub fn new(file: char, rank: u8) -> (r: Option<Position>)
        ensures
            r == (if (Position { file, rank }).is_valid() {
                Some(Position { file, rank })
            } else {
                None::<Position>
            }),
    {
        if 'a' <= file && file <= 'h' && 1 <= rank && rank <= 8 {
            Some(Position { file, rank })
        } else {
            None
        }
    }

    /// Renders the position as its text form `<file><rank>`.
    pub fn to_text(&self) -> (s: String)
        requires
            self.is_valid(),
        ensures
            s@ == self.spec_text(),
    {
        let mut s = String::new();
        push_char(&mut s, self.file);
        push_char(&mut s, (self.rank + 48) as char);
        assert(s@ =~= self.spec_text());
        s
    }
}

/// The file letter with ordinal `f`: 1 is `'a'`, ..., 8 is `'h'`.
pub fn char_of_file(f: u8) -> (c: char)
    requires
        1 <= f <= 8,
    ensures
        c as int == f + 96,
        file_ord(c) == f,
{
    ((f + 96) as u8) as char
}

/// The position with file ordinal `f` and rank `r`, at the spec level.
pub open spec fn position_at(f: int, r: int) -> Position {
    Position { file: (((f + 96) as u8) as char), rank: (r as u8) }
}

/// The position with file ordinal `f` and rank `r`.
pub fn position_of_coords(f: u8, r: u8) -> (p: Position)
    requires
        1 <= f <= 8,
        1 <= r <= 8,
    ensures
        p.is_valid(),
        file_ord(p.file) == f,
        p.rank == r,
        p == position_at(f as int, r as int),
{
    Position { file: char_of_file(f), rank: r }
}

/// The text form is faithful: two valid positions with the same text form
/// are the same position.
pub proof fn lemma_text_injective(p: Position, q: Position)
    requires
        p.is_valid(),
        q.is_valid(),
        p.spec_text() == q.spec_text(),
    ensures
        p == q,
{
    assert(p.spec_text()[0] == q.spec_text()[0]);
    assert(p.spec_text()[1] == q.spec_text()[1]);
    assert(rank_digit(p.rank) as int == p.rank + 48);
    assert(rank_digit(q.rank) as int == q.rank + 48);
}

} // verus!
