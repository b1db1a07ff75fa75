//! A cursor into the source text: offset, line and column.

use vstd::prelude::*;

verus! {

/// The byte that ends a line.
pub const LINE_FEED: u8 = 10;

/// The longest source text whose lines and columns fit the position's fields.
pub const MAX_TEXT_LEN: usize = 0x7fff_ffff;

/// The line of offset `offset`: the number of line feeds before it. Behind
/// the text the line stays that of the text's end.
pub open spec fn line_at(text: Seq<u8>, offset: int) -> int
    decreases offset,
{
    if offset <= 0 {
        0
    } else if offset <= text.len() && text[offset - 1] == LINE_FEED {
        line_at(text, offset - 1) + 1
    } else {
        line_at(text, offset - 1)
    }
}

/// The column of offset `offset`: its distance from the start of its line.
/// Before the first byte it is -1; behind the text it goes on growing by
/// one with each offset.
pub open spec fn col_at(text: Seq<u8>, offset: int) -> int
    decreases offset + 1,
{
    if offset < 0 {
        -1
    } else if 0 < offset <= text.len() && text[offset - 1] == LINE_FEED {
        0
    } else {
        col_at(text, offset - 1) + 1
    }
}

/// Lines and columns never exceed the offset.
pub proof fn lemma_line_col_bounds(text: Seq<u8>, offset: int)
    requires
        0 <= offset,
    ensures
        0 <= line_at(text, offset) <= offset,
        0 <= col_at(text, offset) <= offset,
    decreases offset,
{
    if offset > 0 {
        lemma_line_col_bounds(text, offset - 1);
    } else {
        assert(col_at(text, -1) == -1);
    }
}

/// Line and column follow an advance, wherever the position stands: a
/// position that carries the line and column of its offset carries, once
/// advanced past the byte that stands there (or, outside the text, past
/// any byte but a line feed), those of the next offset. A line feed in the
/// text leaves room for one more line.
pub proof fn lemma_advance_keeps_place(pos: Position, name: &str, text: &[u8], current_char: u8)
    requires
        pos.locates(name, text),
        text@.len() <= MAX_TEXT_LEN,
        pos.idx < i64::MAX,
        pos.col < i32::MAX,
        0 <= pos.idx < text@.len() ==> current_char == text@[pos.idx as int],
        !(0 <= pos.idx < text@.len()) ==> current_char != LINE_FEED,
    ensures
        pos.after(current_char).locates(name, text),
        pos.after(current_char).idx == pos.idx + 1,
        current_char == LINE_FEED ==> pos.ln < i32::MAX,
{
    if pos.idx >= 0 {
        lemma_line_col_bounds(text@, pos.idx as int);
    } else {
        assert(col_at(text@, -1) == -1);
    }
}

/// A point in a source text.
#[derive(Clone, Copy, Debug, PartialEq, Eq)]
pub struct Position<'a> {
    /// Byte offset, counted from 0; -1 before the first byte.
    pub idx: i64,
    /// Line, counted from 0.
    pub ln: i32,
    /// Column, counted from 0.
    pub col: i32,
    /// The name under which the text is known.
    pub fn_name: &'a str,
    /// The text itself.
    pub ftxt: &'a [u8],
}

impl<'a> Position<'a> {
    /// The position one byte further, when the byte left behind is `current_char`.
    pub open spec fn after(self, current_char: u8) -> Position<'a> {
        Position {
            idx: (self.idx + 1) as i64,
            ln: if current_char == LINE_FEED {
                (self.ln + 1) as i32
            } else {
                self.ln
            },
            col: if current_char == LINE_FEED {
                0
            } else {
                (self.col + 1) as i32
            },
            fn_name: self.fn_name,
            ftxt: self.ftxt,
        }
    }

    /// The position belongs to `text`, in it, just before it or anywhere
    /// behind it, and its line and column are those of its offset there.
    pub open spec fn locates(self, name: &str, text: &[u8]) -> bool {
        &&& -1 <= self.idx
        &&& self.ln == line_at(text@, self.idx as int)
        &&& self.col == col_at(text@, self.idx as int)
        &&& self.fn_name@ == name@
        &&& self.ftxt@ == text@
    }

    /// Moves past `current_char`: the offset grows by one; the column grows
    /// by one, unless the byte is a line feed, which starts a new line.
    pub fn advance(&mut self, current_char: u8)
        requires
            old(self).idx < i64::MAX,
            current_char == LINE_FEED ==> old(self).ln < i32::MAX,
            current_char != LINE_FEED ==> old(self).col < i32::MAX,
        ensures
            *final(self) == old(self).after(current_char),
            final(self).idx == old(self).idx + 1,
    {
        self.idx += 1;
        if current_char == LINE_FEED {
            self.ln += 1;
            self.col = 0;
        } else {
            self.col += 1;
        }
    }

    /// An independent copy, to mark where a token starts or ends.
    pub fn snapshot(&self) -> (copy: Position<'a>)
        ensures
            copy == *self,
    {
        *self
    }
}

/// A position from its parts.
pub fn new_position<'a>(
    idx: i64,
    ln: i32,
    col: i32,
    fn_name: &'a str,
    ftxt: &'a [u8],
) -> (pos: Position<'a>)
    ensures
        pos.idx == idx,
        pos.ln == ln,
        pos.col == col,
        pos.fn_name == fn_name,
        pos.ftxt == ftxt,
{
    Position { idx, ln, col, fn_name, ftxt }
}

} // verus!
