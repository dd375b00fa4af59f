//! Cursors: a pair of positions into the line storage, each position tracked
//! as line index, byte offset and codepoint column at once.

use vstd::prelude::*;

use crate::text::{byte_offset, byte_offset_of, lines_wf, views};
use crate::text::lemma_byte_offset_mono;

verus! {

/// A position-or-range descriptor into the buffer. `start` is the live,
/// movable endpoint; `end` is the fixed extent. The buffer keeps `start` at
/// or before `end` in document order.
#[derive(Clone, Copy, PartialEq, Eq, Structural, Debug)]
pub struct Cursor {
    pub start_line: usize,
    pub start_byte: usize,
    pub start_character: usize,
    pub end_line: usize,
    pub end_byte: usize,
    pub end_character: usize,
}

/// An atomic cursor (a caret) at the given position.
pub open spec fn caret(line: int, byte: int, chr: int) -> Cursor {
    Cursor {
        start_line: line as usize,
        start_byte: byte as usize,
        start_character: chr as usize,
        end_line: line as usize,
        end_byte: byte as usize,
        end_character: chr as usize,
    }
}

/// A valid position into `lines`: the line index in range, the column at most
/// the line's content length (the terminator is not a column), and the byte
/// offset the encoded size of the columns before it.
pub open spec fn pos_valid(lines: Seq<Seq<char>>, line: int, byte: int, chr: int) -> bool {
    &&& 0 <= line < lines.len()
    &&& 0 <= chr <= lines[line].len() - 1
    &&& byte == byte_offset_of(lines[line], chr)
}

/// Document order on positions: earlier line, or same line and earlier byte.
pub open spec fn doc_le(l1: int, b1: int, l2: int, b2: int) -> bool {
    l1 < l2 || (l1 == l2 && b1 <= b2)
}

/// A valid cursor: both endpoints are valid positions and `start` does not
/// come after `end`.
pub open spec fn cursor_valid(lines: Seq<Seq<char>>, c: Cursor) -> bool {
    &&& pos_valid(lines, c.start_line as int, c.start_byte as int, c.start_character as int)
    &&& pos_valid(lines, c.end_line as int, c.end_byte as int, c.end_character as int)
    &&& doc_le(c.start_line as int, c.start_byte as int, c.end_line as int, c.end_byte as int)
}

/// All cursors of a collection are valid.
pub open spec fn cursors_valid(lines: Seq<Seq<char>>, cursors: Seq<Cursor>) -> bool {
    forall|i: int| 0 <= i < cursors.len() ==> cursor_valid(lines, #[trigger] cursors[i])
}

/// A byte offset on an encoding boundary of `l`: the encoded size of some
/// prefix of its codepoints.
pub open spec fn on_boundary(l: Seq<char>, byte: int) -> bool {
    exists|k: int| 0 <= k <= l.len() && byte == byte_offset_of(l, k)
}

/// Every valid cursor addresses both its lines on an encoding boundary: the
/// byte offsets of a cursor never point into the middle of a codepoint.
pub proof fn lemma_cursor_on_boundary(lines: Seq<Seq<char>>, c: Cursor)
    requires
        cursor_valid(lines, c),
    ensures
        on_boundary(lines[c.start_line as int], c.start_byte as int),
        on_boundary(lines[c.end_line as int], c.end_byte as int),
{
    assert(0 <= c.start_character as int <= lines[c.start_line as int].len());
    assert(0 <= c.end_character as int <= lines[c.end_line as int].len());
}

/// On one line, the byte order of two valid positions matches their column
/// order.
pub proof fn lemma_byte_order_is_column_order(l: Seq<char>, c1: int, c2: int)
    requires
        0 <= c1 <= l.len(),
        0 <= c2 <= l.len(),
        byte_offset_of(l, c1) <= byte_offset_of(l, c2),
    ensures
        c1 <= c2,
{
    if c1 > c2 {
        lemma_byte_offset_mono(l, c2, c1);
    }
}

impl Cursor {
    /// Whether this cursor is a caret rather than a selection.
    pub open spec fn spec_is_atomic(&self) -> bool {
        self.start_line == self.end_line && self.start_byte == self.end_byte
    }

    /// Whether this cursor is a caret rather than a selection.
    #[verifier::when_used_as_spec(spec_is_atomic)]
    pub fn is_atomic(&self) -> (r: bool)
        ensures
            r == self.spec_is_atomic(),
    {
        self.start_line == self.end_line && self.start_byte == self.end_byte
    }

    /// `self` collapsed to a caret at its `start` position.
    pub open spec fn atomized(self) -> Cursor {
        caret(self.start_line as int, self.start_byte as int, self.start_character as int)
    }

    /// Collapse the selection to a caret at its `start` position.
    pub fn atomize(&mut self)
        ensures
            *final(self) == old(self).atomized(),
    {
        self.end_line = self.start_line;
        self.end_byte = self.start_byte;
        self.end_character = self.start_character;
    }
}

impl Default for Cursor {
    /// A caret at the very start of the buffer.
    fn default() -> (r: Cursor)
        ensures
            r == caret(0, 0, 0),
    {
        Cursor {
            start_line: 0,
            start_byte: 0,
            start_character: 0,
            end_line: 0,
            end_byte: 0,
            end_character: 0,
        }
    }
}

/// Whether `c` is a valid cursor for `lines`, checked by recomputing each
/// endpoint's byte offset from its column.
pub fn cursor_check(lines: &Vec<Vec<char>>, c: &Cursor) -> (r: bool)
    requires
        lines_wf(views(lines@)),
    ensures
        r == cursor_valid(views(lines@), *c),
{
    if c.start_line >= lines.len() || c.end_line >= lines.len() {
        return false;
    }
    let sl = &lines[c.start_line];
    let el = &lines[c.end_line];
    assert(sl@ == views(lines@)[c.start_line as int]);
    assert(el@ == views(lines@)[c.end_line as int]);
    if c.start_character >= sl.len() || c.end_character >= el.len() {
        return false;
    }
    if c.start_byte != byte_offset(sl, c.start_character) {
        return false;
    }
    if c.end_byte != byte_offset(el, c.end_character) {
        return false;
    }
    c.start_line < c.end_line || (c.start_line == c.end_line && c.start_byte <= c.end_byte)
}

} // verus!
