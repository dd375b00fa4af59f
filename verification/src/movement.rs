//! Cursor movement: one step of Up, Down, Left or Right applied to a single
//! cursor against the line storage. Movement never changes the storage and
//! always leaves the cursor atomic.

use vstd::prelude::*;

use crate::cursor::{caret, cursor_valid, Cursor};
use crate::text::{byte_offset, byte_offset_of, line_wf, lines_wf, views, LINE_CAP};
use crate::text::{lemma_byte_offset_mono, utf8_len};

verus! {

/// A movement direction.
pub enum Move {
    Up,
    Down,
    Left,
    Right,
}

/// A caret on line `line` at column `chr`, clamped to the line's last content
/// column when the line is shorter.
pub open spec fn clamped_to_line(l: Seq<char>, line: int, chr: int) -> Cursor {
    let content = l.len() - 1;
    let c2 = if chr <= content {
        chr
    } else {
        content
    };
    caret(line, byte_offset_of(l, c2) as int, c2)
}

/// Where one movement step takes a cursor.
///
/// Up at line 0 collapses to the very start of line 0; otherwise Up and Down
/// keep the column, clamped to the target line's content. Down on the last
/// line moves to the end of its content. Left steps one codepoint back,
/// crossing onto the previous line's content end at column 0; on a selection
/// it collapses to `start` unchanged. Right steps one codepoint forward,
/// crossing the terminator onto the next line's column 0; on a selection it
/// collapses to `end`; at the very end of the buffer it does not move.
pub open spec fn moved_cursor(lines: Seq<Seq<char>>, c: Cursor, m: Move) -> Cursor {
    match m {
        Move::Up => {
            if c.start_line == 0 {
                caret(0, 0, 0)
            } else {
                clamped_to_line(
                    lines[c.start_line - 1],
                    c.start_line - 1,
                    c.start_character as int,
                )
            }
        },
        Move::Down => {
            if c.start_line == lines.len() - 1 {
                let l = lines[c.start_line as int];
                caret(c.start_line as int, byte_offset_of(l, l.len() - 1) as int, l.len() - 1)
            } else {
                clamped_to_line(
                    lines[c.start_line + 1],
                    c.start_line + 1,
                    c.start_character as int,
                )
            }
        },
        Move::Left => {
            if !c.spec_is_atomic() {
                c.atomized()
            } else if c.start_character != 0 {
                let l = lines[c.start_line as int];
                caret(
                    c.start_line as int,
                    c.start_byte - utf8_len(l[c.start_character - 1]),
                    c.start_character - 1,
                )
            } else if c.start_line != 0 {
                let p = lines[c.start_line - 1];
                caret(c.start_line - 1, byte_offset_of(p, p.len() - 1) as int, p.len() - 1)
            } else {
                caret(0, 0, 0)
            }
        },
        Move::Right => {
            if !c.spec_is_atomic() {
                caret(c.end_line as int, c.end_byte as int, c.end_character as int)
            } else {
                let l = lines[c.start_line as int];
                if c.start_line == lines.len() - 1 && c.start_character == l.len() - 1 {
                    c
                } else if c.start_character == l.len() - 1 {
                    caret(c.start_line + 1, 0, 0)
                } else {
                    caret(
                        c.start_line as int,
                        c.start_byte + utf8_len(l[c.start_character as int]),
                        c.start_character + 1,
                    )
                }
            }
        },
    }
}

/// Movement boundaries. Up at line 0 collapses to column 0 of line 0. Down on
/// the last line lands at the end of that line's content, never past it. Left
/// at the very start of the buffer does not move. Right at the very end of
/// the buffer does not move.
pub proof fn lemma_movement_boundaries(lines: Seq<Seq<char>>, c: Cursor)
    requires
        lines_wf(lines),
        cursor_valid(lines, c),
    ensures
        c.start_line == 0 ==> moved_cursor(lines, c, Move::Up) == caret(0, 0, 0),
        c.start_line == lines.len() - 1 ==> moved_cursor(lines, c, Move::Down) == caret(
            c.start_line as int,
            byte_offset_of(lines[c.start_line as int], lines[c.start_line as int].len() - 1) as int,
            lines[c.start_line as int].len() - 1,
        ),
        c.spec_is_atomic() && c.start_line == 0 && c.start_byte == 0 ==> moved_cursor(
            lines,
            c,
            Move::Left,
        ) == c,
        c.spec_is_atomic() && c.start_line == lines.len() - 1 && c.start_character == lines[
            c.start_line as int].len() - 1 ==> moved_cursor(lines, c, Move::Right) == c,
{
    let l = lines[c.start_line as int];
    assert(line_wf(l));
    if c.spec_is_atomic() {
        crate::cursor::lemma_byte_order_is_column_order(
            l,
            c.start_character as int,
            c.end_character as int,
        );
        crate::cursor::lemma_byte_order_is_column_order(
            l,
            c.end_character as int,
            c.start_character as int,
        );
        if c.start_byte == 0 {
            lemma_byte_offset_mono(l, 0, c.start_character as int);
        }
    }
}

/// A caret derived from a line index in range and a column within the line's
/// content is a valid cursor, and its byte offset is within the line bound.
pub proof fn lemma_caret_valid(lines: Seq<Seq<char>>, line: int, chr: int)
    requires
        lines_wf(lines),
        lines.len() <= usize::MAX,
        0 <= line < lines.len(),
        0 <= chr <= lines[line].len() - 1,
    ensures
        cursor_valid(lines, caret(line, byte_offset_of(lines[line], chr) as int, chr)),
        byte_offset_of(lines[line], chr) <= LINE_CAP,
        lines[line].len() <= LINE_CAP,
{
    assert(line_wf(lines[line]));
    lemma_byte_offset_mono(lines[line], chr, lines[line].len() as int);
    lemma_byte_offset_mono(lines[line], 0, lines[line].len() as int);
}

/// Apply one movement step to `cursor`. The result is where [`moved_cursor`]
/// says it goes, and is again a valid cursor.
pub fn move_one(lines: &Vec<Vec<char>>, cursor: &mut Cursor, movement: &Move)
    requires
        lines_wf(views(lines@)),
        cursor_valid(views(lines@), *old(cursor)),
    ensures
        *final(cursor) == moved_cursor(views(lines@), *old(cursor), *movement),
        cursor_valid(views(lines@), *final(cursor)),
{
    let ghost lv = views(lines@);
    proof {
        assert(lines.len() == lines@.len());
        assert(lv.len() <= usize::MAX);
    }
    match movement {
        Move::Up => {
            if cursor.start_line == 0 {
                cursor.start_byte = 0;
                cursor.start_character = 0;
                proof {
                    assert(line_wf(lv[0]));
                    lemma_caret_valid(lv, 0, 0);
                }
            } else {
                cursor.start_line = cursor.start_line - 1;
                clamp_column(lines, cursor);
                proof {
                    assert(line_wf(lv[cursor.start_line as int]));
                    lemma_caret_valid(lv, cursor.start_line as int, cursor.start_character as int);
                }
            }
            cursor.atomize();
        },
        Move::Down => {
            if cursor.start_line == lines.len() - 1 {
                let l = &lines[cursor.start_line];
                assert(l@ == lv[cursor.start_line as int]);
                cursor.start_character = l.len() - 1;
                proof {
                    lemma_caret_valid(lv, cursor.start_line as int, cursor.start_character as int);
                }
                cursor.start_byte = byte_offset(l, cursor.start_character);
            } else {
                cursor.start_line = cursor.start_line + 1;
                clamp_column(lines, cursor);
                proof {
                    assert(line_wf(lv[cursor.start_line as int]));
                    lemma_caret_valid(lv, cursor.start_line as int, cursor.start_character as int);
                }
            }
            cursor.atomize();
        },
        Move::Left => {
            if cursor.is_atomic() {
                if cursor.start_character != 0 {
                    let l = &lines[cursor.start_line];
                    assert(l@ == lv[cursor.start_line as int]);
                    let w = crate::text::char_utf8_len(l[cursor.start_character - 1]);
                    cursor.start_byte = cursor.start_byte - w as usize;
                    cursor.start_character = cursor.start_character - 1;
                    proof {
                        lemma_caret_valid(
                            lv,
                            cursor.start_line as int,
                            cursor.start_character as int,
                        );
                    }
                } else if cursor.start_line != 0 {
                    cursor.start_line = cursor.start_line - 1;
                    let l = &lines[cursor.start_line];
                    assert(l@ == lv[cursor.start_line as int]);
                    cursor.start_character = l.len() - 1;
                    proof {
                        lemma_caret_valid(
                            lv,
                            cursor.start_line as int,
                            cursor.start_character as int,
                        );
                    }
                    cursor.start_byte = byte_offset(l, cursor.start_character);
                }
            }
            cursor.atomize();
        },
        Move::Right => {
            if !cursor.is_atomic() {
                cursor.start_line = cursor.end_line;
                cursor.start_byte = cursor.end_byte;
                cursor.start_character = cursor.end_character;
                cursor.atomize();
            } else {
                let l = &lines[cursor.start_line];
                assert(l@ == lv[cursor.start_line as int]);
                if cursor.start_line == lines.len() - 1 && cursor.start_character == l.len() - 1 {
                    // at the very end of the buffer: no movement
                } else if cursor.start_character == l.len() - 1 {
                    cursor.start_line = cursor.start_line + 1;
                    cursor.start_byte = 0;
                    cursor.start_character = 0;
                    proof {
                        assert(line_wf(lv[cursor.start_line as int]));
                        lemma_caret_valid(lv, cursor.start_line as int, 0);
                    }
                    cursor.atomize();
                } else {
                    proof {
                        lemma_byte_offset_mono(l@, cursor.start_character + 1, l@.len() as int);
                    }
                    let w = crate::text::char_utf8_len(l[cursor.start_character]);
                    cursor.start_byte = cursor.start_byte + w as usize;
                    cursor.start_character = cursor.start_character + 1;
                    proof {
                        lemma_caret_valid(
                            lv,
                            cursor.start_line as int,
                            cursor.start_character as int,
                        );
                    }
                    cursor.atomize();
                }
            }
        },
    }
}

/// Re-derive `cursor`'s column and byte offset on its (new) line, clamping the
/// column to the line's content length.
fn clamp_column(lines: &Vec<Vec<char>>, cursor: &mut Cursor)
    requires
        lines_wf(views(lines@)),
        old(cursor).start_line < lines@.len(),
    ensures
        *final(cursor) == (Cursor {
            start_byte: clamped_to_line(
                views(lines@)[old(cursor).start_line as int],
                old(cursor).start_line as int,
                old(cursor).start_character as int,
            ).start_byte,
            start_character: clamped_to_line(
                views(lines@)[old(cursor).start_line as int],
                old(cursor).start_line as int,
                old(cursor).start_character as int,
            ).start_character,
            ..*old(cursor)
        }),
{
    let l = &lines[cursor.start_line];
    assert(l@ == views(lines@)[cursor.start_line as int]);
    assert(line_wf(l@));
    if cursor.start_character > l.len() - 1 {
        cursor.start_character = l.len() - 1;
    }
    proof {
        lemma_byte_offset_mono(l@, cursor.start_character as int, l@.len() as int);
    }
    cursor.start_byte = byte_offset(l, cursor.start_character);
}

} // verus!
