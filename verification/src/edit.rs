//! Single-character edits applied at one cursor: insertion, line split,
//! backspace, forward delete, and selection replacement, together with the
//! clamping that keeps every other cursor valid after the storage shifts.

use vstd::prelude::*;

use crate::cursor::{caret, cursor_valid, doc_le, lemma_byte_order_is_column_order, Cursor};
use crate::text::{
    byte_offset, byte_offset_of, char_utf8_len, line_byte_len, line_wf, lines_wf, seq_bytes,
    subvec, utf8_len, views, LINE_CAP,
};
use crate::text::{lemma_byte_offset_agree, lemma_byte_offset_mono, lemma_seq_bytes_concat};

verus! {

/// The backspace control character.
pub const BACKSPACE: char = '\u{0008}';

/// The forward-delete control character.
pub const DEL: char = '\u{007F}';

/// Whether `c` is a control character (the Unicode `Cc` category, as
/// `char::is_control` reports it).
pub open spec fn is_control_char(c: char) -> bool {
    (c as u32) < 0x20 || (0x7f <= (c as u32) && (c as u32) <= 0x9f)
}

/// Control characters other than tab, newline, backspace and delete are
/// rejected before any mutation.
pub open spec fn rejected_char(c: char) -> bool {
    is_control_char(c) && c != '\t' && c != '\n' && c != BACKSPACE && c != DEL
}

/// One character applied at an atomic caret: the new line storage, the new
/// cursor, and whether the storage changed.
///
/// A newline splits the line at the caret. Backspace removes the codepoint
/// before the caret, or merges with the previous line at column 0; at the
/// very start of the buffer it does nothing. Delete removes the codepoint
/// after the caret, or merges with the next line at the end of content; at
/// the very end of the buffer it does nothing. Any other character is
/// inserted at the caret. An edit whose resulting line would exceed
/// [`LINE_CAP`] encoded bytes is not performed.
pub open spec fn char_applied(lines: Seq<Seq<char>>, c: Cursor, ch: char) -> (
    Seq<Seq<char>>,
    Cursor,
    bool,
) {
    let li = c.start_line as int;
    let col = c.start_character as int;
    let b = c.start_byte as int;
    let l = lines[li];
    if ch == '\n' {
        let first = l.subrange(0, col).push('\n');
        let second = l.subrange(col, l.len() as int);
        (lines.update(li, first).insert(li + 1, second), caret(li + 1, 0, 0), true)
    } else if ch == BACKSPACE {
        if col > 0 {
            let nl = l.subrange(0, col - 1) + l.subrange(col, l.len() as int);
            (lines.update(li, nl), caret(li, b - utf8_len(l[col - 1]), col - 1), true)
        } else if li > 0 {
            let prev = lines[li - 1];
            if seq_bytes(prev) - 1 + seq_bytes(l) <= LINE_CAP {
                let merged = prev.subrange(0, prev.len() - 1) + l;
                (
                    lines.update(li - 1, merged).remove(li),
                    caret(li - 1, seq_bytes(prev) - 1, prev.len() - 1),
                    true,
                )
            } else {
                (lines, c, false)
            }
        } else {
            (lines, c, false)
        }
    } else if ch == DEL {
        if col < l.len() - 1 {
            let nl = l.subrange(0, col) + l.subrange(col + 1, l.len() as int);
            (lines.update(li, nl), c, true)
        } else if li < lines.len() - 1 {
            let next = lines[li + 1];
            if b + seq_bytes(next) <= LINE_CAP {
                let merged = l.subrange(0, col) + next;
                (lines.update(li, merged).remove(li + 1), c, true)
            } else {
                (lines, c, false)
            }
        } else {
            (lines, c, false)
        }
    } else {
        if seq_bytes(l) + utf8_len(ch) <= LINE_CAP {
            let nl = l.subrange(0, col).push(ch) + l.subrange(col, l.len() as int);
            (lines.update(li, nl), caret(li, b + utf8_len(ch), col + 1), true)
        } else {
            (lines, c, false)
        }
    }
}

/// Whether deleting the selection leaves a line within [`LINE_CAP`]. A
/// same-line selection always fits; a multi-line one joins the start line's
/// prefix with the end line's suffix.
pub open spec fn sel_fits(lines: Seq<Seq<char>>, c: Cursor) -> bool {
    c.start_line == c.end_line || c.start_byte + (seq_bytes(lines[c.end_line as int])
        - c.end_byte) <= LINE_CAP
}

/// The selected range removed from the storage: the lines strictly between
/// the endpoints go away, the start line's prefix and the end line's suffix
/// join into one line, and the cursor collapses to a caret at `start`.
pub open spec fn sel_deleted(lines: Seq<Seq<char>>, c: Cursor) -> (Seq<Seq<char>>, Cursor) {
    let sl = c.start_line as int;
    let el = c.end_line as int;
    let sc = c.start_character as int;
    let ec = c.end_character as int;
    if sl == el {
        let l = lines[sl];
        let nl = l.subrange(0, sc) + l.subrange(ec, l.len() as int);
        (lines.update(sl, nl), c.atomized())
    } else {
        let joined = lines[sl].subrange(0, sc) + lines[el].subrange(ec, lines[el].len() as int);
        (
            lines.subrange(0, sl).push(joined) + lines.subrange(el + 1, lines.len() as int),
            c.atomized(),
        )
    }
}

/// One character applied at one cursor. A selection is first deleted (so a
/// typed character replaces it, a newline splits at the collapsed caret, and
/// backspace or delete remove just the selection); an edit that does not fit
/// within [`LINE_CAP`] leaves everything unchanged.
pub open spec fn edited(lines: Seq<Seq<char>>, c: Cursor, ch: char) -> (
    Seq<Seq<char>>,
    Cursor,
    bool,
) {
    if c.spec_is_atomic() {
        char_applied(lines, c, ch)
    } else if !sel_fits(lines, c) {
        (lines, c, false)
    } else {
        let r = sel_deleted(lines, c);
        if ch == BACKSPACE || ch == DEL {
            (r.0, r.1, true)
        } else {
            let r2 = char_applied(r.0, r.1, ch);
            (r2.0, r2.1, true)
        }
    }
}

/// A position clamped to the storage: the line index pulled into range, the
/// column pulled to the line's content, and the byte offset recomputed.
pub open spec fn clamped_pos(lines: Seq<Seq<char>>, line: int, chr: int) -> (int, int, int) {
    let l2 = if line < lines.len() {
        line
    } else {
        lines.len() - 1
    };
    let content = lines[l2].len() - 1;
    let c2 = if chr <= content {
        chr
    } else {
        content
    };
    (l2, byte_offset_of(lines[l2], c2) as int, c2)
}

/// A cursor clamped to the storage after the storage changed under it: both
/// endpoints clamped; if that breaks document order, the cursor collapses to
/// its `start`.
pub open spec fn clamped(lines: Seq<Seq<char>>, c: Cursor) -> Cursor {
    let s = clamped_pos(lines, c.start_line as int, c.start_character as int);
    let e = clamped_pos(lines, c.end_line as int, c.end_character as int);
    if doc_le(s.0, s.1, e.0, e.1) {
        Cursor {
            start_line: s.0 as usize,
            start_byte: s.1 as usize,
            start_character: s.2 as usize,
            end_line: e.0 as usize,
            end_byte: e.1 as usize,
            end_character: e.2 as usize,
        }
    } else {
        caret(s.0, s.1, s.2)
    }
}

/// A clamped cursor is valid for the storage it was clamped to.
pub proof fn lemma_clamped_valid(lines: Seq<Seq<char>>, c: Cursor)
    requires
        lines_wf(lines),
        1 <= lines.len() <= usize::MAX,
    ensures
        cursor_valid(lines, clamped(lines, c)),
{
    let s = clamped_pos(lines, c.start_line as int, c.start_character as int);
    let e = clamped_pos(lines, c.end_line as int, c.end_character as int);
    assert(line_wf(lines[s.0]));
    assert(line_wf(lines[e.0]));
    lemma_byte_offset_mono(lines[s.0], s.2, lines[s.0].len() as int);
    lemma_byte_offset_mono(lines[e.0], e.2, lines[e.0].len() as int);
    lemma_byte_offset_mono(lines[s.0], 0, lines[s.0].len() as int);
    lemma_byte_offset_mono(lines[e.0], 0, lines[e.0].len() as int);
}

/// The encoded size of a prefix of `l` is the byte offset of its end, and the
/// suffix from there holds the remaining bytes.
pub proof fn lemma_split_bytes(l: Seq<char>, k: int)
    requires
        0 <= k <= l.len(),
    ensures
        seq_bytes(l.subrange(0, k)) == byte_offset_of(l, k),
        seq_bytes(l.subrange(k, l.len() as int)) == seq_bytes(l) - byte_offset_of(l, k),
{
    let a = l.subrange(0, k);
    let b = l.subrange(k, l.len() as int);
    lemma_byte_offset_agree(a, l, k);
    assert(l =~= a + b);
    lemma_seq_bytes_concat(a, b);
}

/// A single codepoint's encoded size.
pub proof fn lemma_seq_bytes_singleton(c: char)
    ensures
        seq_bytes(seq![c]) == utf8_len(c),
{
    assert(byte_offset_of(seq![c], 0) == 0);
    assert(seq![c][0] == c);
}

/// A well-formed line's terminator is its last byte.
pub proof fn lemma_line_last_byte(l: Seq<char>)
    requires
        line_wf(l),
    ensures
        byte_offset_of(l, l.len() - 1) + 1 == seq_bytes(l),
{
    assert(utf8_len(l[l.len() - 1]) == 1);
}

/// Joining a well-formed line's prefix with a well-formed line's suffix gives
/// a well-formed line whose size is within the guard, and keeps the byte
/// offsets of the prefix columns.
pub proof fn lemma_join_wf(a: Seq<char>, b: Seq<char>, sc: int, ec: int)
    requires
        line_wf(a),
        line_wf(b),
        0 <= sc <= a.len() - 1,
        0 <= ec <= b.len() - 1,
        byte_offset_of(a, sc) + (seq_bytes(b) - byte_offset_of(b, ec)) <= LINE_CAP,
    ensures
        line_wf(a.subrange(0, sc) + b.subrange(ec, b.len() as int)),
        byte_offset_of(a.subrange(0, sc) + b.subrange(ec, b.len() as int), sc) == byte_offset_of(
            a,
            sc,
        ),
        seq_bytes(a.subrange(0, sc) + b.subrange(ec, b.len() as int)) == byte_offset_of(a, sc) + (
        seq_bytes(b) - byte_offset_of(b, ec)),
        (a.subrange(0, sc) + b.subrange(ec, b.len() as int)).len() == sc + b.len() - ec,
{
    let p = a.subrange(0, sc);
    let s = b.subrange(ec, b.len() as int);
    let j = p + s;
    lemma_split_bytes(a, sc);
    lemma_split_bytes(b, ec);
    lemma_seq_bytes_concat(p, s);
    lemma_byte_offset_agree(j, a, sc);
    assert(j[j.len() - 1] == b[b.len() - 1]);
    assert forall|i: int| 0 <= i < j.len() - 1 implies j[i] != '\n' by {
        if i < sc {
            assert(j[i] == a[i]);
        } else {
            assert(j[i] == b[ec + (i - sc)]);
            assert(ec + (i - sc) < b.len() - 1);
        }
    }
}

/// Splitting a well-formed line at a content column gives two well-formed
/// lines.
pub proof fn lemma_split_wf(l: Seq<char>, col: int)
    requires
        line_wf(l),
        0 <= col <= l.len() - 1,
    ensures
        line_wf(l.subrange(0, col).push('\n')),
        line_wf(l.subrange(col, l.len() as int)),
        seq_bytes(l.subrange(0, col).push('\n')) == byte_offset_of(l, col) + 1,
{
    let first = l.subrange(0, col).push('\n');
    let second = l.subrange(col, l.len() as int);
    lemma_split_bytes(l, col);
    lemma_byte_offset_mono(l, col, l.len() - 1);
    lemma_line_last_byte(l);
    assert(l.subrange(0, col).push('\n') =~= l.subrange(0, col) + seq!['\n']);
    lemma_seq_bytes_concat(l.subrange(0, col), seq!['\n']);
    lemma_seq_bytes_singleton('\n');
    assert(utf8_len('\n') == 1);
    assert(second[second.len() - 1] == l[l.len() - 1]);
}

/// Inserting one codepoint at a content column of a well-formed line gives a
/// well-formed line one codepoint longer, shifting the byte offsets after the
/// column by the codepoint's encoded size.
pub proof fn lemma_insert_wf(l: Seq<char>, col: int, ch: char)
    requires
        line_wf(l),
        0 <= col <= l.len() - 1,
        ch != '\n',
        seq_bytes(l) + utf8_len(ch) <= LINE_CAP,
    ensures
        line_wf(l.subrange(0, col).push(ch) + l.subrange(col, l.len() as int)),
        byte_offset_of(
            l.subrange(0, col).push(ch) + l.subrange(col, l.len() as int),
            col + 1,
        ) == byte_offset_of(l, col) + utf8_len(ch),
        seq_bytes(l.subrange(0, col).push(ch) + l.subrange(col, l.len() as int)) == seq_bytes(l)
            + utf8_len(ch),
        (l.subrange(0, col).push(ch) + l.subrange(col, l.len() as int)).len() == l.len() + 1,
{
    let p = l.subrange(0, col).push(ch);
    let s = l.subrange(col, l.len() as int);
    let j = p + s;
    lemma_split_bytes(l, col);
    assert(p =~= l.subrange(0, col) + seq![ch]);
    lemma_seq_bytes_concat(l.subrange(0, col), seq![ch]);
    lemma_seq_bytes_singleton(ch);
    lemma_seq_bytes_concat(p, s);
    lemma_byte_offset_agree(j, p, col + 1);
    assert(byte_offset_of(p, col + 1) == seq_bytes(p));
    assert(j[j.len() - 1] == l[l.len() - 1]);
    assert forall|i: int| 0 <= i < j.len() - 1 implies j[i] != '\n' by {
        if i < col {
            assert(j[i] == l[i]);
        } else if i == col {
            assert(j[i] == ch);
        } else {
            assert(j[i] == l[i - 1]);
        }
    }
}

/// Replacing one line keeps the storage well formed.
pub proof fn lemma_lines_wf_update(lv: Seq<Seq<char>>, i: int, l: Seq<char>)
    requires
        lines_wf(lv),
        0 <= i < lv.len(),
        line_wf(l),
    ensures
        lines_wf(lv.update(i, l)),
{
}

/// Inserting one line keeps the storage well formed.
pub proof fn lemma_lines_wf_insert(lv: Seq<Seq<char>>, i: int, l: Seq<char>)
    requires
        lines_wf(lv),
        0 <= i <= lv.len(),
        line_wf(l),
    ensures
        lines_wf(lv.insert(i, l)),
{
    assert forall|j: int| 0 <= j < lv.insert(i, l).len() implies line_wf(
        #[trigger] lv.insert(i, l)[j],
    ) by {
        if j < i {
            assert(lv.insert(i, l)[j] == lv[j]);
        } else if j == i {
        } else {
            assert(lv.insert(i, l)[j] == lv[j - 1]);
        }
    }
}

/// Removing one line keeps the storage well formed.
pub proof fn lemma_lines_wf_remove(lv: Seq<Seq<char>>, i: int)
    requires
        lines_wf(lv),
        0 <= i < lv.len(),
    ensures
        lines_wf(lv.remove(i)),
{
    assert forall|j: int| 0 <= j < lv.remove(i).len() implies line_wf(#[trigger] lv.remove(i)[j]) by {
        if j < i {
            assert(lv.remove(i)[j] == lv[j]);
        } else {
            assert(lv.remove(i)[j] == lv[j + 1]);
        }
    }
}

/// Replace the line at `i`, returning nothing; the storage views gain the new
/// line at `i` in place of the old.
fn set_line(lines: &mut Vec<Vec<char>>, i: usize, l: Vec<char>)
    requires
        i < old(lines)@.len(),
    ensures
        final(lines)@ == old(lines)@.update(i as int, l),
        views(final(lines)@) == views(old(lines)@).update(i as int, l@),
{
    let _ = lines.remove(i);
    lines.insert(i, l);
    proof {
        assert(lines@ =~= old(lines)@.update(i as int, l));
        assert(views(lines@) =~= views(old(lines)@).update(i as int, l@));
    }
}

/// Remove the lines with indices `from..to`, keeping everything else in
/// order.
fn remove_lines(lines: &mut Vec<Vec<char>>, from: usize, to: usize)
    requires
        from <= to <= old(lines)@.len(),
    ensures
        final(lines)@ == old(lines)@.subrange(0, from as int) + old(lines)@.subrange(
            to as int,
            old(lines)@.len() as int,
        ),
{
    let n = to - from;
    let mut i: usize = 0;
    while i < n
        invariant
            i <= n,
            from + n <= old(lines)@.len(),
            lines@ == old(lines)@.subrange(0, from as int) + old(lines)@.subrange(
                (from + i) as int,
                old(lines)@.len() as int,
            ),
        decreases n - i,
    {
        let _ = lines.remove(from);
        proof {
            assert(lines@ =~= old(lines)@.subrange(0, from as int) + old(lines)@.subrange(
                (from + i + 1) as int,
                old(lines)@.len() as int,
            ));
        }
        i = i + 1;
    }
    proof {
        assert(lines@ =~= old(lines)@.subrange(0, from as int) + old(lines)@.subrange(
            to as int,
            old(lines)@.len() as int,
        ));
    }
}

/// Pull `cursor` back to a valid position after the storage changed under
/// it, as [`clamped`] describes.
pub fn clamp_cursor(lines: &Vec<Vec<char>>, cursor: &mut Cursor)
    requires
        lines_wf(views(lines@)),
        lines@.len() >= 1,
    ensures
        *final(cursor) == clamped(views(lines@), *old(cursor)),
        cursor_valid(views(lines@), *final(cursor)),
{
    let ghost lv = views(lines@);
    if cursor.start_line >= lines.len() {
        cursor.start_line = lines.len() - 1;
    }
    let l = &lines[cursor.start_line];
    assert(l@ == lv[cursor.start_line as int]);
    assert(line_wf(l@));
    if cursor.start_character > l.len() - 1 {
        cursor.start_character = l.len() - 1;
    }
    proof {
        lemma_byte_offset_mono(l@, cursor.start_character as int, l@.len() as int);
    }
    cursor.start_byte = byte_offset(l, cursor.start_character);
    if cursor.end_line >= lines.len() {
        cursor.end_line = lines.len() - 1;
    }
    let le = &lines[cursor.end_line];
    assert(le@ == lv[cursor.end_line as int]);
    assert(line_wf(le@));
    if cursor.end_character > le.len() - 1 {
        cursor.end_character = le.len() - 1;
    }
    proof {
        lemma_byte_offset_mono(le@, cursor.end_character as int, le@.len() as int);
    }
    cursor.end_byte = byte_offset(le, cursor.end_character);
    if !(cursor.start_line < cursor.end_line || (cursor.start_line == cursor.end_line
        && cursor.start_byte <= cursor.end_byte)) {
        cursor.atomize();
    }
}

/// Apply `ch` at an atomic caret, as [`char_applied`] describes.
#[verifier::rlimit(60)]
fn apply_at_caret(lines: &mut Vec<Vec<char>>, cursor: &mut Cursor, ch: char) -> (changed: bool)
    requires
        lines_wf(views(old(lines)@)),
        cursor_valid(views(old(lines)@), *old(cursor)),
        old(cursor).spec_is_atomic(),
        !rejected_char(ch),
    ensures
        views(final(lines)@) == char_applied(views(old(lines)@), *old(cursor), ch).0,
        *final(cursor) == char_applied(views(old(lines)@), *old(cursor), ch).1,
        changed == char_applied(views(old(lines)@), *old(cursor), ch).2,
        lines_wf(views(final(lines)@)),
        cursor_valid(views(final(lines)@), *final(cursor)),
        final(lines)@.len() >= 1,
{
    let ghost lv0 = views(lines@);
    let ghost c0 = *cursor;
    proof {
        assert(lines.len() == lines@.len());
    }
    let li = cursor.start_line;
    let col = cursor.start_character;
    assert(lines[li as int]@ == lv0[li as int]);
    assert(line_wf(lv0[li as int]));
    let ghost l = lv0[li as int];
    proof {
        lemma_byte_order_is_column_order(l, c0.start_character as int, c0.end_character as int);
        lemma_byte_order_is_column_order(l, c0.end_character as int, c0.start_character as int);
        assert(c0.end_character == c0.start_character);
    }
    if ch == '\n' {
        let l_len = lines[li].len();
        let mut first = subvec(&lines[li], 0, col);
        first.push('\n');
        let second = subvec(&lines[li], col, l_len);
        proof {
            lemma_split_wf(l, col as int);
            assert(first@ =~= l.subrange(0, col as int).push('\n'));
        }
        set_line(lines, li, first);
        lines.insert(li + 1, second);
        cursor.start_line = li + 1;
        cursor.start_byte = 0;
        cursor.start_character = 0;
        cursor.atomize();
        proof {
            assert(views(lines@) =~= lv0.update(li as int, first@).insert(
                (li + 1) as int,
                second@,
            ));
            lemma_lines_wf_update(lv0, li as int, first@);
            lemma_lines_wf_insert(lv0.update(li as int, first@), (li + 1) as int, second@);
        }
        true
    } else if ch == BACKSPACE {
        if col > 0 {
            let l_len = lines[li].len();
            let w = char_utf8_len(lines[li][col - 1]);
            let mut nl = subvec(&lines[li], 0, col - 1);
            let mut suf = subvec(&lines[li], col, l_len);
            nl.append(&mut suf);
            proof {
                lemma_join_wf(l, l, col - 1, col as int);
                lemma_byte_offset_mono(l, col as int, col as int);
            }
            set_line(lines, li, nl);
            cursor.start_byte = cursor.start_byte - w as usize;
            cursor.start_character = col - 1;
            cursor.atomize();
            proof {
                lemma_lines_wf_update(lv0, li as int, final(lines)@[li as int]@);
                assert(views(lines@) =~= char_applied(lv0, c0, ch).0);
            }
            true
        } else if li > 0 {
            assert(lines[li - 1]@ == lv0[li - 1]);
            assert(line_wf(lv0[li - 1]));
            let prev_bytes = line_byte_len(&lines[li - 1]);
            let cur_bytes = line_byte_len(&lines[li]);
            proof {
                lemma_byte_offset_mono(lv0[li - 1], 0, lv0[li - 1].len() as int);
            }
            if prev_bytes - 1 <= LINE_CAP - cur_bytes {
                let prev_len = lines[li - 1].len();
                let cur_len = lines[li].len();
                let mut merged = subvec(&lines[li - 1], 0, prev_len - 1);
                let mut cur = subvec(&lines[li], 0, cur_len);
                proof {
                    assert(cur@ =~= l);
                    lemma_join_wf(lv0[li - 1], l, prev_len - 1, 0);
                    assert(l.subrange(0, l.len() as int) =~= l);
                    lemma_line_last_byte(lv0[li - 1]);
                }
                merged.append(&mut cur);
                set_line(lines, li - 1, merged);
                let _ = lines.remove(li);
                cursor.start_line = li - 1;
                cursor.start_byte = prev_bytes - 1;
                cursor.start_character = prev_len - 1;
                cursor.atomize();
                proof {
                    assert(views(lines@) =~= lv0.update(li - 1, merged@).remove(li as int));
                    lemma_lines_wf_update(lv0, li - 1, merged@);
                    lemma_lines_wf_remove(lv0.update(li - 1, merged@), li as int);
                    assert(byte_offset_of(merged@, prev_len - 1) == byte_offset_of(
                        lv0[li - 1],
                        prev_len - 1,
                    ));
                }
                true
            } else {
                false
            }
        } else {
            false
        }
    } else if ch == DEL {
        let l_len = lines[li].len();
        if col < l_len - 1 {
            let mut nl = subvec(&lines[li], 0, col);
            let mut suf = subvec(&lines[li], col + 1, l_len);
            nl.append(&mut suf);
            proof {
                lemma_join_wf(l, l, col as int, col + 1 as int);
                lemma_byte_offset_mono(l, col as int, col + 1);
            }
            set_line(lines, li, nl);
            proof {
                lemma_lines_wf_update(lv0, li as int, nl@);
                assert(views(lines@) =~= char_applied(lv0, c0, ch).0);
            }
            true
        } else if li < lines.len() - 1 {
            assert(lines[li + 1]@ == lv0[li + 1]);
            assert(line_wf(lv0[li + 1]));
            let next_bytes = line_byte_len(&lines[li + 1]);
            if cursor.start_byte <= LINE_CAP - next_bytes {
                let next_len = lines[li + 1].len();
                let mut merged = subvec(&lines[li], 0, col);
                let mut nxt = subvec(&lines[li + 1], 0, next_len);
                proof {
                    assert(nxt@ =~= lv0[li + 1]);
                    lemma_join_wf(l, lv0[li + 1], col as int, 0);
                    assert(lv0[li + 1].subrange(0, lv0[li + 1].len() as int) =~= lv0[li + 1]);
                }
                merged.append(&mut nxt);
                set_line(lines, li, merged);
                let _ = lines.remove(li + 1);
                proof {
                    assert(views(lines@) =~= lv0.update(li as int, merged@).remove(li + 1));
                    lemma_lines_wf_update(lv0, li as int, merged@);
                    lemma_lines_wf_remove(lv0.update(li as int, merged@), li + 1);
                }
                true
            } else {
                false
            }
        } else {
            false
        }
    } else {
        let l_bytes = line_byte_len(&lines[li]);
        let w = char_utf8_len(ch);
        if l_bytes <= LINE_CAP - w as usize {
            let l_len = lines[li].len();
            let mut nl = subvec(&lines[li], 0, col);
            nl.push(ch);
            let mut suf = subvec(&lines[li], col, l_len);
            nl.append(&mut suf);
            proof {
                lemma_insert_wf(l, col as int, ch);
                assert(nl@ =~= l.subrange(0, col as int).push(ch) + l.subrange(
                    col as int,
                    l.len() as int,
                ));
                lemma_byte_offset_mono(l, col as int, l.len() as int);
            }
            set_line(lines, li, nl);
            cursor.start_byte = cursor.start_byte + w as usize;
            cursor.start_character = col + 1;
            cursor.atomize();
            proof {
                lemma_lines_wf_update(lv0, li as int, nl@);
                assert(views(lines@) =~= char_applied(lv0, c0, ch).0);
            }
            true
        } else {
            false
        }
    }
}

/// Delete a selection, as [`sel_deleted`] describes; `false` when the joined
/// line would exceed [`LINE_CAP`], in which case nothing changes.
fn delete_selection(lines: &mut Vec<Vec<char>>, cursor: &mut Cursor) -> (ok: bool)
    requires
        lines_wf(views(old(lines)@)),
        cursor_valid(views(old(lines)@), *old(cursor)),
        !old(cursor).spec_is_atomic(),
    ensures
        ok == sel_fits(views(old(lines)@), *old(cursor)),
        !ok ==> final(lines)@ == old(lines)@ && *final(cursor) == *old(cursor),
        ok ==> views(final(lines)@) == sel_deleted(views(old(lines)@), *old(cursor)).0,
        ok ==> *final(cursor) == sel_deleted(views(old(lines)@), *old(cursor)).1,
        ok ==> final(cursor).spec_is_atomic(),
        ok ==> lines_wf(views(final(lines)@)),
        ok ==> cursor_valid(views(final(lines)@), *final(cursor)),
        final(lines)@.len() >= 1,
{
    let ghost lv0 = views(lines@);
    let ghost c0 = *cursor;
    proof {
        assert(lines.len() == lines@.len());
    }
    let sl = cursor.start_line;
    let sc = cursor.start_character;
    let el = cursor.end_line;
    let ec = cursor.end_character;
    assert(lines[sl as int]@ == lv0[sl as int]);
    assert(lines[el as int]@ == lv0[el as int]);
    assert(line_wf(lv0[sl as int]));
    assert(line_wf(lv0[el as int]));
    if sl == el {
        proof {
            lemma_byte_order_is_column_order(lv0[sl as int], sc as int, ec as int);
            lemma_byte_offset_mono(lv0[sl as int], sc as int, ec as int);
        }
        let l_len = lines[sl].len();
        let mut nl = subvec(&lines[sl], 0, sc);
        let mut suf = subvec(&lines[sl], ec, l_len);
        nl.append(&mut suf);
        proof {
            lemma_join_wf(lv0[sl as int], lv0[sl as int], sc as int, ec as int);
        }
        set_line(lines, sl, nl);
        cursor.atomize();
        proof {
            lemma_lines_wf_update(lv0, sl as int, nl@);
            assert(views(lines@) =~= sel_deleted(lv0, c0).0);
        }
        true
    } else {
        let last_bytes = line_byte_len(&lines[el]);
        proof {
            lemma_byte_offset_mono(lv0[el as int], ec as int, lv0[el as int].len() as int);
        }
        if !(cursor.start_byte <= LINE_CAP - (last_bytes - cursor.end_byte)) {
            return false;
        }
        let el_len = lines[el].len();
        let mut joined = subvec(&lines[sl], 0, sc);
        let mut suf = subvec(&lines[el], ec, el_len);
        proof {
            lemma_join_wf(lv0[sl as int], lv0[el as int], sc as int, ec as int);
        }
        joined.append(&mut suf);
        remove_lines(lines, sl + 1, el + 1);
        set_line(lines, sl, joined);
        cursor.atomize();
        proof {
            assert(views(lines@) =~= sel_deleted(lv0, c0).0);
            assert forall|j: int| 0 <= j < views(lines@).len() implies line_wf(
                #[trigger] views(lines@)[j],
            ) by {
                if j < sl as int {
                    assert(views(lines@)[j] == lv0[j]);
                } else if j == sl as int {
                    assert(views(lines@)[j] == joined@);
                } else {
                    assert(views(lines@)[j] == lv0[j + (el - sl) as int]);
                }
            }
        }
        true
    }
}

/// Apply `ch` at one cursor, as [`edited`] describes: a selection is deleted
/// first, then the character acts at the collapsed caret.
pub fn edit_one(lines: &mut Vec<Vec<char>>, cursor: &mut Cursor, ch: char) -> (changed: bool)
    requires
        lines_wf(views(old(lines)@)),
        cursor_valid(views(old(lines)@), *old(cursor)),
        !rejected_char(ch),
    ensures
        views(final(lines)@) == edited(views(old(lines)@), *old(cursor), ch).0,
        *final(cursor) == edited(views(old(lines)@), *old(cursor), ch).1,
        changed == edited(views(old(lines)@), *old(cursor), ch).2,
        lines_wf(views(final(lines)@)),
        cursor_valid(views(final(lines)@), *final(cursor)),
        final(lines)@.len() >= 1,
{
    if cursor.is_atomic() {
        apply_at_caret(lines, cursor, ch)
    } else {
        let ok = delete_selection(lines, cursor);
        if !ok {
            proof {
                assert(views(lines@) =~= views(old(lines)@));
            }
            false
        } else if ch == BACKSPACE || ch == DEL {
            true
        } else {
            let _ = apply_at_caret(lines, cursor, ch);
            true
        }
    }
}

} // verus!
