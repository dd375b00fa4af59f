//! The mathematical model of line storage: UTF-8 encoded lengths, byte
//! offsets of codepoint columns, well-formed lines, and concatenation of a
//! line sequence back into file content.

use vstd::prelude::*;

verus! {

/// Ceiling on the UTF-8 encoded size of a single stored line. It leaves
/// enough slack below `usize::MAX` that offset arithmetic cannot overflow.
pub const LINE_CAP: usize = usize::MAX - 8;

/// Number of bytes in the UTF-8 encoding of `c` (what `char::len_utf8`
/// returns, straight from the UTF-8 definition).
pub open spec fn utf8_len(c: char) -> nat {
    if (c as u32) < 0x80 {
        1
    } else if (c as u32) < 0x800 {
        2
    } else if (c as u32) < 0x10000 {
        3
    } else {
        4
    }
}

/// Byte offset of the `k`-th codepoint of `s`: the number of bytes the first
/// `k` codepoints occupy once UTF-8 encoded.
pub open spec fn byte_offset_of(s: Seq<char>, k: int) -> nat
    decreases k,
{
    if k <= 0 {
        0
    } else {
        byte_offset_of(s, k - 1) + utf8_len(s[k - 1])
    }
}

/// Encoded byte length of the whole sequence.
pub open spec fn seq_bytes(s: Seq<char>) -> nat {
    byte_offset_of(s, s.len() as int)
}

/// A well-formed stored line: at least the terminator, the terminator only at
/// the very end, and an encoded size within the machine bound.
pub open spec fn line_wf(s: Seq<char>) -> bool {
    &&& s.len() >= 1
    &&& s[s.len() - 1] == '\n'
    &&& forall|i: int| 0 <= i < s.len() - 1 ==> s[i] != '\n'
    &&& seq_bytes(s) <= LINE_CAP
}

/// Well-formed line storage: every stored line is well formed.
pub open spec fn lines_wf(lines: Seq<Seq<char>>) -> bool {
    forall|i: int| 0 <= i < lines.len() ==> line_wf(#[trigger] lines[i])
}

/// The file content that a line sequence stands for: the lines, in order,
/// terminators included.
pub open spec fn concat_lines(lines: Seq<Seq<char>>) -> Seq<char>
    decreases lines.len(),
{
    if lines.len() == 0 {
        Seq::empty()
    } else {
        lines[0] + concat_lines(lines.drop_first())
    }
}

/// File content as the loader normalizes it: a final line that lacks a
/// terminator gains one; everything else is kept byte for byte.
pub open spec fn normalized(content: Seq<char>) -> Seq<char> {
    if content.len() == 0 || content[content.len() - 1] == '\n' {
        content
    } else {
        content.push('\n')
    }
}

/// The view of a vector of lines, line by line.
pub open spec fn views(lines: Seq<Vec<char>>) -> Seq<Seq<char>> {
    Seq::new(lines.len(), |i: int| lines[i]@)
}

/// Byte offsets only depend on the codepoints before them: two sequences that
/// agree on their first `k` codepoints give the `k`-th column the same offset.
pub proof fn lemma_byte_offset_agree(s: Seq<char>, t: Seq<char>, k: int)
    requires
        forall|i: int| 0 <= i < k ==> s[i] == t[i],
    ensures
        byte_offset_of(s, k) == byte_offset_of(t, k),
    decreases k,
{
    if k > 0 {
        lemma_byte_offset_agree(s, t, k - 1);
    }
}

/// Byte offsets grow with the column, by at least one byte per codepoint.
pub proof fn lemma_byte_offset_mono(s: Seq<char>, j: int, k: int)
    requires
        0 <= j <= k,
    ensures
        byte_offset_of(s, j) + (k - j) <= byte_offset_of(s, k),
    decreases k,
{
    if j < k {
        lemma_byte_offset_mono(s, j, k - 1);
    }
}

/// Offsets past the end of a prefix add up: the offset of column
/// `a.len() + k` of `a + b` is the size of `a` plus the offset of column `k`
/// of `b`.
pub proof fn lemma_byte_offset_concat(a: Seq<char>, b: Seq<char>, k: int)
    requires
        0 <= k <= b.len(),
    ensures
        byte_offset_of(a + b, a.len() + k) == seq_bytes(a) + byte_offset_of(b, k),
    decreases k,
{
    if k == 0 {
        lemma_byte_offset_agree(a + b, a, a.len() as int);
    } else {
        lemma_byte_offset_concat(a, b, k - 1);
        assert((a + b)[a.len() + k - 1] == b[k - 1]);
    }
}

/// The encoded size of a concatenation is the sum of the encoded sizes.
pub proof fn lemma_seq_bytes_concat(a: Seq<char>, b: Seq<char>)
    ensures
        seq_bytes(a + b) == seq_bytes(a) + seq_bytes(b),
{
    lemma_byte_offset_concat(a, b, b.len() as int);
}

/// The encoded size of a middle piece is the difference of the byte offsets
/// around it.
pub proof fn lemma_seq_bytes_subrange(s: Seq<char>, a: int, b: int)
    requires
        0 <= a <= b <= s.len(),
    ensures
        seq_bytes(s.subrange(a, b)) == byte_offset_of(s, b) - byte_offset_of(s, a),
{
    assert(s.subrange(0, b) =~= s.subrange(0, a) + s.subrange(a, b));
    lemma_seq_bytes_concat(s.subrange(0, a), s.subrange(a, b));
    lemma_byte_offset_agree(s.subrange(0, a), s, a);
    lemma_byte_offset_agree(s.subrange(0, b), s, b);
}

/// Loading a file and saving it straight back reproduces its content byte for
/// byte, except that a final line lacking a terminator gains one: the loader
/// stores [`normalized`] content, and the saver writes the stored lines as
/// they are.
pub proof fn lemma_round_trip(content: Seq<char>)
    ensures
        content.len() == 0 || content[content.len() - 1] == '\n' ==> normalized(content)
            == content,
        content.len() > 0 && content[content.len() - 1] != '\n' ==> normalized(content)
            == content.push('\n'),
{
}

/// Appending one line extends the concatenation by that line.
pub proof fn lemma_concat_lines_push(lines: Seq<Seq<char>>, l: Seq<char>)
    ensures
        concat_lines(lines.push(l)) == concat_lines(lines) + l,
    decreases lines.len(),
{
    if lines.len() == 0 {
        assert(lines.push(l).drop_first() =~= Seq::<Seq<char>>::empty());
        assert(lines.push(l)[0] == l);
        assert(concat_lines(lines.push(l)) == l + concat_lines(Seq::<Seq<char>>::empty()));
        assert(l + Seq::<char>::empty() =~= l);
        assert(concat_lines(lines) + l =~= l);
    } else {
        assert(lines.push(l).drop_first() =~= lines.drop_first().push(l));
        lemma_concat_lines_push(lines.drop_first(), l);
        assert(lines.push(l)[0] == lines[0]);
        assert(concat_lines(lines.push(l)) == lines[0] + (concat_lines(lines.drop_first()) + l));
        assert(lines[0] + (concat_lines(lines.drop_first()) + l) =~= (lines[0] + concat_lines(
            lines.drop_first(),
        )) + l);
    }
}

/// Number of bytes in the UTF-8 encoding of `c`.
pub fn char_utf8_len(c: char) -> (n: u8)
    ensures
        n == utf8_len(c),
{
    let u = c as u32;
    if u < 0x80 {
        1
    } else if u < 0x800 {
        2
    } else if u < 0x10000 {
        3
    } else {
        4
    }
}

/// Byte offset of column `k` of `line`, computed by walking the codepoints.
pub fn byte_offset(line: &Vec<char>, k: usize) -> (b: usize)
    requires
        k <= line@.len(),
        seq_bytes(line@) <= LINE_CAP,
    ensures
        b == byte_offset_of(line@, k as int),
{
    let mut acc: usize = 0;
    let mut i: usize = 0;
    while i < k
        invariant
            i <= k <= line@.len(),
            seq_bytes(line@) <= LINE_CAP,
            acc == byte_offset_of(line@, i as int),
        decreases k - i,
    {
        proof {
            lemma_byte_offset_mono(line@, i + 1, line@.len() as int);
        }
        acc = acc + char_utf8_len(line[i]) as usize;
        i = i + 1;
    }
    acc
}

/// Encoded byte length of a whole line.
pub fn line_byte_len(line: &Vec<char>) -> (b: usize)
    requires
        seq_bytes(line@) <= LINE_CAP,
    ensures
        b == seq_bytes(line@),
{
    byte_offset(line, line.len())
}

/// Encoded byte length of `content`, unless it exceeds `max`: `Some` exactly
/// when the size is within the bound.
pub fn seq_bytes_within(content: &Vec<char>, max: usize) -> (r: Option<usize>)
    requires
        max <= LINE_CAP,
    ensures
        r matches Some(b) ==> b == seq_bytes(content@) && b <= max,
        r is None ==> seq_bytes(content@) > max,
{
    let mut acc: usize = 0;
    let mut i: usize = 0;
    let n = content.len();
    while i < n
        invariant
            i <= n == content@.len(),
            max <= LINE_CAP,
            acc == byte_offset_of(content@, i as int),
            acc <= max,
        decreases n - i,
    {
        proof {
            lemma_byte_offset_mono(content@, (i + 1) as int, content@.len() as int);
        }
        acc = acc + char_utf8_len(content[i]) as usize;
        if acc > max {
            return None;
        }
        i = i + 1;
    }
    Some(acc)
}

/// The codepoints of `l` from `from` (inclusive) to `to` (exclusive), as a
/// fresh vector.
pub fn subvec(l: &Vec<char>, from: usize, to: usize) -> (r: Vec<char>)
    requires
        from <= to <= l@.len(),
    ensures
        r@ == l@.subrange(from as int, to as int),
{
    let mut r: Vec<char> = Vec::new();
    let mut i = from;
    while i < to
        invariant
            from <= i <= to <= l@.len(),
            r@ == l@.subrange(from as int, i as int),
        decreases to - i,
    {
        r.push(l[i]);
        proof {
            assert(r@ =~= l@.subrange(from as int, i + 1 as int));
        }
        i = i + 1;
    }
    r
}

} // verus!
