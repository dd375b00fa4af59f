//! The text buffer: line storage, persistence state, and the cursor
//! collection, with movement and single-character edits applied across every
//! cursor in order.

use vstd::prelude::*;

use crate::cursor::{cursor_check, cursor_valid, cursors_valid, Cursor};
use crate::edit::{clamp_cursor, clamped, edit_one, edited, lemma_clamped_valid, rejected_char};
use crate::edit::{BACKSPACE, DEL};
use crate::movement::{move_one, moved_cursor, Move};
use crate::text::{
    concat_lines, lemma_concat_lines_push, lemma_byte_offset_mono, lemma_seq_bytes_subrange,
    line_wf, lines_wf, normalized, seq_bytes, seq_bytes_within, subvec, views, LINE_CAP,
};

verus! {

/// Why a load or save cannot be carried out.
#[derive(Clone, Copy, Debug, PartialEq, Eq, Structural)]
pub enum Error {
    /// The content is larger than the ceiling handed to
    /// [`TextBuffer::load_content`].
    BigFileSize,
    /// The surrounding input/output layer could not read or write the file.
    /// Nothing in this crate raises it; the layer that performs the reads and
    /// writes does.
    IO,
}

/// The cursor collection after one cursor's edit shifted the storage: the
/// edited cursor keeps its place, every other one is clamped back to a valid
/// position.
pub open spec fn clamp_all_but(lines: Seq<Seq<char>>, cursors: Seq<Cursor>, i: int) -> Seq<
    Cursor,
> {
    Seq::new(
        cursors.len(),
        |j: int|
            if j == i {
                cursors[j]
            } else {
                clamped(lines, cursors[j])
            },
    )
}

/// The buffer state after the first `n` cursors each applied one character,
/// in cursor order: every step is the cursor's [`edited`] outcome, followed,
/// whenever the storage changed, by the clamp of all other cursors. The flag
/// says whether any step changed the storage.
pub open spec fn write_pass(lines: Seq<Seq<char>>, cursors: Seq<Cursor>, n: int, ch: char) -> (
    Seq<Seq<char>>,
    Seq<Cursor>,
    bool,
)
    decreases n,
{
    if n <= 0 {
        (lines, cursors, false)
    } else {
        let r = write_pass(lines, cursors, n - 1, ch);
        let e = edited(r.0, r.1[n - 1], ch);
        let cs = r.1.update(n - 1, e.1);
        if e.2 {
            (e.0, clamp_all_but(e.0, cs, n - 1), true)
        } else {
            (e.0, cs, r.2)
        }
    }
}

/// An in-memory file: its lines, its persistence state, and its cursors.
///
/// The fields are public so that the contracts can speak about them; outside
/// this crate they are to be read, never assigned — every mutation goes
/// through the operations, which keep [`TextBuffer::wf`].
pub struct TextBuffer {
    /// Where the content is persisted, if anywhere.
    pub path: Option<String>,
    /// The backing file's size when the buffer was constructed, for progress
    /// reporting.
    pub size: usize,
    /// The stored lines, each carrying its trailing terminator.
    pub lines: Vec<Vec<char>>,
    /// Whether the in-memory content matches the last persisted write.
    pub saved: bool,
    /// Whether a full load has completed.
    pub loaded: bool,
    /// The cursors, in insertion order.
    pub cursors: Vec<Cursor>,
}

impl TextBuffer {
    /// The stored lines as sequences of codepoints.
    pub open spec fn lines_view(self) -> Seq<Seq<char>> {
        views(self.lines@)
    }

    /// Well-formedness: every line carries exactly one terminator, at its
    /// end, within the size bound; every cursor addresses the storage
    /// consistently.
    pub open spec fn wf(self) -> bool {
        &&& lines_wf(self.lines_view())
        &&& cursors_valid(self.lines_view(), self.cursors@)
    }

    /// A buffer over an optional backing path. With a path the buffer starts
    /// empty, unloaded and saved, recording the given on-disk size; without
    /// one it holds a single empty line, not backed by any file.
    pub fn new(path: Option<String>, size: usize) -> (r: TextBuffer)
        ensures
            r.wf(),
            r.path == path,
            !r.loaded,
            r.cursors@.len() == 0,
            path is Some ==> r.size == size && r.saved && r.lines@.len() == 0,
            path is None ==> r.size == 0 && !r.saved && r.lines_view() == seq![seq!['\n']],
    {
        let has_path = path.is_some();
        let mut lines: Vec<Vec<char>> = Vec::new();
        if !has_path {
            let mut empty_line: Vec<char> = Vec::new();
            empty_line.push('\n');
            lines.push(empty_line);
            proof {
                assert(views(lines@) =~~= seq![seq!['\n']]);
                crate::edit::lemma_seq_bytes_singleton('\n');
                assert(line_wf(seq!['\n']));
            }
        }
        TextBuffer {
            path,
            size: if has_path {
                size
            } else {
                0
            },
            lines,
            saved: has_path,
            loaded: false,
            cursors: Vec::new(),
        }
    }

    /// Whether a full load has completed.
    pub fn is_loaded(&self) -> (r: bool)
        ensures
            r == self.loaded,
    {
        self.loaded
    }

    /// Whether the in-memory content matches the last persisted write.
    pub fn is_saved(&self) -> (r: bool)
        ensures
            r == self.saved,
    {
        self.saved
    }

    /// The backing file's size captured at construction.
    pub fn file_size(&self) -> (r: usize)
        ensures
            r == self.size,
    {
        self.size
    }

    /// How many lines are stored.
    pub fn line_count(&self) -> (r: usize)
        ensures
            r == self.lines@.len(),
    {
        self.lines.len()
    }

    /// The backing path, if any.
    pub fn get_path(&self) -> (r: Option<&String>)
        ensures
            r is Some <==> self.path is Some,
            r matches Some(p) ==> self.path == Some(*p),
    {
        match &self.path {
            Some(p) => Some(p),
            None => None,
        }
    }

    /// Point the buffer at a (new) backing path.
    pub fn set_path(&mut self, path: String)
        ensures
            *final(self) == (TextBuffer { path: Some(path), ..*old(self) }),
    {
        self.path = Some(path);
    }

    /// Detach the buffer from its backing path. The content no longer matches
    /// any persisted file, so the buffer is marked unsaved.
    pub fn remove_path(&mut self)
        ensures
            *final(self) == (TextBuffer { path: None, saved: false, ..*old(self) }),
    {
        self.saved = false;
        self.path = None;
    }

    /// The stored lines, for read-only iteration.
    pub fn lines(&self) -> (r: &[Vec<char>])
        ensures
            r@ == self.lines@,
    {
        self.lines.as_slice()
    }

    /// The cursors, for read-only iteration.
    pub fn get_cursors(&self) -> (r: &[Cursor])
        ensures
            r@ == self.cursors@,
    {
        self.cursors.as_slice()
    }

    /// Replace the whole cursor collection. The replacement is validated
    /// against the storage: on any invalid cursor nothing changes and the
    /// call reports `false`.
    pub fn set_cursors(&mut self, cursors: Vec<Cursor>) -> (r: bool)
        requires
            old(self).wf(),
        ensures
            r == cursors_valid(old(self).lines_view(), cursors@),
            r ==> *final(self) == (TextBuffer { cursors, ..*old(self) }),
            !r ==> *final(self) == *old(self),
            final(self).wf(),
    {
        let n = cursors.len();
        let mut i: usize = 0;
        while i < n
            invariant
                i <= n == cursors@.len(),
                *self == *old(self),
                old(self).wf(),
                forall|k: int| 0 <= k < i ==> cursor_valid(
                    views(self.lines@),
                    #[trigger] cursors@[k],
                ),
            decreases n - i,
        {
            if !cursor_check(&self.lines, &cursors[i]) {
                proof {
                    assert(!cursor_valid(old(self).lines_view(), cursors@[i as int]));
                }
                return false;
            }
            i = i + 1;
        }
        proof {
            assert(cursors_valid(old(self).lines_view(), cursors@));
        }
        self.cursors = cursors;
        true
    }

    /// What a save must write, if anything: `None` when the buffer is already
    /// saved (saving again is a no-op), otherwise the full content — every
    /// stored line in order, terminators included. The caller writes the
    /// returned codepoints, UTF-8 encoded, and then calls
    /// [`TextBuffer::mark_saved`].
    pub fn save_plan(&self) -> (r: Option<Vec<char>>)
        ensures
            self.saved <==> r is None,
            r matches Some(v) ==> v@ == concat_lines(self.lines_view()),
    {
        if self.saved {
            return None;
        }
        let ghost lv = self.lines_view();
        let mut out: Vec<char> = Vec::new();
        let n = self.lines.len();
        let mut i: usize = 0;
        proof {
            assert(lv.subrange(0, 0) =~= Seq::<Seq<char>>::empty());
        }
        while i < n
            invariant
                i <= n == self.lines@.len(),
                lv == self.lines_view(),
                out@ == concat_lines(lv.subrange(0, i as int)),
            decreases n - i,
        {
            let line_len = self.lines[i].len();
            let mut piece = subvec(&self.lines[i], 0, line_len);
            proof {
                assert(piece@ =~= lv[i as int]);
            }
            out.append(&mut piece);
            proof {
                assert(lv.subrange(0, i + 1 as int) =~= lv.subrange(0, i as int).push(
                    lv[i as int],
                ));
                lemma_concat_lines_push(lv.subrange(0, i as int), lv[i as int]);
            }
            i = i + 1;
        }
        proof {
            assert(lv.subrange(0, n as int) =~= lv);
        }
        Some(out)
    }

    /// Record that the content was persisted: the write that
    /// [`TextBuffer::save_plan`] asked for has happened. A second save right
    /// after is then a no-op — `save_plan` returns `None`.
    pub fn mark_saved(&mut self)
        ensures
            *final(self) == (TextBuffer { saved: true, ..*old(self) }),
    {
        self.saved = true;
    }

    /// Replace the whole content with `content`, split into stored lines at
    /// every terminator, each stored line keeping its terminator and a final
    /// line lacking one gaining it. Succeeds exactly when the content's
    /// encoded size is within both `max_bytes` and the machine bound; on
    /// failure nothing changes. A load resets the cursors.
    pub fn load_content(&mut self, content: Vec<char>, max_bytes: usize) -> (r: Result<
        (),
        Error,
    >)
        requires
            old(self).wf(),
            old(self).path is Some,
        ensures
            r is Ok <==> (seq_bytes(content@) <= max_bytes && seq_bytes(content@) + 1
                <= LINE_CAP),
            r is Err ==> *final(self) == *old(self) && r == Result::<(), Error>::Err(
                Error::BigFileSize,
            ),
            r is Ok ==> {
                &&& concat_lines(final(self).lines_view()) == normalized(content@)
                &&& final(self).loaded
                &&& final(self).cursors@.len() == 0
                &&& final(self).path == old(self).path
                &&& final(self).size == old(self).size
                &&& final(self).saved == old(self).saved
            },
            final(self).wf(),
    {
        let threshold = if max_bytes < LINE_CAP - 1 {
            max_bytes
        } else {
            LINE_CAP - 1
        };
        let total = match seq_bytes_within(&content, threshold) {
            None => {
                return Err(Error::BigFileSize);
            },
            Some(t) => t,
        };
        let cv = content;
        self.lines = Vec::new();
        self.cursors = Vec::new();
        let mut cur: Vec<char> = Vec::new();
        let ghost mut line_start: int = 0;
        let n = cv.len();
        let mut i: usize = 0;
        proof {
            assert(concat_lines(views(self.lines@)) =~= Seq::<char>::empty());
            assert(cur@ =~= cv@.subrange(0, 0));
        }
        while i < n
            invariant
                i <= n == cv@.len(),
                seq_bytes(cv@) <= threshold <= LINE_CAP - 1,
                0 <= line_start <= i,
                cur@ == cv@.subrange(line_start, i as int),
                line_start == 0 || cv@[line_start - 1] == '\n',
                forall|k: int| line_start <= k < i ==> cv@[k] != '\n',
                lines_wf(views(self.lines@)),
                concat_lines(views(self.lines@)) == cv@.subrange(0, line_start),
                self.path == old(self).path,
                self.size == old(self).size,
                self.saved == old(self).saved,
                self.cursors@.len() == 0,
            decreases n - i,
        {
            let ghost lines_before = views(self.lines@);
            let c = cv[i];
            cur.push(c);
            if c == '\n' {
                proof {
                    assert(cur@ =~= cv@.subrange(line_start, i + 1 as int));
                    lemma_seq_bytes_subrange(cv@, line_start, i + 1 as int);
                    lemma_byte_offset_mono(cv@, i + 1 as int, n as int);
                    lemma_byte_offset_mono(cv@, 0, line_start);
                    assert(line_wf(cur@));
                }
                let done = cur;
                cur = Vec::new();
                proof {
                    assert(views(self.lines@.push(done)) =~= lines_before.push(done@));
                }
                self.lines.push(done);
                proof {
                    lemma_concat_lines_push(lines_before, cv@.subrange(line_start, i + 1 as int));
                    assert(cv@.subrange(0, line_start) + cv@.subrange(line_start, i + 1 as int)
                        =~= cv@.subrange(0, i + 1 as int));
                    line_start = i + 1;
                    assert(cur@ =~= cv@.subrange(line_start, i + 1 as int));
                }
            }
            i = i + 1;
        }
        if cur.len() > 0 {
            let ghost lines_before = views(self.lines@);
            cur.push('\n');
            proof {
                assert(cur@ =~= cv@.subrange(line_start, n as int).push('\n'));
                assert(cur@ =~= cv@.subrange(line_start, n as int) + seq!['\n']);
                lemma_seq_bytes_subrange(cv@, line_start, n as int);
                lemma_byte_offset_mono(cv@, 0, line_start);
                crate::text::lemma_seq_bytes_concat(cv@.subrange(line_start, n as int), seq!['\n']);
                crate::edit::lemma_seq_bytes_singleton('\n');
                assert(line_wf(cur@));
            }
            let done = cur;
            proof {
                assert(views(self.lines@.push(done)) =~= lines_before.push(done@));
            }
            self.lines.push(done);
            proof {
                lemma_concat_lines_push(lines_before, done@);
                assert(cv@.subrange(0, line_start) + (cv@.subrange(line_start, n as int)
                    + seq!['\n']) =~= cv@ + seq!['\n']);
                assert(cv@[n - 1] != '\n');
                assert(cv@ + seq!['\n'] =~= cv@.push('\n'));
                assert(concat_lines(views(self.lines@)) == normalized(cv@));
            }
        } else {
            proof {
                assert(cv@.subrange(0, line_start) =~= cv@);
                if n > 0 {
                    assert(cv@[n - 1] == '\n');
                }
                assert(concat_lines(views(self.lines@)) == normalized(cv@));
            }
        }
        self.loaded = true;
        Ok(())
    }

    /// Apply one movement step to every cursor, in cursor order. The storage
    /// and the persistence state do not change; each cursor lands where
    /// [`moved_cursor`] says, independently of the others.
    pub fn move_cursors(&mut self, movement: Move)
        requires
            old(self).wf(),
        ensures
            final(self).wf(),
            final(self).lines == old(self).lines,
            final(self).path == old(self).path,
            final(self).size == old(self).size,
            final(self).saved == old(self).saved,
            final(self).loaded == old(self).loaded,
            final(self).cursors@.len() == old(self).cursors@.len(),
            forall|i: int| 0 <= i < old(self).cursors@.len() ==> final(self).cursors@[i]
                == moved_cursor(old(self).lines_view(), old(self).cursors@[i], movement),
    {
        let n = self.cursors.len();
        let mut i: usize = 0;
        while i < n
            invariant
                i <= n == old(self).cursors@.len(),
                self.cursors@.len() == n,
                self.lines == old(self).lines,
                self.path == old(self).path,
                self.size == old(self).size,
                self.saved == old(self).saved,
                self.loaded == old(self).loaded,
                lines_wf(views(self.lines@)),
                forall|j: int| 0 <= j < i ==> self.cursors@[j] == moved_cursor(
                    old(self).lines_view(),
                    old(self).cursors@[j],
                    movement,
                ),
                forall|j: int| i <= j < n ==> self.cursors@[j] == old(self).cursors@[j],
                cursors_valid(views(self.lines@), self.cursors@),
            decreases n - i,
        {
            let mut cur = self.cursors[i];
            move_one(&self.lines, &mut cur, &movement);
            self.cursors[i] = cur;
            proof {
                assert forall|k: int| 0 <= k < n implies cursor_valid(
                    views(self.lines@),
                    #[trigger] self.cursors@[k],
                ) by {}
            }
            i = i + 1;
        }
    }

    /// Apply one character across every cursor, in cursor order, as
    /// [`write_pass`] describes. Control characters other than tab, newline,
    /// backspace and delete are rejected before any mutation, and the call
    /// reports `false`. Any change to the storage marks the buffer unsaved.
    pub fn write_character(&mut self, c: char) -> (r: bool)
        requires
            old(self).wf(),
        ensures
            r == !rejected_char(c),
            !r ==> *final(self) == *old(self),
            r ==> {
                let p = write_pass(
                    old(self).lines_view(),
                    old(self).cursors@,
                    old(self).cursors@.len() as int,
                    c,
                );
                &&& final(self).lines_view() == p.0
                &&& final(self).cursors@ == p.1
                &&& final(self).saved == (old(self).saved && !p.2)
                &&& final(self).path == old(self).path
                &&& final(self).size == old(self).size
                &&& final(self).loaded == old(self).loaded
            },
            final(self).wf(),
    {
        let u = c as u32;
        if (u < 0x20 || (0x7f <= u && u <= 0x9f)) && !(c == '\t' || c == '\n' || c == BACKSPACE
            || c == DEL) {
            assert(rejected_char(c));
            return false;
        }
        assert(!rejected_char(c));
        let ghost lv0 = self.lines_view();
        let ghost cs0 = self.cursors@;
        let n = self.cursors.len();
        let mut i: usize = 0;
        let mut any: bool = false;
        while i < n
            invariant
                i <= n == cs0.len(),
                !rejected_char(c),
                self.cursors@.len() == n,
                lines_wf(views(self.lines@)),
                cursors_valid(views(self.lines@), self.cursors@),
                views(self.lines@) == write_pass(lv0, cs0, i as int, c).0,
                self.cursors@ == write_pass(lv0, cs0, i as int, c).1,
                any == write_pass(lv0, cs0, i as int, c).2,
                self.saved == (old(self).saved && !any),
                self.path == old(self).path,
                self.size == old(self).size,
                self.loaded == old(self).loaded,
                lv0 == old(self).lines_view(),
                cs0 == old(self).cursors@,
            decreases n - i,
        {
            let ghost lines_before = views(self.lines@);
            let ghost cursors_before = self.cursors@;
            let mut cur = self.cursors[i];
            let changed = edit_one(&mut self.lines, &mut cur, c);
            self.cursors[i] = cur;
            proof {
                assert(self.cursors@ =~= cursors_before.update(i as int, cur));
            }
            if changed {
                any = true;
                self.saved = false;
                proof {
                    assert(self.lines@.len() >= 1);
                    assert(self.lines.len() == self.lines@.len());
                }
                clamp_all_cursors_but(&self.lines, &mut self.cursors, i);
                proof {
                    assert forall|k: int| 0 <= k < n implies cursor_valid(
                        views(self.lines@),
                        #[trigger] self.cursors@[k],
                    ) by {
                        if k != i as int {
                            lemma_clamped_valid(
                                views(self.lines@),
                                cursors_before.update(i as int, cur)[k],
                            );
                        }
                    }
                }
            }
            i = i + 1;
        }
        true
    }
}

/// Clamp every cursor except the one at `skip` back to a valid position, as
/// [`clamp_all_but`] describes.
fn clamp_all_cursors_but(lines: &Vec<Vec<char>>, cursors: &mut Vec<Cursor>, skip: usize)
    requires
        lines_wf(views(lines@)),
        lines@.len() >= 1,
        skip < old(cursors)@.len(),
    ensures
        final(cursors)@ == clamp_all_but(views(lines@), old(cursors)@, skip as int),
{
    let n = cursors.len();
    let mut j: usize = 0;
    while j < n
        invariant
            j <= n == cursors@.len() == old(cursors)@.len(),
            skip < n,
            lines_wf(views(lines@)),
            lines@.len() >= 1,
            forall|k: int| 0 <= k < j && k != skip ==> cursors@[k] == clamped(
                views(lines@),
                #[trigger] old(cursors)@[k],
            ),
            forall|k: int| (j <= k < n || k == skip) ==> cursors@[k] == #[trigger] old(
                cursors,
            )@[k],
        decreases n - j,
    {
        if j != skip {
            let mut cur = cursors[j];
            clamp_cursor(lines, &mut cur);
            cursors[j] = cur;
        }
        j = j + 1;
    }
    proof {
        assert(cursors@ =~= clamp_all_but(views(lines@), old(cursors)@, skip as int));
    }
}

} // verus!
