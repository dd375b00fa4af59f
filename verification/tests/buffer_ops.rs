use edit_core::buffer::{Error, TextBuffer};
use edit_core::cursor::Cursor;

fn chars(s: &str) -> Vec<char> {
    s.chars().collect()
}

fn line(buf: &TextBuffer, i: usize) -> String {
    buf.lines()[i].iter().collect()
}

fn caret(line: usize, byte: usize, chr: usize) -> Cursor {
    Cursor {
        start_line: line,
        start_byte: byte,
        start_character: chr,
        end_line: line,
        end_byte: byte,
        end_character: chr,
    }
}

fn loaded(content: &str) -> TextBuffer {
    let mut buf = TextBuffer::new(Some("t.txt".to_string()), content.len());
    buf.load_content(chars(content), usize::MAX).unwrap();
    buf
}

fn plan_string(buf: &TextBuffer) -> Option<String> {
    buf.save_plan().map(|v| v.iter().collect())
}

#[test]
fn new_without_path_has_one_empty_line() {
    let buf = TextBuffer::new(None, 7);
    assert_eq!(buf.line_count(), 1);
    assert_eq!(line(&buf, 0), "\n");
    assert_eq!(buf.file_size(), 0);
    assert!(!buf.is_loaded());
    assert!(!buf.is_saved());
    assert!(buf.get_path().is_none());
    assert!(buf.get_cursors().is_empty());
}

#[test]
fn new_with_path_starts_empty_and_saved() {
    let buf = TextBuffer::new(Some("notes.txt".to_string()), 42);
    assert_eq!(buf.line_count(), 0);
    assert_eq!(buf.file_size(), 42);
    assert!(buf.is_saved());
    assert!(!buf.is_loaded());
    assert_eq!(buf.get_path().unwrap(), "notes.txt");
}

#[test]
fn load_splits_lines_keeping_terminators() {
    let buf = loaded("foo\nbar\n");
    assert!(buf.is_loaded());
    assert_eq!(buf.line_count(), 2);
    assert_eq!(line(&buf, 0), "foo\n");
    assert_eq!(line(&buf, 1), "bar\n");
}

#[test]
fn load_final_line_gains_terminator() {
    let buf = loaded("foo\nbar");
    assert_eq!(buf.line_count(), 2);
    assert_eq!(line(&buf, 0), "foo\n");
    assert_eq!(line(&buf, 1), "bar\n");
}

#[test]
fn load_empty_content_gives_no_lines() {
    let buf = loaded("");
    assert!(buf.is_loaded());
    assert_eq!(buf.line_count(), 0);
}

#[test]
fn load_keeps_empty_lines() {
    let buf = loaded("a\n\nb\n");
    assert_eq!(buf.line_count(), 3);
    assert_eq!(line(&buf, 0), "a\n");
    assert_eq!(line(&buf, 1), "\n");
    assert_eq!(line(&buf, 2), "b\n");
}

#[test]
fn load_over_ceiling_is_rejected_without_mutation() {
    let mut buf = TextBuffer::new(Some("t.txt".to_string()), 5);
    let r = buf.load_content(chars("hello"), 3);
    assert_eq!(r, Err(Error::BigFileSize));
    assert!(!buf.is_loaded());
    assert_eq!(buf.line_count(), 0);
    assert_eq!(buf.file_size(), 5);
}

#[test]
fn load_at_ceiling_succeeds() {
    let mut buf = TextBuffer::new(Some("t.txt".to_string()), 5);
    assert_eq!(buf.load_content(chars("hello"), 5), Ok(()));
    assert_eq!(line(&buf, 0), "hello\n");
}

#[test]
fn round_trip_exact_bytes() {
    let mut buf = loaded("alpha\nbeta\n");
    buf.remove_path();
    buf.set_path("out.txt".to_string());
    assert_eq!(plan_string(&buf), Some("alpha\nbeta\n".to_string()));
}

#[test]
fn round_trip_missing_final_terminator_gains_one() {
    let mut buf = loaded("alpha\nbeta");
    buf.remove_path();
    assert_eq!(plan_string(&buf), Some("alpha\nbeta\n".to_string()));
}

#[test]
fn save_is_a_no_op_while_saved() {
    let mut buf = loaded("abc\n");
    assert!(buf.is_saved());
    assert_eq!(buf.save_plan(), None);
    assert!(buf.set_cursors(vec![caret(0, 1, 1)]));
    assert!(buf.write_character('x'));
    assert!(!buf.is_saved());
    assert_eq!(plan_string(&buf), Some("axbc\n".to_string()));
    buf.mark_saved();
    assert!(buf.is_saved());
    assert_eq!(buf.save_plan(), None);
}

#[test]
fn remove_path_marks_unsaved() {
    let mut buf = loaded("abc\n");
    assert!(buf.is_saved());
    buf.remove_path();
    assert!(buf.get_path().is_none());
    assert!(!buf.is_saved());
}

#[test]
fn set_path_replaces_the_path() {
    let mut buf = TextBuffer::new(None, 0);
    buf.set_path("elsewhere.txt".to_string());
    assert_eq!(buf.get_path().unwrap(), "elsewhere.txt");
}

#[test]
fn set_cursors_accepts_valid_cursors() {
    let mut buf = loaded("foo\nbar\n");
    assert!(buf.set_cursors(vec![caret(0, 2, 2), caret(1, 0, 0)]));
    assert_eq!(buf.get_cursors().len(), 2);
}

#[test]
fn set_cursors_rejects_out_of_range_line() {
    let mut buf = loaded("foo\n");
    assert!(buf.set_cursors(vec![caret(0, 1, 1)]));
    assert!(!buf.set_cursors(vec![caret(5, 0, 0)]));
    assert_eq!(buf.get_cursors(), &[caret(0, 1, 1)]);
}

#[test]
fn set_cursors_rejects_byte_off_boundary() {
    let mut buf = loaded("\u{e9}a\n");
    assert!(!buf.set_cursors(vec![caret(0, 1, 1)]));
    assert!(buf.set_cursors(vec![caret(0, 2, 1)]));
}

#[test]
fn set_cursors_rejects_column_past_content() {
    let mut buf = loaded("ab\n");
    assert!(!buf.set_cursors(vec![caret(0, 3, 3)]));
    assert!(buf.set_cursors(vec![caret(0, 2, 2)]));
}

#[test]
fn cursor_default_is_buffer_start() {
    let c: Cursor = Default::default();
    assert_eq!(c, caret(0, 0, 0));
    assert!(c.is_atomic());
}

#[test]
fn selection_is_not_atomic() {
    let c = Cursor {
        start_line: 0,
        start_byte: 1,
        start_character: 1,
        end_line: 0,
        end_byte: 3,
        end_character: 3,
    };
    assert!(!c.is_atomic());
}
