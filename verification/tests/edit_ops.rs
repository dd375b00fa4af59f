use edit_core::buffer::TextBuffer;
use edit_core::cursor::Cursor;
use edit_core::edit::{BACKSPACE, DEL};
use edit_core::movement::Move;

fn chars(s: &str) -> Vec<char> {
    s.chars().collect()
}

fn line(buf: &TextBuffer, i: usize) -> String {
    buf.lines()[i].iter().collect()
}

fn caret(line: usize, byte: usize, chr: usize) -> Cursor {
    Cursor {
        start_line: line,
        start_byte: byte,
        start_character: chr,
        end_line: line,
        end_byte: byte,
        end_character: chr,
    }
}

fn sel(sl: usize, sb: usize, sc: usize, el: usize, eb: usize, ec: usize) -> Cursor {
    Cursor {
        start_line: sl,
        start_byte: sb,
        start_character: sc,
        end_line: el,
        end_byte: eb,
        end_character: ec,
    }
}

fn with_cursor(content: &str, c: Cursor) -> TextBuffer {
    let mut buf = TextBuffer::new(Some("t.txt".to_string()), content.len());
    buf.load_content(chars(content), usize::MAX).unwrap();
    assert!(buf.set_cursors(vec![c]));
    buf
}

#[test]
fn up_at_line_zero_collapses_to_start() {
    let mut buf = with_cursor("ab\ncd\n", caret(0, 1, 1));
    buf.move_cursors(Move::Up);
    assert_eq!(buf.get_cursors(), &[caret(0, 0, 0)]);
}

#[test]
fn down_at_last_line_moves_to_content_end() {
    let mut buf = with_cursor("ab\ncd\n", caret(1, 0, 0));
    buf.move_cursors(Move::Down);
    assert_eq!(buf.get_cursors(), &[caret(1, 2, 2)]);
}

#[test]
fn left_at_buffer_start_is_a_no_op() {
    let mut buf = with_cursor("ab\n", caret(0, 0, 0));
    buf.move_cursors(Move::Left);
    assert_eq!(buf.get_cursors(), &[caret(0, 0, 0)]);
}

#[test]
fn right_at_buffer_end_is_a_no_op() {
    let mut buf = with_cursor("ab\ncd\n", caret(1, 2, 2));
    buf.move_cursors(Move::Right);
    assert_eq!(buf.get_cursors(), &[caret(1, 2, 2)]);
}

#[test]
fn vertical_movement_clamps_to_shorter_line() {
    let mut buf = with_cursor("hello\nx\n", caret(0, 4, 4));
    buf.move_cursors(Move::Down);
    assert_eq!(buf.get_cursors(), &[caret(1, 1, 1)]);
}

#[test]
fn vertical_movement_keeps_column_on_longer_line() {
    let mut buf = with_cursor("hello\nx\n", caret(1, 1, 1));
    buf.move_cursors(Move::Up);
    assert_eq!(buf.get_cursors(), &[caret(0, 1, 1)]);
}

#[test]
fn right_crosses_the_terminator() {
    let mut buf = with_cursor("ab\ncd\n", caret(0, 2, 2));
    buf.move_cursors(Move::Right);
    assert_eq!(buf.get_cursors(), &[caret(1, 0, 0)]);
}

#[test]
fn left_crosses_to_previous_content_end() {
    let mut buf = with_cursor("ab\ncd\n", caret(1, 0, 0));
    buf.move_cursors(Move::Left);
    assert_eq!(buf.get_cursors(), &[caret(0, 2, 2)]);
}

#[test]
fn right_steps_over_a_two_byte_codepoint() {
    let mut buf = with_cursor("\u{e9}a\n", caret(0, 0, 0));
    buf.move_cursors(Move::Right);
    assert_eq!(buf.get_cursors(), &[caret(0, 2, 1)]);
}

#[test]
fn left_collapses_a_selection_to_its_start() {
    let mut buf = with_cursor("hello\n", sel(0, 1, 1, 0, 4, 4));
    buf.move_cursors(Move::Left);
    assert_eq!(buf.get_cursors(), &[caret(0, 1, 1)]);
}

#[test]
fn right_collapses_a_selection_to_its_end() {
    let mut buf = with_cursor("hello\n", sel(0, 1, 1, 0, 4, 4));
    buf.move_cursors(Move::Right);
    assert_eq!(buf.get_cursors(), &[caret(0, 4, 4)]);
}

#[test]
fn insertion_at_caret_advances_byte_and_column() {
    let mut buf = with_cursor("hello\n", caret(0, 5, 5));
    assert!(buf.write_character('!'));
    assert_eq!(buf.line_count(), 1);
    assert_eq!(line(&buf, 0), "hello!\n");
    assert_eq!(buf.get_cursors(), &[caret(0, 6, 6)]);
    assert!(!buf.is_saved());
}

#[test]
fn backspace_at_column_zero_merges_lines() {
    let mut buf = with_cursor("foo\nbar\n", caret(1, 0, 0));
    assert!(buf.write_character(BACKSPACE));
    assert_eq!(buf.line_count(), 1);
    assert_eq!(line(&buf, 0), "foobar\n");
    assert_eq!(buf.get_cursors(), &[caret(0, 3, 3)]);
}

#[test]
fn newline_splits_the_line_at_the_caret() {
    let mut buf = with_cursor("abcdef\n", caret(0, 3, 3));
    assert!(buf.write_character('\n'));
    assert_eq!(buf.line_count(), 2);
    assert_eq!(line(&buf, 0), "abc\n");
    assert_eq!(line(&buf, 1), "def\n");
    assert_eq!(buf.get_cursors(), &[caret(1, 0, 0)]);
}

#[test]
fn stray_control_character_is_rejected_without_mutation() {
    let mut buf = with_cursor("abc\n", caret(0, 1, 1));
    assert!(!buf.write_character('\u{1}'));
    assert!(!buf.write_character('\u{9b}'));
    assert_eq!(line(&buf, 0), "abc\n");
    assert_eq!(buf.get_cursors(), &[caret(0, 1, 1)]);
    assert!(buf.is_saved());
}

#[test]
fn tab_is_an_accepted_control_character() {
    let mut buf = with_cursor("ab\n", caret(0, 1, 1));
    assert!(buf.write_character('\t'));
    assert_eq!(line(&buf, 0), "a\tb\n");
    assert_eq!(buf.get_cursors(), &[caret(0, 2, 2)]);
}

#[test]
fn backspace_removes_a_two_byte_codepoint() {
    let mut buf = with_cursor("h\u{e9}llo\n", caret(0, 3, 2));
    assert!(buf.write_character(BACKSPACE));
    assert_eq!(line(&buf, 0), "hllo\n");
    assert_eq!(buf.get_cursors(), &[caret(0, 1, 1)]);
}

#[test]
fn backspace_at_buffer_start_does_nothing() {
    let mut buf = with_cursor("abc\n", caret(0, 0, 0));
    assert!(buf.write_character(BACKSPACE));
    assert_eq!(line(&buf, 0), "abc\n");
    assert_eq!(buf.get_cursors(), &[caret(0, 0, 0)]);
    assert!(buf.is_saved());
}

#[test]
fn delete_removes_the_codepoint_after_the_caret() {
    let mut buf = with_cursor("ab\n", caret(0, 0, 0));
    assert!(buf.write_character(DEL));
    assert_eq!(line(&buf, 0), "b\n");
    assert_eq!(buf.get_cursors(), &[caret(0, 0, 0)]);
}

#[test]
fn delete_at_content_end_merges_with_next_line() {
    let mut buf = with_cursor("a\nb\n", caret(0, 1, 1));
    assert!(buf.write_character(DEL));
    assert_eq!(buf.line_count(), 1);
    assert_eq!(line(&buf, 0), "ab\n");
    assert_eq!(buf.get_cursors(), &[caret(0, 1, 1)]);
}

#[test]
fn delete_at_buffer_end_does_nothing() {
    let mut buf = with_cursor("ab\n", caret(0, 2, 2));
    assert!(buf.write_character(DEL));
    assert_eq!(line(&buf, 0), "ab\n");
    assert!(buf.is_saved());
}

#[test]
fn typed_character_replaces_a_single_line_selection() {
    let mut buf = with_cursor("hello\n", sel(0, 1, 1, 0, 4, 4));
    assert!(buf.write_character('X'));
    assert_eq!(line(&buf, 0), "hXo\n");
    assert_eq!(buf.get_cursors(), &[caret(0, 2, 2)]);
}

#[test]
fn typed_character_replaces_a_multi_line_selection() {
    let mut buf = with_cursor("abc\ndef\nghi\n", sel(0, 1, 1, 2, 1, 1));
    assert!(buf.write_character('Z'));
    assert_eq!(buf.line_count(), 1);
    assert_eq!(line(&buf, 0), "aZhi\n");
    assert_eq!(buf.get_cursors(), &[caret(0, 2, 2)]);
}

#[test]
fn backspace_on_a_selection_deletes_just_the_selection() {
    let mut buf = with_cursor("hello\n", sel(0, 1, 1, 0, 4, 4));
    assert!(buf.write_character(BACKSPACE));
    assert_eq!(line(&buf, 0), "ho\n");
    assert_eq!(buf.get_cursors(), &[caret(0, 1, 1)]);
}

#[test]
fn newline_on_a_selection_deletes_then_splits() {
    let mut buf = with_cursor("hello\n", sel(0, 1, 1, 0, 4, 4));
    assert!(buf.write_character('\n'));
    assert_eq!(buf.line_count(), 2);
    assert_eq!(line(&buf, 0), "h\n");
    assert_eq!(line(&buf, 1), "o\n");
    assert_eq!(buf.get_cursors(), &[caret(1, 0, 0)]);
}

#[test]
fn two_carets_both_insert_in_order() {
    let mut buf = TextBuffer::new(Some("t.txt".to_string()), 3);
    buf.load_content(chars("ab\n"), usize::MAX).unwrap();
    assert!(buf.set_cursors(vec![caret(0, 0, 0), caret(0, 1, 1)]));
    assert!(buf.write_character('x'));
    assert_eq!(line(&buf, 0), "xxab\n");
    assert_eq!(buf.get_cursors(), &[caret(0, 1, 1), caret(0, 2, 2)]);
}

#[test]
fn later_cursor_is_clamped_after_lines_vanish() {
    let mut buf = TextBuffer::new(Some("t.txt".to_string()), 9);
    buf.load_content(chars("abc\ndefg\n"), usize::MAX).unwrap();
    assert!(buf.set_cursors(vec![sel(0, 1, 1, 1, 2, 2), caret(1, 4, 4)]));
    assert!(buf.write_character('Z'));
    assert_eq!(buf.line_count(), 1);
    assert_eq!(line(&buf, 0), "aZfgZ\n");
    assert_eq!(buf.get_cursors(), &[caret(0, 2, 2), caret(0, 5, 5)]);
}

#[test]
fn writing_with_no_cursors_changes_nothing() {
    let mut buf = TextBuffer::new(Some("t.txt".to_string()), 3);
    buf.load_content(chars("ab\n"), usize::MAX).unwrap();
    assert!(buf.write_character('x'));
    assert_eq!(line(&buf, 0), "ab\n");
    assert!(buf.is_saved());
    buf.move_cursors(Move::Up);
    assert_eq!(buf.line_count(), 1);
}

#[test]
fn editing_a_pathless_buffer() {
    let mut buf = TextBuffer::new(None, 0);
    assert!(buf.set_cursors(vec![caret(0, 0, 0)]));
    assert!(buf.write_character('a'));
    assert_eq!(line(&buf, 0), "a\n");
    assert_eq!(buf.get_cursors(), &[caret(0, 1, 1)]);
}
