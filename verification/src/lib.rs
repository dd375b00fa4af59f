//! A text-editing engine: an in-memory representation of a file's contents as
//! discrete lines, plus a set of independently addressable cursors (carets or
//! range selections) that support movement and single-character edits.
//!
//! Lines are stored as sequences of codepoints, each line carrying its trailing
//! terminator (including the final line). Every cursor tracks a position three
//! ways at once -- line index, byte offset within the line's UTF-8 encoding,
//! and codepoint column -- and the buffer keeps the three mutually consistent
//! across every operation.
//!
//! File input and output live outside this crate: the surrounding program reads
//! a file into codepoints and hands them to [`buffer::TextBuffer::load_content`],
//! and writes back the bytes that [`buffer::TextBuffer::save_plan`] returns.

pub mod buffer;
pub mod cursor;
pub mod edit;
pub mod movement;
pub mod text;
