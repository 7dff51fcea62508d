//! Editing core of a terminal-based text editor: an in-memory line buffer
//! with insertion, deletion and search, plus a syntax-highlighting tokenizer
//! that classifies line content for display.
//!
//! Line text is modelled as a sequence of Unicode scalar values (`Vec<char>`),
//! so every column index is a character index, never a byte offset.

pub mod chars;
pub mod document;
pub mod filetype;
pub mod highlighting;
pub mod position;
pub mod row;
