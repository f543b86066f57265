//! A multi-cursor plain-text editing engine: a line buffer, cursor sets with
//! deterministic merging, grapheme- and word-aware navigation, bottom-up
//! multi-cursor edits and conversions between (line, column), flat UTF-8 and
//! UTF-16 offsets.

pub mod position;
pub mod preferences;
pub mod segment;
pub mod signals;
pub mod utf16;
pub mod utf8_facts;
pub mod buffer;
pub mod cursors;
pub mod edit;
pub mod editor;
pub mod ime;
pub mod navigation;
