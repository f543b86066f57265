//! Pure position transforms: a new position from an old one and the lines.
use vstd::prelude::*;
use crate::buffer::{lines_of, lines_valid, on_boundary, valid_pos};
use vstd::utf8::{is_char_boundary, is_char_boundary_start_end_of_seq, valid_utf8};
use crate::position::CursorPosition;
use crate::segment::{
    lemma_searches_among_offsets, line_segments, offsets_increase, next_boundary, next_start_in, next_word_boundary,
    prev_boundary, prev_start_in, prev_word_boundary, segments_of, word_end_scan, word_start_seek,
};

verus! {

/// The start of the grapheme cluster before `col`.
pub open spec fn prev_grapheme(line: Seq<u8>, col: int) -> int {
    prev_start_in(segments_of(line), col, segments_of(line).len() as int)
}

/// The start of the grapheme cluster after `col`, at most the end of the line.
pub open spec fn next_grapheme(line: Seq<u8>, col: int) -> int {
    let n = next_start_in(segments_of(line), col, line.len() as int, 0);
    if n <= line.len() { n } else { line.len() as int }
}

/// The start of the word run before `col`, or 0.
pub open spec fn prev_word(line: Seq<u8>, col: int) -> int {
    word_start_seek(segments_of(line), col, segments_of(line).len() as int)
}

/// The start of the next word after `col`, at most the end of the line.
pub open spec fn next_word(line: Seq<u8>, col: int) -> int {
    let n = word_end_scan(segments_of(line), col, line.len() as int, 0, true);
    if n <= line.len() { n } else { line.len() as int }
}

/// A movement of one caret that does not depend on layout.
#[derive(Clone, Copy, Debug, PartialEq, Eq, Structural)]
pub enum Motion {
    Left,
    Right,
    WordLeft,
    WordRight,
    Home,
    End,
}

/// Where `m` takes the caret at `p`. Character and word moves wrap to the
/// neighbouring line at a line's edge and stay put at the document's edges.
pub open spec fn moved(ls: Seq<Seq<u8>>, m: Motion, p: CursorPosition) -> CursorPosition {
    let line = ls[p.line as int];
    match m {
        Motion::Left | Motion::WordLeft => if p.col > 0 {
            CursorPosition {
                line: p.line,
                col: (if m == Motion::Left { prev_grapheme(line, p.col as int) } else { prev_word(line, p.col as int) }) as usize,
            }
        } else if p.line > 0 {
            CursorPosition { line: (p.line - 1) as usize, col: ls[p.line - 1].len() as usize }
        } else {
            p
        },
        Motion::Right | Motion::WordRight => if p.col < line.len() {
            CursorPosition {
                line: p.line,
                col: (if m == Motion::Right { next_grapheme(line, p.col as int) } else { next_word(line, p.col as int) }) as usize,
            }
        } else if p.line + 1 < ls.len() {
            CursorPosition { line: (p.line + 1) as usize, col: 0 }
        } else {
            p
        },
        Motion::Home => CursorPosition { line: p.line, col: 0 },
        Motion::End => CursorPosition { line: p.line, col: line.len() as usize },
    }
}

/// Start of the grapheme cluster before `col` in `line`.
pub fn prev_grapheme_boundary(line: &Vec<u8>, col: usize) -> (r: usize)
    ensures
        r == prev_grapheme(line@, col as int),
        col > 0 ==> r < col,
        valid_utf8(line@) && col <= line@.len() ==> is_char_boundary(line@, r as int),
        offsets_increase(segments_of(line@)),
        forall|j: int| 0 <= j < segments_of(line@).len() && (#[trigger] segments_of(line@)[j]).0 < col
            ==> segments_of(line@)[j].0 <= r,
{
    let segs = line_segments(line);
    let r = prev_boundary(&segs, col);
    proof {
        lemma_searches_among_offsets(segs@, col as int, line@.len() as int);
        if valid_utf8(line@) {
            is_char_boundary_start_end_of_seq(line@);
        }
    }
    r
}

/// Start of the word run before `col` in `line`, or 0.
pub fn prev_word_start(line: &Vec<u8>, col: usize) -> (r: usize)
    ensures
        r == prev_word(line@, col as int),
        col > 0 ==> r < col,
        valid_utf8(line@) && col <= line@.len() ==> is_char_boundary(line@, r as int),
{
    let segs = line_segments(line);
    let r = prev_word_boundary(&segs, col);
    proof {
        lemma_searches_among_offsets(segs@, col as int, line@.len() as int);
        if valid_utf8(line@) {
            is_char_boundary_start_end_of_seq(line@);
        }
    }
    r
}

/// Start of the word after `col` in `line`, at most its end.
pub fn next_word_start(line: &Vec<u8>, col: usize) -> (r: usize)
    ensures
        r == next_word(line@, col as int),
        r <= line@.len(),
        valid_utf8(line@) ==> is_char_boundary(line@, r as int),
{
    let segs = line_segments(line);
    let n = next_word_boundary(&segs, col, line.len());
    proof {
        lemma_searches_among_offsets(segs@, col as int, line@.len() as int);
        if valid_utf8(line@) {
            is_char_boundary_start_end_of_seq(line@);
        }
    }
    if n <= line.len() { n } else { line.len() }
}

/// Start of the grapheme cluster after `col` in `line`, at most its end.
pub fn next_grapheme_boundary(line: &Vec<u8>, col: usize) -> (r: usize)
    ensures
        r == next_grapheme(line@, col as int),
        r <= line@.len(),
        valid_utf8(line@) ==> is_char_boundary(line@, r as int),
        offsets_increase(segments_of(line@)),
        forall|j: int| 0 <= j < segments_of(line@).len() && (#[trigger] segments_of(line@)[j]).0 > col
            ==> r <= segments_of(line@)[j].0,
{
    let segs = line_segments(line);
    let n = next_boundary(&segs, col, line.len());
    proof {
        lemma_searches_among_offsets(segs@, col as int, line@.len() as int);
        if valid_utf8(line@) {
            is_char_boundary_start_end_of_seq(line@);
        }
    }
    if n <= line.len() { n } else { line.len() }
}

/// Where `m` takes the caret at `pos`.
pub fn apply_motion(lines: &Vec<Vec<u8>>, m: Motion, pos: CursorPosition) -> (r: CursorPosition)
    requires
        valid_pos(lines_of(lines@), pos),
    ensures
        r == moved(lines_of(lines@), m, pos),
        valid_pos(lines_of(lines@), r),
        lines_valid(lines_of(lines@)) ==> on_boundary(lines_of(lines@), r),
{
    let line = &lines[pos.line];
    let len = line.len();
    proof {
        if lines_valid(lines_of(lines@)) {
            let ls = lines_of(lines@);
            assert(valid_utf8(ls[pos.line as int]));
            is_char_boundary_start_end_of_seq(ls[pos.line as int]);
            if pos.line > 0 {
                assert(valid_utf8(ls[pos.line - 1]));
                is_char_boundary_start_end_of_seq(ls[pos.line - 1]);
            }
            if pos.line + 1 < ls.len() {
                assert(valid_utf8(ls[pos.line + 1]));
                is_char_boundary_start_end_of_seq(ls[pos.line + 1]);
            }
        }
    }
    match m {
        Motion::Left | Motion::WordLeft => {
            if pos.col > 0 {
                let col = if m == Motion::Left {
                    prev_grapheme_boundary(line, pos.col)
                } else {
                    prev_word_start(line, pos.col)
                };
                CursorPosition::new(pos.line, col)
            } else if pos.line > 0 {
                CursorPosition::new(pos.line - 1, lines[pos.line - 1].len())
            } else {
                pos
            }
        },
        Motion::Right | Motion::WordRight => {
            if pos.col < len {
                let col = if m == Motion::Right {
                    next_grapheme_boundary(line, pos.col)
                } else {
                    next_word_start(line, pos.col)
                };
                CursorPosition::new(pos.line, col)
            } else if pos.line < lines.len() - 1 {
                CursorPosition::new(pos.line + 1, 0)
            } else {
                pos
            }
        },
        Motion::Home => CursorPosition::new(pos.line, 0),
        Motion::End => CursorPosition::new(pos.line, len),
    }
}

pub fn position_left(lines: &Vec<Vec<u8>>, pos: CursorPosition) -> (r: CursorPosition)
    requires
        valid_pos(lines_of(lines@), pos),
    ensures
        r == moved(lines_of(lines@), Motion::Left, pos),
{
    apply_motion(lines, Motion::Left, pos)
}

pub fn position_right(lines: &Vec<Vec<u8>>, pos: CursorPosition) -> (r: CursorPosition)
    requires
        valid_pos(lines_of(lines@), pos),
    ensures
        r == moved(lines_of(lines@), Motion::Right, pos),
{
    apply_motion(lines, Motion::Right, pos)
}

pub fn position_word_left(lines: &Vec<Vec<u8>>, pos: CursorPosition) -> (r: CursorPosition)
    requires
        valid_pos(lines_of(lines@), pos),
    ensures
        r == moved(lines_of(lines@), Motion::WordLeft, pos),
{
    apply_motion(lines, Motion::WordLeft, pos)
}

pub fn position_word_right(lines: &Vec<Vec<u8>>, pos: CursorPosition) -> (r: CursorPosition)
    requires
        valid_pos(lines_of(lines@), pos),
    ensures
        r == moved(lines_of(lines@), Motion::WordRight, pos),
{
    apply_motion(lines, Motion::WordRight, pos)
}

} // verus!
