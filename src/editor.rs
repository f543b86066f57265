//! The editor state: one line buffer and one cursor set, mutated only through
//! the operations below.
use vstd::prelude::*;
use vstd::string::StringSliceAdditionalSpecFns;
use vstd::utf8::{decode_utf8, encode_scalar, encode_utf8, encode_utf8_valid_utf8, valid_utf8_concat, is_char_boundary, is_char_boundary_start_end_of_seq, valid_utf8};
use crate::utf8_facts::{lemma_ascii_byte_valid, lemma_joined_valid, lemma_range_text_valid, lemma_split_valid};
use crate::buffer::{lemma_split_lines_nonempty, is_boundary, is_valid_utf8, lines_valid, on_boundary, snap_col, snap_to_boundary, flat_of, flat_text, lines_of, range_text, split_text, split_lines, text_in_range, valid_pos, append_range};
use crate::segment::{utf8_string};
use crate::cursors::{all_within, cursor_within, lemma_merged, merge_overlapping, merged, strictly_sorted};
use crate::edit::{edit_all, edits_from};
use crate::position::{Cursor, CursorPosition, end_of, pos_lt, selection_of, start_of};
use crate::navigation::{Motion, apply_motion, moved, next_grapheme, next_grapheme_boundary, prev_grapheme, prev_grapheme_boundary, prev_word};
use crate::segment::{line_segments, prev_word_boundary};
use crate::edit::{clamp_pos, clamp_position, lemma_clamp_on_boundary};

verus! {

/// Plain carets at the given positions.
pub open spec fn carets(ps: Seq<CursorPosition>) -> Seq<Cursor> {
    ps.map_values(|p: CursorPosition| Cursor { position: p, anchor: None })
}

/// A multi-cursor plain-text editor: lines of UTF-8 bytes and an ordered set of cursors.
pub struct MultiLineEditor {
    pub lines: Vec<Vec<u8>>,
    pub cursors: Vec<Cursor>,
    /// The flat byte range of text being composed by an input method, if any.
    pub marked_range: Option<(usize, usize)>,
    pub needs_scroll_to_cursor: bool,
    pub is_selecting: bool,
    pub word_wrap: bool,
    /// Bumped whenever the caret blink restarts; a blink step with an older epoch is stale.
    pub blink_epoch: usize,
    pub cursor_fading_in: bool,
}

impl MultiLineEditor {
    /// The buffer's lines as byte sequences.
    pub open spec fn text(&self) -> Seq<Seq<u8>> {
        lines_of(self.lines@)
    }

    /// At least one line; a non-empty cursor set, ordered by position without
    /// duplicates, every caret and anchor within the buffer.
    pub open spec fn wf(&self) -> bool {
        &&& self.lines@.len() >= 1
        &&& lines_valid(self.text())
        &&& self.cursors@.len() >= 1
        &&& strictly_sorted(self.cursors@)
        &&& all_within(self.cursors@, self.text())
    }

    /// Checks the well-formedness that every operation requires.
    pub fn is_well_formed(&self) -> (r: bool)
        ensures
            r == self.wf(),
    {
        let n = self.lines.len();
        if n == 0 || self.cursors.len() == 0 {
            return false;
        }
        let mut k: usize = 0;
        while k < n
            invariant
                k <= n == self.lines@.len(),
                forall|j: int| 0 <= j < k ==> valid_utf8(#[trigger] self.text()[j]),
            decreases n - k,
        {
            if !is_valid_utf8(self.lines[k].as_slice()) {
                assert(!valid_utf8(self.text()[k as int]));
                return false;
            }
            k += 1;
        }
        let mut i: usize = 0;
        while i < self.cursors.len()
            invariant
                i <= self.cursors@.len(),
                n == self.lines@.len(),
                n > 0,
                lines_valid(self.text()),
                forall|j: int| 0 <= j < i ==> cursor_within(#[trigger] self.cursors@[j], self.text()),
                forall|a: int, b: int| 0 <= a < b < i ==> pos_lt(#[trigger] self.cursors@[a].position, #[trigger] self.cursors@[b].position),
            decreases self.cursors@.len() - i,
        {
            let c = self.cursors[i];
            if i > 0 && !self.cursors[i - 1].position.precedes(&c.position) {
                return false;
            }
            if c.position.line >= n {
                return false;
            }
            assert(valid_utf8(self.text()[c.position.line as int]));
            if !is_boundary(&self.lines[c.position.line], c.position.col) {
                assert(!cursor_within(self.cursors@[i as int], self.text()));
                return false;
            }
            match c.anchor {
                Some(a) => {
                    if a.line >= n {
                        return false;
                    }
                    assert(valid_utf8(self.text()[a.line as int]));
                    if !is_boundary(&self.lines[a.line], a.col) {
                        assert(!cursor_within(self.cursors@[i as int], self.text()));
                        return false;
                    }
                },
                None => {},
            }
            proof {
                assert forall|a: int, b: int| 0 <= a < b < i + 1 implies pos_lt(
                    #[trigger] self.cursors@[a].position,
                    #[trigger] self.cursors@[b].position,
                ) by {
                    if b == i && a < i - 1 {
                        assert(pos_lt(self.cursors@[a].position, self.cursors@[i - 1].position));
                    }
                }
            }
            i += 1;
        }
        true
    }

    /// An empty document: one empty line and a caret at its start.
    pub fn new() -> (r: Self)
        ensures
            r.wf(),
            r.text() == seq![Seq::<u8>::empty()],
            r.cursors@ == seq![Cursor { position: CursorPosition { line: 0, col: 0 }, anchor: None }],
            r.marked_range is None,
    {
        let mut lines: Vec<Vec<u8>> = Vec::new();
        lines.push(Vec::new());
        let mut cursors: Vec<Cursor> = Vec::new();
        cursors.push(Cursor::new(0, 0));
        let r = MultiLineEditor {
            lines,
            cursors,
            marked_range: None,
            needs_scroll_to_cursor: false,
            is_selecting: false,
            word_wrap: false,
            blink_epoch: 0,
            cursor_fading_in: true,
        };
        proof {
            assert(r.text() =~= seq![Seq::<u8>::empty()]);
            is_char_boundary_start_end_of_seq(Seq::<u8>::empty());
        }
        r
    }

    /// Restarts the caret blink: fully visible, fading in, and a new epoch that
    /// makes any pending blink step stale.
    pub fn reset_cursor_blink(&mut self)
        ensures
            final(self).blink_epoch == old(self).blink_epoch.wrapping_add(1),
            final(self).cursor_fading_in,
            final(self).lines == old(self).lines,
            final(self).cursors == old(self).cursors,
            final(self).marked_range == old(self).marked_range,
            final(self).needs_scroll_to_cursor == old(self).needs_scroll_to_cursor,
    {
        self.blink_epoch = self.blink_epoch.wrapping_add(1);
        self.cursor_fading_in = true;
    }

    /// Whether the blink loop started at `epoch` is still the live one.
    pub fn blink_is_current(&self, epoch: usize) -> (r: bool)
        ensures
            r == (epoch == self.blink_epoch),
    {
        epoch == self.blink_epoch
    }

    /// One step of the blink loop started at `epoch`: `None` when a newer reset
    /// made it stale, else the new fading direction.
    pub fn blink_step(&mut self, epoch: usize) -> (r: Option<bool>)
        ensures
            epoch != old(self).blink_epoch ==> r is None && *final(self) == *old(self),
            epoch == old(self).blink_epoch ==> r == Some(!old(self).cursor_fading_in)
                && final(self).cursor_fading_in == !old(self).cursor_fading_in
                && final(self).blink_epoch == old(self).blink_epoch
                && final(self).lines == old(self).lines
                && final(self).cursors == old(self).cursors,
    {
        if epoch != self.blink_epoch {
            return None;
        }
        self.cursor_fading_in = !self.cursor_fading_in;
        Some(self.cursor_fading_in)
    }

    /// Replaces the document by `text` cut at its newlines, all of it selected,
    /// or by an empty document when there is no text.
    pub fn reset_with_text(&mut self, text: Option<String>)
        ensures
            final(self).wf(),
            final(self).marked_range is None,
            match text {
                Some(t) => {
                    let ls = split_lines(encode_utf8(t@));
                    &&& final(self).text() == ls
                    &&& final(self).cursors@ == seq![Cursor {
                        position: CursorPosition { line: (ls.len() - 1) as usize, col: ls.last().len() as usize },
                        anchor: Some(CursorPosition { line: 0, col: 0 }),
                    }]
                },
                None => {
                    &&& final(self).text() == seq![Seq::<u8>::empty()]
                    &&& final(self).cursors@ == seq![Cursor { position: CursorPosition { line: 0, col: 0 }, anchor: None }]
                },
            },
    {
        match text {
            Some(t) => {
                let new_lines = split_text(t.as_str().as_bytes());
                proof {
                    lemma_split_lines_nonempty(encode_utf8(t@));
                    encode_utf8_valid_utf8(t@);
                    lemma_split_valid(encode_utf8(t@));
                    let ls = split_lines(encode_utf8(t@));
                    assert(valid_utf8(ls[0]));
                    assert(valid_utf8(ls[ls.len() - 1]));
                    is_char_boundary_start_end_of_seq(ls[0]);
                    is_char_boundary_start_end_of_seq(ls[ls.len() - 1]);
                }
                let last_line = new_lines.len() - 1;
                let last_col = new_lines[last_line].len();
                self.lines = new_lines;
                let mut cursors: Vec<Cursor> = Vec::new();
                cursors.push(Cursor { position: CursorPosition::new(last_line, last_col), anchor: Some(CursorPosition::new(0, 0)) });
                self.cursors = cursors;
            },
            None => {
                let mut lines: Vec<Vec<u8>> = Vec::new();
                lines.push(Vec::new());
                self.lines = lines;
                let mut cursors: Vec<Cursor> = Vec::new();
                cursors.push(Cursor::new(0, 0));
                self.cursors = cursors;
                proof {
                    assert(self.text() =~= seq![Seq::<u8>::empty()]);
                    is_char_boundary_start_end_of_seq(Seq::<u8>::empty());
                }
            },
        }
        self.marked_range = None;
        self.reset_cursor_blink();
    }

    /// Switches soft wrapping of long lines on or off.
    pub fn toggle_word_wrap(&mut self)
        ensures
            final(self).word_wrap == !old(self).word_wrap,
            final(self).lines == old(self).lines,
            final(self).cursors == old(self).cursors,
    {
        self.word_wrap = !self.word_wrap;
    }

    pub fn has_multiple_cursors(&self) -> (r: bool)
        ensures
            r == (self.cursors@.len() > 1),
    {
        self.cursors.len() > 1
    }

    /// Keeps only the first cursor, as a plain caret.
    pub fn collapse_to_primary_cursor(&mut self)
        requires
            old(self).wf(),
        ensures
            final(self).wf(),
            final(self).text() == old(self).text(),
            final(self).cursors@ == seq![Cursor { position: old(self).cursors@[0].position, anchor: None }],
    {
        self.cursors.truncate(1);
        let p = self.cursors[0].position;
        self.cursors.set(0, Cursor { position: p, anchor: None });
        proof {
            assert(self.cursors@ =~= seq![Cursor { position: p, anchor: None }]);
        }
        self.reset_cursor_blink();
    }

    /// Selects the whole document with a single cursor at its end.
    pub fn select_all(&mut self)
        requires
            old(self).wf(),
        ensures
            final(self).wf(),
            final(self).text() == old(self).text(),
            final(self).cursors@ == seq![Cursor {
                position: CursorPosition {
                    line: (old(self).text().len() - 1) as usize,
                    col: old(self).text().last().len() as usize,
                },
                anchor: Some(CursorPosition { line: 0, col: 0 }),
            }],
    {
        let last_line = self.lines.len() - 1;
        let last_col = self.lines[last_line].len();
        proof {
            self.lemma_line_ends(0);
            self.lemma_line_ends(last_line as int);
        }
        let mut cursors: Vec<Cursor> = Vec::new();
        cursors.push(Cursor { position: CursorPosition::new(last_line, last_col), anchor: Some(CursorPosition::new(0, 0)) });
        self.cursors = cursors;
    }

    /// Both ends of every line are character boundaries.
    pub proof fn lemma_line_ends(&self, l: int)
        requires
            lines_valid(self.text()),
            0 <= l < self.text().len(),
        ensures
            is_char_boundary(self.text()[l], 0),
            is_char_boundary(self.text()[l], self.text()[l].len() as int),
            snap_col(self.text()[l], self.text()[l].len() as int) == self.text()[l].len(),
            snap_col(self.text()[l], 0) == 0,
    {
        assert(valid_utf8(self.text()[l]));
        is_char_boundary_start_end_of_seq(self.text()[l]);
    }

    /// Replaces every cursor's span by `t`, the last cursor first, then rebuilds
    /// the cursor set from the ends of the inserted texts.
    fn apply_bytes(&mut self, t: &[u8])
        requires
            old(self).lines@.len() >= 1,
            lines_valid(old(self).text()),
            valid_utf8(t@),
            old(self).cursors@.len() >= 1,
        ensures
            final(self).wf(),
            final(self).text() == edits_from(old(self).text(), old(self).cursors@, 0, t@).0,
            final(self).cursors@ == merged(carets(edits_from(old(self).text(), old(self).cursors@, 0, t@).1)),
            final(self).marked_range is None,
            final(self).needs_scroll_to_cursor,
    {
        let recorded = edit_all(&mut self.lines, &self.cursors, t);
        let mut cs: Vec<Cursor> = Vec::new();
        let mut i: usize = 0;
        while i < recorded.len()
            invariant
                i <= recorded@.len(),
                cs@ == carets(recorded@.subrange(0, i as int)),
            decreases recorded@.len() - i,
        {
            cs.push(Cursor { position: recorded[i], anchor: None });
            proof {
                assert(carets(recorded@.subrange(0, i + 1)) =~= cs@);
            }
            i += 1;
        }
        proof {
            assert(recorded@.subrange(0, recorded@.len() as int) =~= recorded@);
            assert(all_within(cs@, self.text())) by {
                assert forall|j: int| 0 <= j < cs@.len() implies cursor_within(#[trigger] cs@[j], self.text()) by {
                    assert(on_boundary(self.text(), recorded@[j]));
                }
            }
            lemma_merged(cs@, self.text());
        }
        self.cursors = merge_overlapping(&cs);
        self.marked_range = None;
        self.needs_scroll_to_cursor = true;
        self.reset_cursor_blink();
    }

    /// Replaces every cursor's selection (or inserts at every caret) with
    /// `text`, the last cursor first so that earlier positions stay put; each
    /// cursor ends as a caret after its inserted text, and coincident carets merge.
    /// Each span is taken in the text as already edited after it, clamped into
    /// it, so selections that overlap a later cursor cut what that edit left.
    pub fn insert_text_at_cursors(&mut self, text: &str)
        requires
            old(self).wf(),
        ensures
            final(self).wf(),
            final(self).text() == edits_from(old(self).text(), old(self).cursors@, 0, text.spec_bytes()).0,
            final(self).cursors@ == merged(carets(edits_from(old(self).text(), old(self).cursors@, 0, text.spec_bytes()).1)),
            final(self).marked_range is None,
            final(self).needs_scroll_to_cursor,
    {
        proof {
            encode_utf8_valid_utf8(text@);
        }
        self.apply_bytes(text.as_bytes());
    }

    /// Breaks the line at every cursor.
    pub fn enter(&mut self)
        requires
            old(self).wf(),
        ensures
            final(self).wf(),
            final(self).text() == edits_from(old(self).text(), old(self).cursors@, 0, seq![10u8]).0,
            final(self).cursors@ == merged(carets(edits_from(old(self).text(), old(self).cursors@, 0, seq![10u8]).1)),
    {
        let nl = "\n";
        proof {
            reveal_strlit("\n");
            let c = '\n';
            assert(nl@ =~= seq![c]);
            assert((c as u32) == 10u32);
            assert(((10u32 & 0x7F) as u8) == 10u8) by (bit_vector);
            assert(seq![c].drop_first() =~= Seq::<char>::empty());
            assert(encode_utf8(Seq::<char>::empty()) =~= Seq::<u8>::empty());
            assert(encode_scalar(10u32) =~= seq![10u8]);
            assert(encode_utf8(seq![c]) == encode_scalar(seq![c][0] as u32) + encode_utf8(seq![c].drop_first()));
            assert(encode_utf8(seq![c]) =~= seq![10u8]);
        }
        self.insert_text_at_cursors(nl);
    }
}

/// How one cursor changes under a cursor-set operation that leaves the text alone.
#[derive(Clone, Copy, Debug, PartialEq, Eq, Structural)]
pub enum Reshape {
    /// Move the caret and drop the selection.
    Move(Motion),
    /// Move the caret and keep (or start) the selection from the old caret.
    Select(Motion),
    /// Drop the selection, keeping its earlier end.
    CollapseToStart,
    /// Drop the selection, keeping its later end.
    CollapseToEnd,
    /// Put the caret at a fixed place, keeping (or starting) the selection.
    SelectTo(CursorPosition),
}

/// The anchor a selecting move keeps: the existing one, or the old caret.
pub open spec fn anchor_or_caret(c: Cursor) -> CursorPosition {
    match c.anchor {
        Some(a) => a,
        None => c.position,
    }
}

pub open spec fn reshaped(ls: Seq<Seq<u8>>, r: Reshape, c: Cursor) -> Cursor {
    match r {
        Reshape::Move(m) => Cursor { position: moved(ls, m, c.position), anchor: None },
        Reshape::Select(m) => Cursor { position: moved(ls, m, c.position), anchor: Some(anchor_or_caret(c)) },
        Reshape::CollapseToStart => Cursor { position: start_of(c), anchor: None },
        Reshape::CollapseToEnd => Cursor { position: end_of(c), anchor: None },
        Reshape::SelectTo(p) => Cursor { position: p, anchor: Some(anchor_or_caret(c)) },
    }
}

/// The cursor set after reshaping every cursor and merging.
pub open spec fn reshaped_all(ls: Seq<Seq<u8>>, r: Reshape, cs: Seq<Cursor>) -> Seq<Cursor> {
    merged(cs.map_values(|c: Cursor| reshaped(ls, r, c)))
}

impl MultiLineEditor {
    /// Applies `r` to every cursor, then merges coincident cursors.
    pub fn reshape_each(&mut self, r: Reshape)
        requires
            old(self).wf(),
            r matches Reshape::SelectTo(p) ==> on_boundary(old(self).text(), p),
        ensures
            final(self).wf(),
            final(self).text() == old(self).text(),
            final(self).cursors@ == reshaped_all(old(self).text(), r, old(self).cursors@),
            final(self).marked_range == old(self).marked_range,
    {
        let ghost ls = self.text();
        let ghost cs = self.cursors@;
        let mut out: Vec<Cursor> = Vec::new();
        let mut i: usize = 0;
        while i < self.cursors.len()
            invariant
                self.wf(),
                self.text() == ls,
                self.cursors@ == cs,
                r matches Reshape::SelectTo(p) ==> on_boundary(ls, p),
                i <= cs.len(),
                out@ == cs.subrange(0, i as int).map_values(|c: Cursor| reshaped(ls, r, c)),
                all_within(out@, ls),
            decreases cs.len() - i,
        {
            let c = self.cursors[i];
            proof {
                assert(cursor_within(cs[i as int], ls));
            }
            let n = match r {
                Reshape::Move(m) => Cursor { position: apply_motion(&self.lines, m, c.position), anchor: None },
                Reshape::Select(m) => {
                    let a = match c.anchor { Some(a) => a, None => c.position };
                    Cursor { position: apply_motion(&self.lines, m, c.position), anchor: Some(a) }
                },
                Reshape::CollapseToStart => Cursor { position: c.selection_start(), anchor: None },
                Reshape::CollapseToEnd => Cursor { position: c.selection_end(), anchor: None },
                Reshape::SelectTo(p) => {
                    let a = match c.anchor { Some(a) => a, None => c.position };
                    Cursor { position: p, anchor: Some(a) }
                },
            };
            out.push(n);
            proof {
                assert(cs.subrange(0, i + 1).map_values(|c: Cursor| reshaped(ls, r, c)) =~= out@);
            }
            i += 1;
        }
        proof {
            assert(cs.subrange(0, cs.len() as int) =~= cs);
            lemma_merged(out@, ls);
        }
        self.cursors = merge_overlapping(&out);
    }

    /// Moves every caret by `m`, dropping selections.
    pub fn move_each_cursor(&mut self, m: Motion)
        requires
            old(self).wf(),
        ensures
            final(self).wf(),
            final(self).text() == old(self).text(),
            final(self).cursors@ == reshaped_all(old(self).text(), Reshape::Move(m), old(self).cursors@),
    {
        self.reshape_each(Reshape::Move(m));
        self.needs_scroll_to_cursor = true;
        self.reset_cursor_blink();
    }

    /// Extends every selection by moving its caret by `m`.
    pub fn select_each_cursor(&mut self, m: Motion)
        requires
            old(self).wf(),
        ensures
            final(self).wf(),
            final(self).text() == old(self).text(),
            final(self).cursors@ == reshaped_all(old(self).text(), Reshape::Select(m), old(self).cursors@),
    {
        self.reshape_each(Reshape::Select(m));
        self.needs_scroll_to_cursor = true;
    }

    /// Whether some cursor spans a selection.
    pub fn any_selection(&self) -> (r: bool)
        ensures
            r == exists|i: int| 0 <= i < self.cursors@.len() && (#[trigger] selection_of(self.cursors@[i])) is Some,
    {
        let mut i: usize = 0;
        while i < self.cursors.len()
            invariant
                i <= self.cursors@.len(),
                forall|j: int| 0 <= j < i ==> (#[trigger] selection_of(self.cursors@[j])) is None,
            decreases self.cursors@.len() - i,
        {
            if self.cursors[i].has_selection() {
                return true;
            }
            i += 1;
        }
        false
    }

    /// Left: collapses every selection to its start when any cursor has one;
    /// otherwise moves every caret one grapheme left.
    pub fn left(&mut self)
        requires
            old(self).wf(),
        ensures
            final(self).wf(),
            final(self).text() == old(self).text(),
            final(self).cursors@ == reshaped_all(
                old(self).text(),
                if exists|i: int| 0 <= i < old(self).cursors@.len() && (#[trigger] selection_of(old(self).cursors@[i])) is Some {
                    Reshape::CollapseToStart
                } else {
                    Reshape::Move(Motion::Left)
                },
                old(self).cursors@,
            ),
    {
        if self.any_selection() {
            self.reshape_each(Reshape::CollapseToStart);
            self.needs_scroll_to_cursor = true;
            self.reset_cursor_blink();
        } else {
            self.move_each_cursor(Motion::Left);
        }
    }

    /// Right: collapses every selection to its end when any cursor has one;
    /// otherwise moves every caret one grapheme right.
    pub fn right(&mut self)
        requires
            old(self).wf(),
        ensures
            final(self).wf(),
            final(self).text() == old(self).text(),
            final(self).cursors@ == reshaped_all(
                old(self).text(),
                if exists|i: int| 0 <= i < old(self).cursors@.len() && (#[trigger] selection_of(old(self).cursors@[i])) is Some {
                    Reshape::CollapseToEnd
                } else {
                    Reshape::Move(Motion::Right)
                },
                old(self).cursors@,
            ),
    {
        if self.any_selection() {
            self.reshape_each(Reshape::CollapseToEnd);
            self.needs_scroll_to_cursor = true;
            self.reset_cursor_blink();
        } else {
            self.move_each_cursor(Motion::Right);
        }
    }

    /// Replaces the cursor set by one caret at `pos`, clamped into the buffer.
    pub fn move_cursors_to(&mut self, pos: CursorPosition)
        requires
            old(self).wf(),
        ensures
            final(self).wf(),
            final(self).text() == old(self).text(),
            final(self).cursors@ == seq![Cursor { position: clamp_pos(old(self).text(), pos), anchor: None }],
    {
        let p = clamp_position(&self.lines, pos);
        let mut cs: Vec<Cursor> = Vec::new();
        cs.push(Cursor { position: p, anchor: None });
        self.cursors = cs;
        self.needs_scroll_to_cursor = true;
        self.reset_cursor_blink();
    }

    /// Moves the primary caret to `pos` (clamped), keeping or starting its
    /// selection; the set is merged again, as the caret may pass other cursors.
    pub fn select_primary_to(&mut self, pos: CursorPosition)
        requires
            old(self).wf(),
        ensures
            final(self).wf(),
            final(self).text() == old(self).text(),
            final(self).cursors@ == merged(old(self).cursors@.update(0, Cursor {
                position: clamp_pos(old(self).text(), pos),
                anchor: Some(anchor_or_caret(old(self).cursors@[0])),
            })),
    {
        let p = clamp_position(&self.lines, pos);
        let c = self.cursors[0];
        let a = match c.anchor { Some(a) => a, None => c.position };
        let mut cs = self.cursors.clone();
        proof {
            assert(cs@ =~= self.cursors@);
        }
        cs.set(0, Cursor { position: p, anchor: Some(a) });
        proof {
            assert(cursor_within(self.cursors@[0], self.text()));
            assert(all_within(cs@, self.text()));
            lemma_merged(cs@, self.text());
        }
        self.cursors = merge_overlapping(&cs);
        self.needs_scroll_to_cursor = true;
    }
}

/// What a deleting key removes from a caret that has no selection.
#[derive(Clone, Copy, Debug, PartialEq, Eq, Structural)]
pub enum Expansion {
    /// The grapheme before the caret, or the line break before its line.
    Backspace,
    /// The grapheme after the caret, or the line break after its line.
    DeleteForward,
    /// Everything from the start of the line to the caret.
    ToLineStart,
    /// Back to the start of the previous word, or the line break before its line.
    WordBackward,
}

/// The span that `k` removes around the caret at `p`, if any.
pub open spec fn expansion(ls: Seq<Seq<u8>>, k: Expansion, p: CursorPosition) -> Option<(CursorPosition, CursorPosition)> {
    let line = ls[p.line as int];
    let prev_end = if p.line > 0 { CursorPosition { line: (p.line - 1) as usize, col: ls[p.line - 1].len() as usize } } else { p };
    match k {
        Expansion::Backspace => if p.col == 0 {
            if p.line > 0 { Some((prev_end, p)) } else { None }
        } else {
            Some((CursorPosition { line: p.line, col: prev_grapheme(line, p.col as int) as usize }, p))
        },
        Expansion::DeleteForward => if p.col >= line.len() {
            if p.line + 1 < ls.len() { Some((p, CursorPosition { line: (p.line + 1) as usize, col: 0 })) } else { None }
        } else {
            Some((p, CursorPosition { line: p.line, col: next_grapheme(line, p.col as int) as usize }))
        },
        Expansion::ToLineStart => if p.col > 0 {
            Some((CursorPosition { line: p.line, col: 0 }, p))
        } else {
            None
        },
        Expansion::WordBackward => if p.col > 0 {
            Some((CursorPosition { line: p.line, col: prev_word(line, p.col as int) as usize }, p))
        } else if p.line > 0 {
            Some((prev_end, p))
        } else {
            None
        },
    }
}

/// A cursor without a selection selects what `k` removes; others stay as they are.
pub open spec fn expanded(ls: Seq<Seq<u8>>, k: Expansion, c: Cursor) -> Cursor {
    if selection_of(c) is None {
        match expansion(ls, k, c.position) {
            Some((s, e)) => Cursor { position: e, anchor: Some(s) },
            None => c,
        }
    } else {
        c
    }
}

pub open spec fn expanded_all(ls: Seq<Seq<u8>>, k: Expansion, cs: Seq<Cursor>) -> Seq<Cursor> {
    cs.map_values(|c: Cursor| expanded(ls, k, c))
}

/// The span that `k` removes around the caret at `p` (see `expansion`).
pub fn expand_at(lines: &Vec<Vec<u8>>, k: Expansion, p: CursorPosition) -> (r: Option<(CursorPosition, CursorPosition)>)
    requires
        valid_pos(lines_of(lines@), p),
    ensures
        r == expansion(lines_of(lines@), k, p),
{
    let line = &lines[p.line];
    let prev_end = if p.line > 0 { CursorPosition::new(p.line - 1, lines[p.line - 1].len()) } else { p };
    match k {
        Expansion::Backspace => if p.col == 0 {
            if p.line > 0 { Some((prev_end, p)) } else { None }
        } else {
            Some((CursorPosition::new(p.line, prev_grapheme_boundary(line, p.col)), p))
        },
        Expansion::DeleteForward => if p.col >= line.len() {
            if p.line < lines.len() - 1 { Some((p, CursorPosition::new(p.line + 1, 0))) } else { None }
        } else {
            Some((p, CursorPosition::new(p.line, next_grapheme_boundary(line, p.col))))
        },
        Expansion::ToLineStart => if p.col > 0 {
            Some((CursorPosition::new(p.line, 0), p))
        } else {
            None
        },
        Expansion::WordBackward => if p.col > 0 {
            let segs = line_segments(line);
            Some((CursorPosition::new(p.line, prev_word_boundary(&segs, p.col)), p))
        } else if p.line > 0 {
            Some((prev_end, p))
        } else {
            None
        },
    }
}

impl MultiLineEditor {
    /// Gives every cursor without a selection the span that `k` removes, then
    /// replaces all spans by `replacement` as `insert_text_at_cursors` does.
    pub fn edit_with_cursors(&mut self, k: Expansion, replacement: &str)
        requires
            old(self).wf(),
        ensures
            final(self).wf(),
            final(self).text() == edits_from(old(self).text(), expanded_all(old(self).text(), k, old(self).cursors@), 0, replacement.spec_bytes()).0,
            final(self).cursors@ == merged(carets(edits_from(old(self).text(), expanded_all(old(self).text(), k, old(self).cursors@), 0, replacement.spec_bytes()).1)),
    {
        let ghost ls = self.text();
        let ghost cs = self.cursors@;
        let mut out: Vec<Cursor> = Vec::new();
        let mut i: usize = 0;
        while i < self.cursors.len()
            invariant
                self.wf(),
                self.text() == ls,
                self.cursors@ == cs,
                i <= cs.len(),
                out@ == cs.subrange(0, i as int).map_values(|c: Cursor| expanded(ls, k, c)),
            decreases cs.len() - i,
        {
            let c = self.cursors[i];
            proof {
                assert(cursor_within(cs[i as int], ls));
            }
            let n = if !c.has_selection() {
                match expand_at(&self.lines, k, c.position) {
                    Some((s, e)) => Cursor { position: e, anchor: Some(s) },
                    None => c,
                }
            } else {
                c
            };
            out.push(n);
            proof {
                assert(cs.subrange(0, i + 1).map_values(|c: Cursor| expanded(ls, k, c)) =~= out@);
            }
            i += 1;
        }
        proof {
            assert(cs.subrange(0, cs.len() as int) =~= cs);
        }
        self.cursors = out;
        proof {
            encode_utf8_valid_utf8(replacement@);
        }
        self.apply_bytes(replacement.as_bytes());
    }

    pub fn backspace(&mut self)
        requires
            old(self).wf(),
        ensures
            final(self).wf(),
            final(self).text() == edits_from(old(self).text(), expanded_all(old(self).text(), Expansion::Backspace, old(self).cursors@), 0, seq![]).0,
            final(self).cursors@ == merged(carets(edits_from(old(self).text(), expanded_all(old(self).text(), Expansion::Backspace, old(self).cursors@), 0, seq![]).1)),
    {
        self.delete_with(Expansion::Backspace);
    }

    pub fn delete(&mut self)
        requires
            old(self).wf(),
        ensures
            final(self).wf(),
            final(self).text() == edits_from(old(self).text(), expanded_all(old(self).text(), Expansion::DeleteForward, old(self).cursors@), 0, seq![]).0,
            final(self).cursors@ == merged(carets(edits_from(old(self).text(), expanded_all(old(self).text(), Expansion::DeleteForward, old(self).cursors@), 0, seq![]).1)),
    {
        self.delete_with(Expansion::DeleteForward);
    }

    pub fn delete_to_start(&mut self)
        requires
            old(self).wf(),
        ensures
            final(self).wf(),
            final(self).text() == edits_from(old(self).text(), expanded_all(old(self).text(), Expansion::ToLineStart, old(self).cursors@), 0, seq![]).0,
            final(self).cursors@ == merged(carets(edits_from(old(self).text(), expanded_all(old(self).text(), Expansion::ToLineStart, old(self).cursors@), 0, seq![]).1)),
    {
        self.delete_with(Expansion::ToLineStart);
    }

    pub fn delete_word_backward(&mut self)
        requires
            old(self).wf(),
        ensures
            final(self).wf(),
            final(self).text() == edits_from(old(self).text(), expanded_all(old(self).text(), Expansion::WordBackward, old(self).cursors@), 0, seq![]).0,
            final(self).cursors@ == merged(carets(edits_from(old(self).text(), expanded_all(old(self).text(), Expansion::WordBackward, old(self).cursors@), 0, seq![]).1)),
    {
        self.delete_with(Expansion::WordBackward);
    }

    /// Removes what `k` selects at every caret, and every selection.
    fn delete_with(&mut self, k: Expansion)
        requires
            old(self).wf(),
        ensures
            final(self).wf(),
            final(self).text() == edits_from(old(self).text(), expanded_all(old(self).text(), k, old(self).cursors@), 0, seq![]).0,
            final(self).cursors@ == merged(carets(edits_from(old(self).text(), expanded_all(old(self).text(), k, old(self).cursors@), 0, seq![]).1)),
    {
        let empty = "";
        proof {
            reveal_strlit("");
            assert(empty@ =~= Seq::<char>::empty());
            assert(empty.spec_bytes() =~= Seq::<u8>::empty());
        }
        self.edit_with_cursors(k, empty);
    }
}

/// The selections of the first `n` cursors, in the cursors' order.
pub open spec fn selections_of(cs: Seq<Cursor>, n: int) -> Seq<(CursorPosition, CursorPosition)>
    decreases n,
{
    if n <= 0 || n > cs.len() {
        seq![]
    } else {
        match selection_of(cs[n - 1]) {
            Some(r) => selections_of(cs, n - 1).push(r),
            None => selections_of(cs, n - 1),
        }
    }
}

/// The first index from `k` on whose selection starts after `p`.
pub open spec fn first_starting_after(s: Seq<(CursorPosition, CursorPosition)>, p: CursorPosition, k: int) -> int
    decreases s.len() - k,
{
    if k < 0 || k >= s.len() {
        s.len() as int
    } else if pos_lt(p, s[k].0) {
        k
    } else {
        first_starting_after(s, p, k + 1)
    }
}

/// The selections ordered by start; selections with equal starts keep their order.
pub open spec fn by_start(s: Seq<(CursorPosition, CursorPosition)>) -> Seq<(CursorPosition, CursorPosition)>
    decreases s.len(),
{
    if s.len() == 0 {
        seq![]
    } else {
        let r = by_start(s.drop_last());
        r.insert(first_starting_after(r, s.last().0, 0), s.last())
    }
}

/// The texts of the first `n` selections, each joined to the one before by a
/// space when it starts on the line where that one ends, else by a newline.
pub open spec fn joined_selections(ls: Seq<Seq<u8>>, s: Seq<(CursorPosition, CursorPosition)>, n: int) -> Seq<u8>
    decreases n,
{
    if n <= 0 {
        seq![]
    } else if n == 1 {
        range_text(ls, s[0].0, s[0].1)
    } else {
        joined_selections(ls, s, n - 1) + seq![if s[n - 1].0.line == s[n - 2].1.line { 32u8 } else { 10u8 }]
            + range_text(ls, s[n - 1].0, s[n - 1].1)
    }
}

/// The text to hand on: the whole document when nothing is selected, else the
/// selected texts in document order.
pub open spec fn submit_text_of(ls: Seq<Seq<u8>>, cs: Seq<Cursor>) -> Seq<u8> {
    let sels = selections_of(cs, cs.len() as int);
    if sels.len() == 0 {
        flat_of(ls)
    } else {
        joined_selections(ls, by_start(sels), sels.len() as int)
    }
}

proof fn lemma_by_start_len(s: Seq<(CursorPosition, CursorPosition)>)
    ensures
        by_start(s).len() == s.len(),
        forall|i: int| 0 <= i < by_start(s).len() ==> exists|j: int| 0 <= j < s.len() && #[trigger] by_start(s)[i] == s[j],
    decreases s.len(),
{
    if s.len() > 0 {
        lemma_by_start_len(s.drop_last());
        let r = by_start(s.drop_last());
        lemma_first_after_bound(r, s.last().0, 0);
        let k = first_starting_after(r, s.last().0, 0);
        assert forall|i: int| 0 <= i < by_start(s).len() implies exists|j: int| 0 <= j < s.len() && #[trigger] by_start(s)[i] == s[j] by {
            if i < k {
                let j = choose|j: int| 0 <= j < s.drop_last().len() && r[i] == s.drop_last()[j];
                assert(by_start(s)[i] == s[j]);
            } else if i == k {
                assert(by_start(s)[i] == s[s.len() - 1]);
            } else {
                let j = choose|j: int| 0 <= j < s.drop_last().len() && r[i - 1] == s.drop_last()[j];
                assert(by_start(s)[i] == s[j]);
            }
        }
    }
}

proof fn lemma_first_after_bound(s: Seq<(CursorPosition, CursorPosition)>, p: CursorPosition, k: int)
    requires
        0 <= k <= s.len(),
    ensures
        k <= first_starting_after(s, p, k) <= s.len(),
    decreases s.len() - k,
{
    if k < s.len() && !pos_lt(p, s[k].0) {
        lemma_first_after_bound(s, p, k + 1);
    }
}

/// Joined selections between character boundaries are valid UTF-8.
proof fn lemma_joined_selections_valid(ls: Seq<Seq<u8>>, s: Seq<(CursorPosition, CursorPosition)>, n: int)
    requires
        lines_valid(ls),
        n <= s.len(),
        forall|i: int| 0 <= i < s.len() ==> on_boundary(ls, (#[trigger] s[i]).0) && on_boundary(ls, s[i].1)
            && pos_lt(s[i].0, s[i].1),
    ensures
        valid_utf8(joined_selections(ls, s, n)),
    decreases n,
{
    if n >= 1 {
        assert(on_boundary(ls, s[n - 1].0));
        lemma_range_text_valid(ls, s[n - 1].0, s[n - 1].1);
        if n == 1 {
        } else {
            lemma_joined_selections_valid(ls, s, n - 1);
            let sep: u8 = if s[n - 1].0.line == s[n - 2].1.line { 32u8 } else { 10u8 };
            lemma_ascii_byte_valid(sep);
            valid_utf8_concat(joined_selections(ls, s, n - 1), seq![sep]);
            valid_utf8_concat(joined_selections(ls, s, n - 1) + seq![sep], range_text(ls, s[n - 1].0, s[n - 1].1));
        }
    }
}

/// The text to hand on from a well-formed editor is valid UTF-8.
pub proof fn lemma_submit_valid(ls: Seq<Seq<u8>>, cs: Seq<Cursor>)
    requires
        ls.len() >= 1,
        lines_valid(ls),
        all_within(cs, ls),
    ensures
        valid_utf8(submit_text_of(ls, cs)),
{
    let sels = selections_of(cs, cs.len() as int);
    if sels.len() == 0 {
        lemma_joined_valid(ls, ls.len() as int);
    } else {
        lemma_selections_valid(cs, ls, cs.len() as int);
        lemma_by_start_len(sels);
        let o = by_start(sels);
        assert forall|i: int| 0 <= i < o.len() implies on_boundary(ls, (#[trigger] o[i]).0) && on_boundary(ls, o[i].1)
            && pos_lt(o[i].0, o[i].1) by {
            let j = choose|j: int| 0 <= j < sels.len() && o[i] == sels[j];
        }
        lemma_joined_selections_valid(ls, o, sels.len() as int);
    }
}

proof fn lemma_selections_valid(cs: Seq<Cursor>, ls: Seq<Seq<u8>>, n: int)
    requires
        all_within(cs, ls),
        0 <= n <= cs.len(),
    ensures
        forall|i: int| 0 <= i < selections_of(cs, n).len() ==> on_boundary(ls, (#[trigger] selections_of(cs, n)[i]).0)
            && on_boundary(ls, selections_of(cs, n)[i].1) && pos_lt(selections_of(cs, n)[i].0, selections_of(cs, n)[i].1),
        selections_of(cs, n).len() <= n,
    decreases n,
{
    if n > 0 {
        lemma_selections_valid(cs, ls, n - 1);
        assert(cursor_within(cs[n - 1], ls));
    }
}

impl MultiLineEditor {
    /// The text to hand on (see `submit_text_of`), as bytes.
    pub fn submit_bytes(&self) -> (r: Vec<u8>)
        requires
            self.wf(),
        ensures
            r@ == submit_text_of(self.text(), self.cursors@),
    {
        let ghost ls = self.text();
        let ghost cs = self.cursors@;
        let mut sels: Vec<(CursorPosition, CursorPosition)> = Vec::new();
        let mut i: usize = 0;
        while i < self.cursors.len()
            invariant
                i <= cs.len(),
                cs == self.cursors@,
                sels@ == selections_of(cs, i as int),
            decreases cs.len() - i,
        {
            match self.cursors[i].selection_range() {
                Some(r) => sels.push(r),
                None => {},
            }
            i += 1;
        }
        if sels.len() == 0 {
            return flat_text(&self.lines);
        }
        let ghost all = sels@;
        proof {
            lemma_selections_valid(cs, ls, cs.len() as int);
        }
        // Stable insertion by start position.
        let mut ordered: Vec<(CursorPosition, CursorPosition)> = Vec::new();
        let mut j: usize = 0;
        proof {
            assert(all.subrange(0, 0) =~= seq![]);
        }
        while j < sels.len()
            invariant
                j <= all.len(),
                sels@ == all,
                ordered@ == by_start(all.subrange(0, j as int)),
            decreases all.len() - j,
        {
            let x = sels[j];
            let ghost pre = all.subrange(0, j as int);
            proof {
                assert(all.subrange(0, j + 1).drop_last() =~= pre);
                lemma_first_after_bound(ordered@, x.0, 0);
            }
            let mut k: usize = 0;
            while k < ordered.len() && !x.0.precedes(&ordered[k].0)
                invariant
                    k <= ordered@.len(),
                    first_starting_after(ordered@, x.0, k as int) == first_starting_after(ordered@, x.0, 0),
                decreases ordered@.len() - k,
            {
                k += 1;
            }
            ordered.insert(k, x);
            j += 1;
        }
        proof {
            assert(all.subrange(0, all.len() as int) =~= all);
            lemma_by_start_len(all);
            assert forall|i: int| 0 <= i < ordered@.len() implies on_boundary(ls, (#[trigger] ordered@[i]).0)
                && on_boundary(ls, ordered@[i].1) && pos_lt(ordered@[i].0, ordered@[i].1) by {
                let j0 = choose|j0: int| 0 <= j0 < all.len() && #[trigger] by_start(all)[i] == all[j0];
                assert(ordered@[i] == all[j0]);
            }
        }
        let mut out: Vec<u8> = Vec::new();
        let mut m: usize = 0;
        while m < ordered.len()
            invariant
                m <= ordered@.len(),
                ordered@ == by_start(all),
                ordered@.len() == all.len(),
                ls == self.text(),
                forall|i: int| 0 <= i < ordered@.len() ==> on_boundary(ls, (#[trigger] ordered@[i]).0)
                    && on_boundary(ls, ordered@[i].1) && pos_lt(ordered@[i].0, ordered@[i].1),
                out@ == joined_selections(ls, ordered@, m as int),
            decreases ordered@.len() - m,
        {
            let (st, en) = ordered[m];
            if m > 0 {
                let sep: u8 = if st.line == ordered[m - 1].1.line { 32 } else { 10 };
                out.push(sep);
            }
            let piece = text_in_range(&self.lines, st, en);
            append_range(&mut out, &piece, 0, piece.len());
            proof {
                assert(piece@.subrange(0, piece@.len() as int) =~= piece@);
                assert(out@ =~= joined_selections(ls, ordered@, m + 1));
            }
            m += 1;
        }
        out
    }

    /// The text to hand on: the document, or the selections in document order,
    /// same-line neighbours joined by a space and others by a newline.
    pub fn get_submit_text(&self) -> (r: String)
        requires
            self.wf(),
        ensures
            r@ == decode_utf8(submit_text_of(self.text(), self.cursors@)),
    {
        let b = self.submit_bytes();
        proof {
            lemma_submit_valid(self.text(), self.cursors@);
        }
        utf8_string(b.as_slice())
    }
}

impl MultiLineEditor {
    /// Moves every caret to the start of the word before it.
    pub fn word_left(&mut self)
        requires
            old(self).wf(),
        ensures
            final(self).wf(),
            final(self).text() == old(self).text(),
            final(self).cursors@ == reshaped_all(old(self).text(), Reshape::Move(Motion::WordLeft), old(self).cursors@),
    {
        self.move_each_cursor(Motion::WordLeft);
    }

    /// Moves every caret to the start of the next word.
    pub fn word_right(&mut self)
        requires
            old(self).wf(),
        ensures
            final(self).wf(),
            final(self).text() == old(self).text(),
            final(self).cursors@ == reshaped_all(old(self).text(), Reshape::Move(Motion::WordRight), old(self).cursors@),
    {
        self.move_each_cursor(Motion::WordRight);
    }

    /// Moves every caret to the start of its line.
    pub fn home(&mut self)
        requires
            old(self).wf(),
        ensures
            final(self).wf(),
            final(self).text() == old(self).text(),
            final(self).cursors@ == reshaped_all(old(self).text(), Reshape::Move(Motion::Home), old(self).cursors@),
    {
        self.move_each_cursor(Motion::Home);
    }

    /// Moves every caret to the end of its line.
    pub fn end(&mut self)
        requires
            old(self).wf(),
        ensures
            final(self).wf(),
            final(self).text() == old(self).text(),
            final(self).cursors@ == reshaped_all(old(self).text(), Reshape::Move(Motion::End), old(self).cursors@),
    {
        self.move_each_cursor(Motion::End);
    }

    /// Extends every selection one grapheme left.
    pub fn select_left(&mut self)
        requires
            old(self).wf(),
        ensures
            final(self).wf(),
            final(self).text() == old(self).text(),
            final(self).cursors@ == reshaped_all(old(self).text(), Reshape::Select(Motion::Left), old(self).cursors@),
    {
        self.select_each_cursor(Motion::Left);
    }

    /// Extends every selection one grapheme right.
    pub fn select_right(&mut self)
        requires
            old(self).wf(),
        ensures
            final(self).wf(),
            final(self).text() == old(self).text(),
            final(self).cursors@ == reshaped_all(old(self).text(), Reshape::Select(Motion::Right), old(self).cursors@),
    {
        self.select_each_cursor(Motion::Right);
    }

    /// Extends every selection to the start of the word before.
    pub fn select_word_left(&mut self)
        requires
            old(self).wf(),
        ensures
            final(self).wf(),
            final(self).text() == old(self).text(),
            final(self).cursors@ == reshaped_all(old(self).text(), Reshape::Select(Motion::WordLeft), old(self).cursors@),
    {
        self.select_each_cursor(Motion::WordLeft);
    }

    /// Extends every selection to the start of the next word.
    pub fn select_word_right(&mut self)
        requires
            old(self).wf(),
        ensures
            final(self).wf(),
            final(self).text() == old(self).text(),
            final(self).cursors@ == reshaped_all(old(self).text(), Reshape::Select(Motion::WordRight), old(self).cursors@),
    {
        self.select_each_cursor(Motion::WordRight);
    }

    /// Extends every selection to the start of its line.
    pub fn select_home(&mut self)
        requires
            old(self).wf(),
        ensures
            final(self).wf(),
            final(self).text() == old(self).text(),
            final(self).cursors@ == reshaped_all(old(self).text(), Reshape::Select(Motion::Home), old(self).cursors@),
    {
        self.select_each_cursor(Motion::Home);
    }

    /// Extends every selection to the end of its line.
    pub fn select_end(&mut self)
        requires
            old(self).wf(),
        ensures
            final(self).wf(),
            final(self).text() == old(self).text(),
            final(self).cursors@ == reshaped_all(old(self).text(), Reshape::Select(Motion::End), old(self).cursors@),
    {
        self.select_each_cursor(Motion::End);
    }

    /// One caret at the start of the document.
    pub fn document_start(&mut self)
        requires
            old(self).wf(),
        ensures
            final(self).wf(),
            final(self).text() == old(self).text(),
            final(self).cursors@ == seq![Cursor { position: CursorPosition { line: 0, col: 0 }, anchor: None }],
    {
        proof {
            self.lemma_line_ends(0);
        }
        self.move_cursors_to(CursorPosition::new(0, 0));
    }

    /// One caret at the end of the document.
    pub fn document_end(&mut self)
        requires
            old(self).wf(),
        ensures
            final(self).wf(),
            final(self).text() == old(self).text(),
            final(self).cursors@ == seq![Cursor { position: end_of_text(old(self).text()), anchor: None }],
    {
        let last = self.lines.len() - 1;
        let col = self.lines[last].len();
        proof {
            self.lemma_line_ends(last as int);
        }
        self.move_cursors_to(CursorPosition::new(last, col));
    }

    /// Extends every selection to the start of the document; the cursors then merge into one.
    pub fn select_document_start(&mut self)
        requires
            old(self).wf(),
        ensures
            final(self).wf(),
            final(self).text() == old(self).text(),
            final(self).cursors@ == reshaped_all(old(self).text(), Reshape::SelectTo(CursorPosition { line: 0, col: 0 }), old(self).cursors@),
    {
        proof {
            self.lemma_line_ends(0);
        }
        self.reshape_each(Reshape::SelectTo(CursorPosition::new(0, 0)));
        self.needs_scroll_to_cursor = true;
    }

    /// Extends every selection to the end of the document; the cursors then merge into one.
    pub fn select_document_end(&mut self)
        requires
            old(self).wf(),
        ensures
            final(self).wf(),
            final(self).text() == old(self).text(),
            final(self).cursors@ == reshaped_all(old(self).text(), Reshape::SelectTo(end_of_text(old(self).text())), old(self).cursors@),
    {
        let last = self.lines.len() - 1;
        let col = self.lines[last].len();
        proof {
            self.lemma_line_ends(last as int);
        }
        self.reshape_each(Reshape::SelectTo(CursorPosition::new(last, col)));
        self.needs_scroll_to_cursor = true;
    }

    /// The text selected by the primary cursor, if it selects anything.
    pub fn primary_selection_bytes(&self) -> (r: Option<Vec<u8>>)
        requires
            self.wf(),
        ensures
            match selection_of(self.cursors@[0]) {
                Some((st, en)) => r matches Some(v) && v@ == range_text(self.text(), st, en),
                None => r is None,
            },
    {
        proof {
            assert(cursor_within(self.cursors@[0], self.text()));
        }
        match self.cursors[0].selection_range() {
            Some((st, en)) => Some(text_in_range(&self.lines, st, en)),
            None => None,
        }
    }

    /// The text that copying takes: the primary cursor's selection, if any.
    pub fn copy_text(&self) -> (r: Option<String>)
        requires
            self.wf(),
        ensures
            match selection_of(self.cursors@[0]) {
                Some((st, en)) => r matches Some(t) && t@ == decode_utf8(range_text(self.text(), st, en)),
                None => r is None,
            },
    {
        proof {
            assert(cursor_within(self.cursors@[0], self.text()));
            if let Some((st, en)) = selection_of(self.cursors@[0]) {
                lemma_range_text_valid(self.text(), st, en);
            }
        }
        match self.primary_selection_bytes() {
            Some(b) => Some(utf8_string(b.as_slice())),
            None => None,
        }
    }

    /// Cutting: the primary cursor's selection is returned and every selection
    /// is deleted; nothing happens when the primary cursor selects nothing.
    pub fn cut_text(&mut self) -> (r: Option<String>)
        requires
            old(self).wf(),
        ensures
            final(self).wf(),
            match selection_of(old(self).cursors@[0]) {
                Some((st, en)) => r matches Some(t) && t@ == decode_utf8(range_text(old(self).text(), st, en))
                    && final(self).text() == edits_from(old(self).text(), old(self).cursors@, 0, seq![]).0
                    && final(self).cursors@ == merged(carets(edits_from(old(self).text(), old(self).cursors@, 0, seq![]).1)),
                None => r is None && *final(self) == *old(self),
            },
    {
        let copied = self.copy_text();
        match copied {
            Some(t) => {
                let empty = "";
                proof {
                    reveal_strlit("");
                    assert(empty@ =~= Seq::<char>::empty());
                    assert(empty.spec_bytes() =~= Seq::<u8>::empty());
                }
                self.insert_text_at_cursors(empty);
                Some(t)
            },
            None => None,
        }
    }
}

/// The position at the very end of the document.
pub open spec fn end_of_text(ls: Seq<Seq<u8>>) -> CursorPosition {
    CursorPosition { line: (ls.len() - 1) as usize, col: ls.last().len() as usize }
}

/// Where a position stands after lines `a ..= b` move one line up (`up`) or
/// down in text that becomes `nls`: a position inside the span moves with it by
/// one line; any other keeps its line, its column clamped into the text now there.
pub open spec fn pos_after_move(nls: Seq<Seq<u8>>, up: bool, a: int, b: int, p: CursorPosition) -> CursorPosition {
    if a <= p.line <= b {
        CursorPosition { line: (if up { p.line - 1 } else { p.line + 1 }) as usize, col: p.col }
    } else {
        clamp_pos(nls, p)
    }
}

pub open spec fn cursor_after_move(nls: Seq<Seq<u8>>, up: bool, a: int, b: int, c: Cursor) -> Cursor {
    Cursor {
        position: pos_after_move(nls, up, a, b, c.position),
        anchor: match c.anchor {
            Some(x) => Some(pos_after_move(nls, up, a, b, x)),
            None => None,
        },
    }
}

/// The lines after lines `a ..= b` move one line up (`up`, needs `a > 0`) or
/// down (needs `b + 1 < ls.len()`).
pub open spec fn lines_after_move(ls: Seq<Seq<u8>>, up: bool, a: int, b: int) -> Seq<Seq<u8>> {
    if up {
        ls.subrange(0, a - 1) + ls.subrange(a, b + 1) + seq![ls[a - 1]] + ls.subrange(b + 1, ls.len() as int)
    } else {
        ls.subrange(0, a) + seq![ls[b + 1]] + ls.subrange(a, b + 1) + ls.subrange(b + 2, ls.len() as int)
    }
}

/// A line of the span keeps its text one line up (down).
proof fn lemma_span_line_moves(ls: Seq<Seq<u8>>, up: bool, a: int, b: int, l: int)
    requires
        0 <= a <= b < ls.len(),
        up ==> a > 0,
        !up ==> b + 1 < ls.len(),
        a <= l <= b,
    ensures
        lines_after_move(ls, up, a, b).len() == ls.len(),
        lines_after_move(ls, up, a, b)[if up { l - 1 } else { l + 1 }] == ls[l],
{
}

proof fn lemma_relined_within(ls: Seq<Seq<u8>>, up: bool, a: int, b: int, p: CursorPosition)
    requires
        0 <= a <= b < ls.len(),
        up ==> a > 0,
        !up ==> b + 1 < ls.len(),
        ls.len() <= usize::MAX,
        lines_valid(lines_after_move(ls, up, a, b)),
        on_boundary(ls, p),
    ensures
        on_boundary(lines_after_move(ls, up, a, b), pos_after_move(lines_after_move(ls, up, a, b), up, a, b, p)),
{
    lemma_span_line_moves(ls, up, a, b, a);
    if a <= p.line <= b {
        lemma_span_line_moves(ls, up, a, b, p.line as int);
    } else {
        lemma_clamp_on_boundary(lines_after_move(ls, up, a, b), p);
    }
}

/// Every line after a line move is some line from before it.
proof fn lemma_line_move_back(ls: Seq<Seq<u8>>, up: bool, a: int, b: int, l: int)
    requires
        0 <= a <= b < ls.len(),
        up ==> a > 0,
        !up ==> b + 1 < ls.len(),
        0 <= l < ls.len(),
    ensures
        exists|k: int| 0 <= k < ls.len() && lines_after_move(ls, up, a, b)[l] == #[trigger] ls[k],
{
    let x = lines_after_move(ls, up, a, b);
    if up {
        if l < a - 1 {
            assert(x[l] == ls[l]);
        } else if l < b {
            assert(x[l] == ls[l + 1]);
        } else if l == b {
            assert(x[l] == ls[a - 1]);
        } else {
            assert(x[l] == ls[l]);
        }
    } else {
        if l < a {
            assert(x[l] == ls[l]);
        } else if l == a {
            assert(x[l] == ls[b + 1]);
        } else if l <= b + 1 {
            assert(x[l] == ls[l - 1]);
        } else {
            assert(x[l] == ls[l]);
        }
    }
}

impl MultiLineEditor {
    fn move_lines(&mut self, up: bool)
        requires
            old(self).wf(),
            up ==> start_of(old(self).cursors@[0]).line > 0,
            !up ==> end_of(old(self).cursors@[0]).line + 1 < old(self).text().len(),
        ensures
            final(self).wf(),
            ({
                let a = start_of(old(self).cursors@[0]).line as int;
                let b = end_of(old(self).cursors@[0]).line as int;
                let nls = lines_after_move(old(self).text(), up, a, b);
                &&& final(self).text() == nls
                &&& final(self).cursors@ == merged(old(self).cursors@.map_values(|c: Cursor| cursor_after_move(nls, up, a, b, c)))
            }),
    {
        let ghost ls = self.text();
        let ghost cs = self.cursors@;
        proof {
            assert(cursor_within(cs[0], ls));
        }
        let n = self.lines.len();
        let a = self.cursors[0].selection_start().line;
        let b = self.cursors[0].selection_end().line;
        if up {
            let removed = self.lines.remove(a - 1);
            self.lines.insert(b, removed);
        } else {
            let removed = self.lines.remove(b + 1);
            self.lines.insert(a, removed);
        }
        proof {
            assert(self.text() =~= lines_after_move(ls, up, a as int, b as int));
            assert(lines_valid(self.text())) by {
                assert forall|l: int| 0 <= l < self.text().len() implies valid_utf8(#[trigger] self.text()[l]) by {
                    lemma_line_move_back(ls, up, a as int, b as int, l);
                }
            }
        }
        let out = relined_cursors(&self.cursors, &self.lines, up, a, b);
        proof {
            assert forall|i: int| 0 <= i < out@.len() implies cursor_within(#[trigger] out@[i], self.text()) by {
                let c = cs[i];
                assert(cursor_within(c, ls));
                lemma_relined_within(ls, up, a as int, b as int, c.position);
                if let Some(x) = c.anchor {
                    lemma_relined_within(ls, up, a as int, b as int, x);
                }
            }
            lemma_merged(out@, self.text());
        }
        self.cursors = merge_overlapping(&out);
        self.needs_scroll_to_cursor = true;
        self.reset_cursor_blink();
    }

    /// Moves the lines of the primary cursor's span one line up; the line above
    /// goes below the span. Carets and anchors inside the span move up with it;
    /// others keep their line, clamped into its new text. Nothing happens at
    /// the top of the document.
    pub fn move_line_up(&mut self)
        requires
            old(self).wf(),
        ensures
            final(self).wf(),
            ({
                let a = start_of(old(self).cursors@[0]).line as int;
                let b = end_of(old(self).cursors@[0]).line as int;
                let nls = lines_after_move(old(self).text(), true, a, b);
                if a == 0 {
                    *final(self) == *old(self)
                } else {
                    &&& final(self).text() == nls
                    &&& final(self).cursors@ == merged(old(self).cursors@.map_values(|c: Cursor| cursor_after_move(nls, true, a, b, c)))
                }
            }),
    {
        if self.cursors[0].selection_start().line == 0 {
            return;
        }
        self.move_lines(true);
    }

    /// Moves the lines of the primary cursor's span one line down; the line
    /// below goes above the span. Carets and anchors inside the span move down
    /// with it; others keep their line, clamped into its new text. Nothing
    /// happens at the bottom of the document.
    pub fn move_line_down(&mut self)
        requires
            old(self).wf(),
        ensures
            final(self).wf(),
            ({
                let a = start_of(old(self).cursors@[0]).line as int;
                let b = end_of(old(self).cursors@[0]).line as int;
                let nls = lines_after_move(old(self).text(), false, a, b);
                if b + 1 >= old(self).text().len() {
                    *final(self) == *old(self)
                } else {
                    &&& final(self).text() == nls
                    &&& final(self).cursors@ == merged(old(self).cursors@.map_values(|c: Cursor| cursor_after_move(nls, false, a, b, c)))
                }
            }),
    {
        proof {
            assert(cursor_within(self.cursors@[0], self.text()));
        }
        if self.cursors[0].selection_end().line >= self.lines.len() - 1 {
            return;
        }
        self.move_lines(false);
    }
}

/// A position after a line move (see `pos_after_move`), in the moved `lines`.
fn relined(lines: &Vec<Vec<u8>>, up: bool, a: usize, b: usize, p: CursorPosition) -> (r: CursorPosition)
    requires
        lines@.len() >= 1,
        lines_valid(lines_of(lines@)),
        up ==> a > 0,
        b < usize::MAX,
    ensures
        r == pos_after_move(lines_of(lines@), up, a as int, b as int, p),
        !(a <= p.line <= b) ==> on_boundary(lines_of(lines@), r),
{
    if a <= p.line && p.line <= b {
        CursorPosition::new(if up { p.line - 1 } else { p.line + 1 }, p.col)
    } else {
        clamp_position(lines, p)
    }
}

/// Every cursor after a line move, in the moved `lines`.
fn relined_cursors(cursors: &Vec<Cursor>, lines: &Vec<Vec<u8>>, up: bool, a: usize, b: usize) -> (out: Vec<Cursor>)
    requires
        lines@.len() >= 1,
        lines_valid(lines_of(lines@)),
        up ==> a > 0,
        b < usize::MAX,
    ensures
        out@ == cursors@.map_values(|c: Cursor| cursor_after_move(lines_of(lines@), up, a as int, b as int, c)),
{
    let ghost cs = cursors@;
    let ghost nls = lines_of(lines@);
    let mut out: Vec<Cursor> = Vec::new();
    let mut i: usize = 0;
    while i < cursors.len()
        invariant
            cursors@ == cs,
            nls == lines_of(lines@),
            lines@.len() >= 1,
            lines_valid(nls),
            up ==> a > 0,
            b < usize::MAX,
            i <= cs.len(),
            out@ == cs.subrange(0, i as int).map_values(|c: Cursor| cursor_after_move(nls, up, a as int, b as int, c)),
        decreases cs.len() - i,
    {
        let c = cursors[i];
        let pl = relined(lines, up, a, b, c.position);
        let anchor = match c.anchor {
            Some(x) => Some(relined(lines, up, a, b, x)),
            None => None,
        };
        out.push(Cursor { position: pl, anchor });
        proof {
            assert(cs.subrange(0, i + 1).map_values(|c: Cursor| cursor_after_move(nls, up, a as int, b as int, c)) =~= out@);
        }
        i += 1;
    }
    proof {
        assert(cs.subrange(0, cs.len() as int) =~= cs);
    }
    out
}

/// The column on line `l` for a caret coming from column `col`: the layout's
/// column for the preferred horizontal position when it has one, else `col`;
/// either way at most the line's length.
pub open spec fn hinted_col(ls: Seq<Seq<u8>>, hints: Seq<Option<usize>>, l: int, col: usize) -> usize {
    clamped_hint(ls, l, if 0 <= l < hints.len() { hints[l] } else { None }, col)
}

/// Column `hint` (or `col` without one) on line `l`, moved back to the last
/// character boundary at or before it (at most the line's length).
pub open spec fn clamped_hint(ls: Seq<Seq<u8>>, l: int, hint: Option<usize>, col: usize) -> usize {
    let want = match hint {
        Some(h) => h,
        None => col,
    };
    snap_col(ls[l], want as int) as usize
}

/// Where a vertical move takes cursor `c`: one line up or down at the hinted
/// column, or to the start (end) of the document from its first (last) line;
/// a selecting move keeps or starts the selection, another drops it.
pub open spec fn vertical(ls: Seq<Seq<u8>>, hints: Seq<Option<usize>>, down: bool, selecting: bool, c: Cursor) -> Cursor {
    let p = c.position;
    let target = if !down && p.line == 0 {
        CursorPosition { line: 0, col: 0 }
    } else if down && p.line + 1 >= ls.len() {
        CursorPosition { line: p.line, col: ls[p.line as int].len() as usize }
    } else {
        let nl = if down { p.line + 1 } else { p.line - 1 };
        CursorPosition { line: nl as usize, col: hinted_col(ls, hints, nl, p.col) }
    };
    Cursor { position: target, anchor: if selecting { Some(anchor_or_caret(c)) } else { None } }
}

fn hinted_column(lines: &Vec<Vec<u8>>, hints: &Vec<Option<usize>>, l: usize, col: usize) -> (r: usize)
    requires
        l < lines@.len(),
        lines_valid(lines_of(lines@)),
    ensures
        r == hinted_col(lines_of(lines@), hints@, l as int, col),
        on_boundary(lines_of(lines@), CursorPosition { line: l, col: r }),
{
    let want = if l < hints.len() {
        match hints[l] {
            Some(h) => h,
            None => col,
        }
    } else {
        col
    };
    assert(valid_utf8(lines_of(lines@)[l as int]));
    snap_to_boundary(&lines[l], want)
}

impl MultiLineEditor {
    /// Moves every cursor one line up or down (see `vertical`), then merges.
    /// `hints[l]`, when present, is the column on line `l` nearest the
    /// preferred horizontal position.
    pub fn move_vertically(&mut self, down: bool, selecting: bool, hints: &Vec<Option<usize>>)
        requires
            old(self).wf(),
        ensures
            final(self).wf(),
            final(self).text() == old(self).text(),
            final(self).cursors@ == merged(old(self).cursors@.map_values(
                |c: Cursor| vertical(old(self).text(), hints@, down, selecting, c),
            )),
    {
        let ghost ls = self.text();
        let ghost cs = self.cursors@;
        let mut out: Vec<Cursor> = Vec::new();
        let mut i: usize = 0;
        while i < self.cursors.len()
            invariant
                self.wf(),
                self.text() == ls,
                self.cursors@ == cs,
                i <= cs.len(),
                out@ == cs.subrange(0, i as int).map_values(|c: Cursor| vertical(ls, hints@, down, selecting, c)),
                all_within(out@, ls),
            decreases cs.len() - i,
        {
            let c = self.cursors[i];
            proof {
                assert(cursor_within(cs[i as int], ls));
                self.lemma_line_ends(0);
                self.lemma_line_ends(c.position.line as int);
            }
            let p = c.position;
            let target = if !down && p.line == 0 {
                CursorPosition::new(0, 0)
            } else if down && p.line >= self.lines.len() - 1 {
                CursorPosition::new(p.line, self.lines[p.line].len())
            } else {
                let nl = if down { p.line + 1 } else { p.line - 1 };
                CursorPosition::new(nl, hinted_column(&self.lines, hints, nl, p.col))
            };
            let anchor = if selecting {
                match c.anchor {
                    Some(a) => Some(a),
                    None => Some(p),
                }
            } else {
                None
            };
            out.push(Cursor { position: target, anchor });
            proof {
                assert(cs.subrange(0, i + 1).map_values(|c: Cursor| vertical(ls, hints@, down, selecting, c)) =~= out@);
            }
            i += 1;
        }
        proof {
            assert(cs.subrange(0, cs.len() as int) =~= cs);
            lemma_merged(out@, ls);
        }
        self.cursors = merge_overlapping(&out);
        self.needs_scroll_to_cursor = true;
        self.reset_cursor_blink();
    }

    pub fn up(&mut self, hints: &Vec<Option<usize>>)
        requires
            old(self).wf(),
        ensures
            final(self).wf(),
            final(self).text() == old(self).text(),
            final(self).cursors@ == merged(old(self).cursors@.map_values(|c: Cursor| vertical(old(self).text(), hints@, false, false, c))),
    {
        self.move_vertically(false, false, hints);
    }

    pub fn down(&mut self, hints: &Vec<Option<usize>>)
        requires
            old(self).wf(),
        ensures
            final(self).wf(),
            final(self).text() == old(self).text(),
            final(self).cursors@ == merged(old(self).cursors@.map_values(|c: Cursor| vertical(old(self).text(), hints@, true, false, c))),
    {
        self.move_vertically(true, false, hints);
    }

    pub fn select_up(&mut self, hints: &Vec<Option<usize>>)
        requires
            old(self).wf(),
        ensures
            final(self).wf(),
            final(self).text() == old(self).text(),
            final(self).cursors@ == merged(old(self).cursors@.map_values(|c: Cursor| vertical(old(self).text(), hints@, false, true, c))),
    {
        self.move_vertically(false, true, hints);
    }

    pub fn select_down(&mut self, hints: &Vec<Option<usize>>)
        requires
            old(self).wf(),
        ensures
            final(self).wf(),
            final(self).text() == old(self).text(),
            final(self).cursors@ == merged(old(self).cursors@.map_values(|c: Cursor| vertical(old(self).text(), hints@, true, true, c))),
    {
        self.move_vertically(true, true, hints);
    }

    /// Adds a caret on the line above the topmost cursor, at the column `hint`
    /// (or the primary caret's column) clamped to that line; nothing happens
    /// when the topmost cursor is on the first line.
    pub fn add_cursor_up(&mut self, hint: Option<usize>)
        requires
            old(self).wf(),
        ensures
            final(self).wf(),
            final(self).text() == old(self).text(),
            ({
                let top = old(self).cursors@[0].position;
                if top.line == 0 {
                    final(self).cursors@ == old(self).cursors@
                } else {
                    final(self).cursors@ == merged(old(self).cursors@.push(Cursor {
                        position: CursorPosition {
                            line: (top.line - 1) as usize,
                            col: clamped_hint(old(self).text(), top.line - 1, hint, top.col),
                        },
                        anchor: None,
                    }))
                }
            }),
    {
        let top = self.cursors[0].position;
        if top.line == 0 {
            return;
        }
        self.add_caret_at_line(top.line - 1, hint, top.col);
    }

    /// Adds a caret on the line below the bottommost cursor, at the column
    /// `hint` (or the primary caret's column) clamped to that line; nothing
    /// happens when the bottommost cursor is on the last line.
    pub fn add_cursor_down(&mut self, hint: Option<usize>)
        requires
            old(self).wf(),
        ensures
            final(self).wf(),
            final(self).text() == old(self).text(),
            ({
                let bottom = old(self).cursors@.last().position;
                if bottom.line + 1 >= old(self).text().len() {
                    final(self).cursors@ == old(self).cursors@
                } else {
                    final(self).cursors@ == merged(old(self).cursors@.push(Cursor {
                        position: CursorPosition {
                            line: (bottom.line + 1) as usize,
                            col: clamped_hint(old(self).text(), bottom.line + 1, hint, old(self).cursors@[0].position.col),
                        },
                        anchor: None,
                    }))
                }
            }),
    {
        let bottom = self.cursors[self.cursors.len() - 1].position;
        proof {
            assert(cursor_within(self.cursors@.last(), self.text()));
        }
        if bottom.line >= self.lines.len() - 1 {
            return;
        }
        let col = self.cursors[0].position.col;
        self.add_caret_at_line(bottom.line + 1, hint, col);
    }

    fn add_caret_at_line(&mut self, l: usize, hint: Option<usize>, col: usize)
        requires
            old(self).wf(),
            l < old(self).text().len(),
        ensures
            final(self).wf(),
            final(self).text() == old(self).text(),
            final(self).cursors@ == merged(old(self).cursors@.push(Cursor {
                position: CursorPosition { line: l, col: clamped_hint(old(self).text(), l as int, hint, col) },
                anchor: None,
            })),
    {
        let want = match hint {
            Some(h) => h,
            None => col,
        };
        assert(valid_utf8(self.text()[l as int]));
        let c = snap_to_boundary(&self.lines[l], want);
        let mut cs = self.cursors.clone();
        proof {
            assert(cs@ =~= self.cursors@);
        }
        cs.push(Cursor::new(l, c));
        proof {
            assert(all_within(cs@, self.text())) by {
                assert forall|i: int| 0 <= i < cs@.len() implies cursor_within(#[trigger] cs@[i], self.text()) by {
                    if i < self.cursors@.len() {
                        assert(cursor_within(self.cursors@[i], self.text()));
                    }
                }
            }
            lemma_merged(cs@, self.text());
        }
        self.cursors = merge_overlapping(&cs);
        self.reset_cursor_blink();
    }
}

} // verus!
