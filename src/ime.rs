//! The input-method surface: ranges in UTF-16 code units over the document
//! joined by newlines, and edits that replace or mark such ranges.
use vstd::prelude::*;
use vstd::string::StringSliceAdditionalSpecFns;
use vstd::utf8::encode_utf8_valid_utf8;
use crate::buffer::{on_boundary, copy_range, flat_of, flat_offset, flat_offset_of, flat_text, insert_end, position_from_flat, position_of_flat};
use crate::cursors::{cursor_within};
use crate::edit::{clamp_pos, clamp_position, replace_range, replaced};
use crate::editor::MultiLineEditor;
use crate::position::{Cursor, CursorPosition, end_of, pos_le, pos_lt, start_of};
use crate::segment::{utf8_string};
use crate::utf16::{bytes_offset_from_utf16, bytes_offset_to_utf16, from_utf16, lemma_from_utf16_boundary, to_utf16};
use crate::utf8_facts::{lemma_joined_valid, lemma_subrange_valid};
use vstd::utf8::decode_utf8;

verus! {

/// A UTF-16 range as a flat byte range; an end before the start is taken as the start.
pub open spec fn byte_range(f: Seq<u8>, r: (usize, usize)) -> (int, int) {
    let s = from_utf16(f, r.0 as int);
    let e = from_utf16(f, r.1 as int);
    (s, if e < s { s } else { e })
}

/// The flat byte range of the primary cursor's span.
pub open spec fn primary_range(ls: Seq<Seq<u8>>, cs: Seq<Cursor>) -> (int, int) {
    (flat_offset_of(ls, start_of(cs[0])), flat_offset_of(ls, end_of(cs[0])))
}

/// The flat range an input-method edit replaces: the given UTF-16 range, else
/// the marked range, else the primary cursor's span.
pub open spec fn target_range(ls: Seq<Seq<u8>>, cs: Seq<Cursor>, marked: Option<(usize, usize)>, r: Option<(usize, usize)>) -> (int, int) {
    match r {
        Some(x) => byte_range(flat_of(ls), x),
        None => match marked {
            Some(m) => (m.0 as int, m.1 as int),
            None => primary_range(ls, cs),
        },
    }
}

/// The positions of a flat range, each moved back to a character boundary, the
/// end moved up to the start when it comes first.
pub open spec fn range_positions(ls: Seq<Seq<u8>>, r: (int, int)) -> (CursorPosition, CursorPosition) {
    let s = clamp_pos(ls, position_of_flat(ls, r.0));
    let e = clamp_pos(ls, position_of_flat(ls, r.1));
    (s, if pos_le(s, e) { e } else { s })
}

pub open spec fn sat_add(a: int, b: int) -> int {
    if a + b <= usize::MAX { a + b } else { usize::MAX as int }
}

fn saturating_add(a: usize, b: usize) -> (r: usize)
    ensures
        r == sat_add(a as int, b as int),
{
    if a <= usize::MAX - b { a + b } else { usize::MAX }
}

impl MultiLineEditor {
    /// The text of a UTF-16 range, with the range it actually covers.
    pub fn text_for_range(&self, range_utf16: (usize, usize)) -> (r: (String, (usize, usize)))
        requires
            self.wf(),
        ensures
            ({
                let f = flat_of(self.text());
                let (s, e) = byte_range(f, range_utf16);
                &&& r.0@ == decode_utf8(f.subrange(s, e))
                &&& r.1.0 == to_utf16(f, s)
                &&& r.1.1 == to_utf16(f, e)
            }),
    {
        let flat = flat_text(&self.lines);
        let s = bytes_offset_from_utf16(flat.as_slice(), range_utf16.0);
        let e0 = bytes_offset_from_utf16(flat.as_slice(), range_utf16.1);
        let e = if e0 < s { s } else { e0 };
        let piece = copy_range(&flat, s, e);
        proof {
            lemma_joined_valid(self.text(), self.text().len() as int);
            lemma_from_utf16_boundary(flat@, range_utf16.0 as int);
            lemma_from_utf16_boundary(flat@, range_utf16.1 as int);
            lemma_subrange_valid(flat@, s as int, e as int);
        }
        let text = utf8_string(piece.as_slice());
        let a = bytes_offset_to_utf16(flat.as_slice(), s);
        let b = bytes_offset_to_utf16(flat.as_slice(), e);
        (text, (a, b))
    }

    /// The primary cursor's span in UTF-16, and whether its caret comes before its anchor.
    pub fn selected_text_range(&self) -> (r: ((usize, usize), bool))
        requires
            self.wf(),
        ensures
            ({
                let f = flat_of(self.text());
                let (s, e) = primary_range(self.text(), self.cursors@);
                let c = self.cursors@[0];
                &&& r.0.0 == to_utf16(f, s)
                &&& r.0.1 == to_utf16(f, e)
                &&& r.1 == (c.anchor matches Some(a) && pos_lt(c.position, a))
            }),
    {
        proof {
            assert(cursor_within(self.cursors@[0], self.text()));
        }
        let flat = flat_text(&self.lines);
        let c = self.cursors[0];
        let s = flat_offset(&self.lines, c.selection_start());
        let e = flat_offset(&self.lines, c.selection_end());
        let reversed = match c.anchor {
            Some(a) => c.position.precedes(&a),
            None => false,
        };
        ((bytes_offset_to_utf16(flat.as_slice(), s), bytes_offset_to_utf16(flat.as_slice(), e)), reversed)
    }

    /// The marked range in UTF-16, if text is being composed.
    pub fn marked_text_range(&self) -> (r: Option<(usize, usize)>)
        requires
            self.wf(),
        ensures
            match self.marked_range {
                Some(m) => r == Some((
                    to_utf16(flat_of(self.text()), m.0 as int) as usize,
                    to_utf16(flat_of(self.text()), m.1 as int) as usize,
                )),
                None => r is None,
            },
    {
        match self.marked_range {
            Some(m) => {
                let flat = flat_text(&self.lines);
                Some((bytes_offset_to_utf16(flat.as_slice(), m.0), bytes_offset_to_utf16(flat.as_slice(), m.1)))
            },
            None => None,
        }
    }

    /// Ends composition: nothing is marked any more.
    pub fn unmark_text(&mut self)
        ensures
            final(self).marked_range is None,
            final(self).lines == old(self).lines,
            final(self).cursors == old(self).cursors,
    {
        self.marked_range = None;
    }

    /// The flat range an input-method edit replaces (see `target_range`), as positions.
    fn target_positions(&self, range_utf16: Option<(usize, usize)>) -> (r: (CursorPosition, CursorPosition))
        requires
            self.wf(),
        ensures
            r == range_positions(self.text(), target_range(self.text(), self.cursors@, self.marked_range, range_utf16)),
            on_boundary(self.text(), r.0),
            on_boundary(self.text(), r.1),
            pos_le(r.0, r.1),
    {
        proof {
            assert(cursor_within(self.cursors@[0], self.text()));
        }
        let flat = flat_text(&self.lines);
        let (a, b) = match range_utf16 {
            Some(x) => {
                let s = bytes_offset_from_utf16(flat.as_slice(), x.0);
                let e = bytes_offset_from_utf16(flat.as_slice(), x.1);
                (s, if e < s { s } else { e })
            },
            None => match self.marked_range {
                Some(m) => m,
                None => {
                    let c = self.cursors[0];
                    (flat_offset(&self.lines, c.selection_start()), flat_offset(&self.lines, c.selection_end()))
                },
            },
        };
        let s = clamp_position(&self.lines, position_from_flat(&self.lines, a));
        let e = clamp_position(&self.lines, position_from_flat(&self.lines, b));
        if s.precedes(&e) || s.same_as(&e) { (s, e) } else { (s, s) }
    }

    /// Replaces a UTF-16 range (else the marked range, else the primary span)
    /// by `new_text`, leaving one caret after it and nothing marked.
    pub fn replace_text_in_range(&mut self, range_utf16: Option<(usize, usize)>, new_text: &str)
        requires
            old(self).wf(),
        ensures
            final(self).wf(),
            ({
                let (s, e) = range_positions(old(self).text(), target_range(old(self).text(), old(self).cursors@, old(self).marked_range, range_utf16));
                &&& final(self).text() == replaced(old(self).text(), s, e, new_text.spec_bytes())
                &&& final(self).cursors@ == seq![Cursor { position: insert_end(s, new_text.spec_bytes()), anchor: None }]
            }),
            final(self).marked_range is None,
    {
        let (s, e) = self.target_positions(range_utf16);
        proof {
            encode_utf8_valid_utf8(new_text@);
        }
        let p = replace_range(&mut self.lines, s, e, new_text.as_bytes());
        let mut cs: Vec<Cursor> = Vec::new();
        cs.push(Cursor { position: p, anchor: None });
        self.cursors = cs;
        self.marked_range = None;
        self.needs_scroll_to_cursor = true;
        self.reset_cursor_blink();
    }

    /// Replaces a range as `replace_text_in_range` does and marks the inserted
    /// text as being composed. `new_selected_utf16`, measured in the new
    /// document and shifted to the start of the marked text, gives the cursor;
    /// without it the caret goes after the inserted text.
    pub fn replace_and_mark_text_in_range(
        &mut self,
        range_utf16: Option<(usize, usize)>,
        new_text: &str,
        new_selected_utf16: Option<(usize, usize)>,
    )
        requires
            old(self).wf(),
        ensures
            final(self).wf(),
            ({
                let (s, e) = range_positions(old(self).text(), target_range(old(self).text(), old(self).cursors@, old(self).marked_range, range_utf16));
                let t = new_text.spec_bytes();
                let ls2 = replaced(old(self).text(), s, e, t);
                let p = insert_end(s, t);
                let ms = flat_offset_of(ls2, s);
                &&& final(self).text() == ls2
                &&& final(self).marked_range == Some((ms as usize, flat_offset_of(ls2, p) as usize))
                &&& final(self).cursors@ == match new_selected_utf16 {
                    Some(sel) => {
                        let f2 = flat_of(ls2);
                        let a = clamp_pos(ls2, position_of_flat(ls2, sat_add(from_utf16(f2, sel.0 as int), ms)));
                        let b = clamp_pos(ls2, position_of_flat(ls2, sat_add(from_utf16(f2, sel.1 as int), ms)));
                        if a == b {
                            seq![Cursor { position: a, anchor: None }]
                        } else {
                            seq![Cursor { position: b, anchor: Some(a) }]
                        }
                    },
                    None => seq![Cursor { position: p, anchor: None }],
                }
            }),
    {
        let (s, e) = self.target_positions(range_utf16);
        proof {
            encode_utf8_valid_utf8(new_text@);
        }
        let p = replace_range(&mut self.lines, s, e, new_text.as_bytes());
        let flat = flat_text(&self.lines);
        let mark_start = flat_offset(&self.lines, s);
        let mark_end = flat_offset(&self.lines, p);
        self.marked_range = Some((mark_start, mark_end));
        let mut cs: Vec<Cursor> = Vec::new();
        match new_selected_utf16 {
            Some(sel) => {
                let a = clamp_position(
                    &self.lines,
                    position_from_flat(&self.lines, saturating_add(bytes_offset_from_utf16(flat.as_slice(), sel.0), mark_start)),
                );
                let b = clamp_position(
                    &self.lines,
                    position_from_flat(&self.lines, saturating_add(bytes_offset_from_utf16(flat.as_slice(), sel.1), mark_start)),
                );
                if a.same_as(&b) {
                    cs.push(Cursor { position: a, anchor: None });
                } else {
                    cs.push(Cursor { position: b, anchor: Some(a) });
                }
            },
            None => {
                cs.push(Cursor { position: p, anchor: None });
            },
        }
        self.cursors = cs;
        self.needs_scroll_to_cursor = true;
    }

    /// The UTF-16 offset of a position (clamped into the buffer), for mapping a point to an index.
    pub fn utf16_offset_of(&self, pos: CursorPosition) -> (r: usize)
        requires
            self.wf(),
        ensures
            r == to_utf16(flat_of(self.text()), flat_offset_of(self.text(), clamp_pos(self.text(), pos))),
    {
        let flat = flat_text(&self.lines);
        let p = clamp_position(&self.lines, pos);
        let o = flat_offset(&self.lines, p);
        bytes_offset_to_utf16(flat.as_slice(), o)
    }

    /// The positions of the ends of a UTF-16 range, for measuring it on screen.
    pub fn positions_of_utf16_range(&self, range_utf16: (usize, usize)) -> (r: (CursorPosition, CursorPosition))
        requires
            self.wf(),
        ensures
            r.0 == position_of_flat(self.text(), from_utf16(flat_of(self.text()), range_utf16.0 as int)),
            r.1 == position_of_flat(self.text(), from_utf16(flat_of(self.text()), range_utf16.1 as int)),
    {
        let flat = flat_text(&self.lines);
        let a = bytes_offset_from_utf16(flat.as_slice(), range_utf16.0);
        let b = bytes_offset_from_utf16(flat.as_slice(), range_utf16.1);
        (position_from_flat(&self.lines, a), position_from_flat(&self.lines, b))
    }
}

} // verus!
