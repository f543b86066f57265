//! Multi-cursor edits applied bottom-up: each cursor's span is replaced by the
//! same text, from the last cursor to the first, and the end positions already
//! recorded for later cursors follow the text they stand in.
use vstd::prelude::*;
use crate::buffer::{lemma_snap_down, lemma_split_lines_nonempty, lemma_split_total_len, deleted, insert_end, insert_end_fits, lines_valid, on_boundary, snap_col, snap_to_boundary, spliced, inserted, split_lines, valid_pos, lines_of, delete_range, insert_at};
use crate::position::{Cursor, CursorPosition, end_of, pos_le, pos_lt, selection_of, start_of};
use crate::cursors::{all_within, cursor_within, strictly_sorted};
use crate::utf8_facts::{lemma_boundary_concat, lemma_split_valid};
use vstd::utf8::{is_char_boundary, is_char_boundary_start_end_of_seq, valid_utf8, valid_utf8_concat, valid_utf8_split};

verus! {

/// The nearest valid position: the line clamped to the last line, the column
/// to the last character boundary at or before it.
pub open spec fn clamp_pos(ls: Seq<Seq<u8>>, p: CursorPosition) -> CursorPosition {
    let line = if p.line < ls.len() { p.line } else { (ls.len() - 1) as usize };
    CursorPosition { line, col: snap_col(ls[line as int], p.col as int) as usize }
}

/// Clamping lands on a character boundary of valid lines.
pub proof fn lemma_clamp_on_boundary(ls: Seq<Seq<u8>>, p: CursorPosition)
    requires
        ls.len() >= 1,
        ls.len() <= usize::MAX,
        lines_valid(ls),
    ensures
        on_boundary(ls, clamp_pos(ls, p)),
{
    let line = if p.line < ls.len() { p.line as int } else { ls.len() - 1 };
    let l = ls[line];
    assert(valid_utf8(l));
    let c = if p.col <= l.len() { p.col as int } else { l.len() as int };
    lemma_snap_down(l, c);
}

/// The span that an edit at cursor `c` replaces, clamped into the buffer.
pub open spec fn edit_range(ls: Seq<Seq<u8>>, c: Cursor) -> (CursorPosition, CursorPosition) {
    let s = clamp_pos(ls, start_of(c));
    let e = clamp_pos(ls, end_of(c));
    if pos_le(s, e) {
        (s, e)
    } else {
        (s, s)
    }
}

/// Where position `q` stands after the span `s..e` was replaced by text ending at `p`:
/// positions before the span stay, positions inside it move to `p`, and positions
/// after it keep their distance to the span's end.
pub open spec fn shifted(q: CursorPosition, s: CursorPosition, e: CursorPosition, p: CursorPosition) -> CursorPosition {
    if pos_lt(q, s) {
        q
    } else if pos_lt(q, e) {
        p
    } else if q.line == e.line {
        CursorPosition { line: p.line, col: (p.col + (q.col - e.col)) as usize }
    } else {
        CursorPosition { line: (q.line - e.line + p.line) as usize, col: q.col }
    }
}

/// The lines after replacing the span `s..e` by `t`.
pub open spec fn replaced(ls: Seq<Seq<u8>>, s: CursorPosition, e: CursorPosition, t: Seq<u8>) -> Seq<Seq<u8>> {
    inserted(deleted(ls, s, e), s, t)
}

/// One step of a multi-cursor edit: replace cursor `c`'s span by `t`, move the
/// recorded ends of the cursors already edited, and record this cursor's end first.
pub open spec fn edit_step(
    state: (Seq<Seq<u8>>, Seq<CursorPosition>),
    c: Cursor,
    t: Seq<u8>,
) -> (Seq<Seq<u8>>, Seq<CursorPosition>) {
    let (ls, rec) = state;
    let (s, e) = edit_range(ls, c);
    let p = insert_end(s, t);
    (replaced(ls, s, e, t), seq![p] + rec.map_values(|q: CursorPosition| shifted(q, s, e, p)))
}

/// The state after editing cursors `k ..` of `cs`, the last cursor first; the
/// recorded ends are in the cursors' order.
pub open spec fn edits_from(ls: Seq<Seq<u8>>, cs: Seq<Cursor>, k: int, t: Seq<u8>) -> (Seq<Seq<u8>>, Seq<CursorPosition>)
    decreases cs.len() - k,
{
    if k < 0 || k >= cs.len() {
        (ls, seq![])
    } else {
        edit_step(edits_from(ls, cs, k + 1, t), cs[k], t)
    }
}

/// Every position names a character boundary of `ls`.
pub open spec fn all_valid(ps: Seq<CursorPosition>, ls: Seq<Seq<u8>>) -> bool {
    forall|i: int| 0 <= i < ps.len() ==> on_boundary(ls, #[trigger] ps[i])
}

/// What a replacement leaves in place: lines before the span, the text before
/// the span's start, and everything after the span's end, now following the
/// inserted text's end `p`.
proof fn lemma_replace_shape(ls: Seq<Seq<u8>>, s: CursorPosition, e: CursorPosition, t: Seq<u8>)
    requires
        valid_pos(ls, s),
        valid_pos(ls, e),
        pos_le(s, e),
        valid_pos(replaced(ls, s, e, t), insert_end(s, t)),
        insert_end_fits(s, t),
    ensures
        ({
            let x = replaced(ls, s, e, t);
            let p = insert_end(s, t);
            let tail = ls[e.line as int].subrange(e.col as int, ls[e.line as int].len() as int);
            &&& x.len() == ls.len() - (e.line - s.line) + (p.line - s.line)
            &&& s.line <= p.line
            &&& forall|i: int| 0 <= i < s.line ==> #[trigger] x[i] == ls[i]
            &&& x[s.line as int].len() >= s.col
            &&& x[s.line as int].subrange(0, s.col as int) == ls[s.line as int].subrange(0, s.col as int)
            &&& x[p.line as int].len() == p.col + tail.len()
            &&& x[p.line as int].subrange(p.col as int, x[p.line as int].len() as int) == tail
            &&& forall|j: int| 1 <= j && e.line + j < ls.len() ==> #[trigger] x[p.line + j] == ls[e.line + j]
        }),
{
    let d = deleted(ls, s, e);
    let segs = split_lines(t);
    let n = segs.len();
    let x = replaced(ls, s, e, t);
    let p = insert_end(s, t);
    let line = d[s.line as int];
    let pre = ls[s.line as int].subrange(0, s.col as int);
    let tail = ls[e.line as int].subrange(e.col as int, ls[e.line as int].len() as int);
    assert(line == pre + tail);
    assert(line.subrange(0, s.col as int) =~= pre);
    assert(line.subrange(s.col as int, line.len() as int) =~= tail);
    assert(d.len() == ls.len() - (e.line - s.line));
    assert(forall|j: int| 1 <= j && e.line + j < ls.len() ==> #[trigger] d[s.line + j] == ls[e.line + j]);
    lemma_split_lines_nonempty(t);
    lemma_split_total_len(t);
    if n == 1 {
        assert(x[s.line as int] == pre + segs[0] + tail);
        assert((pre + segs[0] + tail).subrange(0, s.col as int) =~= pre);
        assert((pre + segs[0] + tail).subrange(p.col as int, (pre + segs[0] + tail).len() as int) =~= tail);
    } else {
        assert(x[s.line as int] == pre + segs[0]);
        assert((pre + segs[0]).subrange(0, s.col as int) =~= pre);
        assert(x[p.line as int] == segs[n - 1] + tail);
        assert((segs[n - 1] + tail).subrange(p.col as int, (segs[n - 1] + tail).len() as int) =~= tail);
    }
    assert forall|j: int| 1 <= j && e.line + j < ls.len() implies #[trigger] x[p.line + j] == ls[e.line + j] by {
        assert(d[s.line + j] == ls[e.line + j]);
    }
}

/// A valid position stays valid when it follows a replacement.
pub proof fn lemma_shift_valid(ls: Seq<Seq<u8>>, s: CursorPosition, e: CursorPosition, t: Seq<u8>, q: CursorPosition)
    requires
        valid_pos(ls, s),
        valid_pos(ls, e),
        pos_le(s, e),
        valid_pos(ls, q),
        valid_pos(replaced(ls, s, e, t), insert_end(s, t)),
        insert_end_fits(s, t),
        replaced(ls, s, e, t).len() <= usize::MAX,
    ensures
        valid_pos(replaced(ls, s, e, t), shifted(q, s, e, insert_end(s, t))),
        !pos_lt(q, e) && q.line == e.line ==> insert_end(s, t).col + (q.col - e.col) <= replaced(ls, s, e, t)[insert_end(s, t).line as int].len(),
        !pos_lt(q, e) && q.line != e.line ==> q.line - e.line + insert_end(s, t).line < replaced(ls, s, e, t).len(),
{
    lemma_replace_shape(ls, s, e, t);
    let x = replaced(ls, s, e, t);
    let p = insert_end(s, t);
    if pos_lt(q, s) {
        if q.line == s.line {
            assert(x[s.line as int].len() >= s.col);
        } else {
            assert(x[q.line as int] == ls[q.line as int]);
        }
    } else if pos_lt(q, e) {
    } else if q.line == e.line {
    } else {
        let j = q.line - e.line;
        assert(x[p.line + j] == ls[e.line + j]);
    }
}

/// The nearest valid position (see `clamp_pos`).
pub fn clamp_position(lines: &Vec<Vec<u8>>, p: CursorPosition) -> (r: CursorPosition)
    requires
        lines@.len() >= 1,
        lines_valid(lines_of(lines@)),
    ensures
        r == clamp_pos(lines_of(lines@), p),
        on_boundary(lines_of(lines@), r),
{
    let line = if p.line < lines.len() { p.line } else { lines.len() - 1 };
    assert(valid_utf8(lines_of(lines@)[line as int]));
    CursorPosition::new(line, snap_to_boundary(&lines[line], p.col))
}

/// The clamped span that an edit at `c` replaces (see `edit_range`).
pub fn edit_range_of(lines: &Vec<Vec<u8>>, c: &Cursor) -> (r: (CursorPosition, CursorPosition))
    requires
        lines@.len() >= 1,
        lines_valid(lines_of(lines@)),
    ensures
        r == edit_range(lines_of(lines@), *c),
        on_boundary(lines_of(lines@), r.0),
        on_boundary(lines_of(lines@), r.1),
        pos_le(r.0, r.1),
{
    let s = clamp_position(lines, c.selection_start());
    let e = clamp_position(lines, c.selection_end());
    if s.precedes(&e) || s.same_as(&e) {
        (s, e)
    } else {
        (s, s)
    }
}

/// Moves `q` to follow a replacement of `s..e` by text ending at `p` (see `shifted`).
pub fn shift_position(q: CursorPosition, s: CursorPosition, e: CursorPosition, p: CursorPosition) -> (r: CursorPosition)
    requires
        !pos_lt(q, e) && q.line == e.line ==> p.col + (q.col - e.col) <= usize::MAX,
        !pos_lt(q, e) && q.line != e.line ==> q.line - e.line + p.line <= usize::MAX,
    ensures
        r == shifted(q, s, e, p),
{
    if q.precedes(&s) {
        q
    } else if q.precedes(&e) {
        p
    } else if q.line == e.line {
        CursorPosition::new(p.line, p.col + (q.col - e.col))
    } else {
        CursorPosition::new(q.line - e.line + p.line, q.col)
    }
}

/// Replaces the span `s..e` by `t`, returning the end of the inserted text.
pub fn replace_range(lines: &mut Vec<Vec<u8>>, s: CursorPosition, e: CursorPosition, t: &[u8]) -> (p: CursorPosition)
    requires
        lines_valid(lines_of(old(lines)@)),
        valid_utf8(t@),
        on_boundary(lines_of(old(lines)@), s),
        on_boundary(lines_of(old(lines)@), e),
        pos_le(s, e),
    ensures
        lines_of(final(lines)@) == replaced(lines_of(old(lines)@), s, e, t@),
        p == insert_end(s, t@),
        insert_end_fits(s, t@),
        lines_valid(lines_of(final(lines)@)),
        on_boundary(lines_of(final(lines)@), p),
        on_boundary(lines_of(final(lines)@), s),
        final(lines)@.len() >= 1,
{
    let ghost before = lines_of(lines@);
    delete_range(lines, s, e);
    let p = insert_at(lines, s, t);
    proof {
        lemma_replace_valid(before, s, e, t@);
    }
    p
}

/// Replaces every cursor's span by `t`, the last cursor first, and returns the
/// end of each inserted text in the cursors' order.
pub fn edit_all(lines: &mut Vec<Vec<u8>>, cursors: &Vec<Cursor>, t: &[u8]) -> (rec: Vec<CursorPosition>)
    requires
        old(lines)@.len() >= 1,
        lines_valid(lines_of(old(lines)@)),
        valid_utf8(t@),
    ensures
        (lines_of(final(lines)@), rec@) == edits_from(lines_of(old(lines)@), cursors@, 0, t@),
        rec@.len() == cursors@.len(),
        all_valid(rec@, lines_of(final(lines)@)),
        lines_valid(lines_of(final(lines)@)),
        final(lines)@.len() >= 1,
{
    let ghost ls0 = lines_of(lines@);
    let ghost cs = cursors@;
    let n = cursors.len();
    let mut recorded: Vec<CursorPosition> = Vec::new();
    let mut k: usize = n;
    while k > 0
        invariant
            k <= n == cs.len(),
            cursors@ == cs,
            (lines_of(lines@), recorded@) == edits_from(ls0, cs, k as int, t@),
            lines@.len() >= 1,
            lines_valid(lines_of(lines@)),
            valid_utf8(t@),
            recorded@.len() == n - k,
            all_valid(recorded@, lines_of(lines@)),
        decreases k,
    {
        k -= 1;
        let ghost before = lines_of(lines@);
        let (s, e) = edit_range_of(lines, &cursors[k]);
        let p = replace_range(lines, s, e, t);
        let total = lines.len();
        let plen = lines[p.line].len();
        let ghost after = lines_of(lines@);
        let mut next: Vec<CursorPosition> = Vec::new();
        next.push(p);
        let mut j: usize = 0;
        while j < recorded.len()
            invariant
                j <= recorded@.len(),
                after == lines_of(lines@),
                after == replaced(before, s, e, t@),
                total == after.len(),
                p == insert_end(s, t@),
                insert_end_fits(s, t@),
                valid_pos(after, p),
                on_boundary(before, s),
                on_boundary(before, e),
                lines_valid(before),
                valid_utf8(t@),
                pos_le(s, e),
                plen == after[p.line as int].len(),
                all_valid(recorded@, before),
                next@ == seq![p] + recorded@.subrange(0, j as int).map_values(
                    |q: CursorPosition| shifted(q, s, e, p),
                ),
                all_valid(next@, after),
            decreases recorded@.len() - j,
        {
            let q = recorded[j];
            proof {
                lemma_shift_valid(before, s, e, t@, q);
                lemma_shift_on_boundary(before, s, e, t@, q);
            }
            let moved = shift_position(q, s, e, p);
            next.push(moved);
            proof {
                assert(seq![p] + recorded@.subrange(0, j + 1).map_values(
                    |q: CursorPosition| shifted(q, s, e, p),
                ) =~= next@);
            }
            j += 1;
        }
        proof {
            assert(recorded@.subrange(0, recorded@.len() as int) =~= recorded@);
        }
        recorded = next;
    }
    recorded
}

/// The lines after inserting `t` at `ps[k]`, `ps[k + 1]`, ... one at a time,
/// the last position first.
pub open spec fn sequential_inserts(ls: Seq<Seq<u8>>, ps: Seq<CursorPosition>, k: int, t: Seq<u8>) -> Seq<Seq<u8>>
    decreases ps.len() - k,
{
    if k < 0 || k >= ps.len() {
        ls
    } else {
        inserted(sequential_inserts(ls, ps, k + 1, t), ps[k], t)
    }
}

pub open spec fn positions(cs: Seq<Cursor>) -> Seq<CursorPosition> {
    cs.map_values(|c: Cursor| c.position)
}

proof fn lemma_deleted_empty(ls: Seq<Seq<u8>>, p: CursorPosition)
    requires
        valid_pos(ls, p),
    ensures
        deleted(ls, p, p) == ls,
{
    let l = ls[p.line as int];
    assert(l.subrange(0, p.col as int) + l.subrange(p.col as int, l.len() as int) =~= l);
    assert(deleted(ls, p, p) =~= ls);
}

/// Editing carets all at once gives the lines that single insertions give when
/// made one at a time from the bottom of the document up.
pub proof fn lemma_caret_edits_are_sequential(ls: Seq<Seq<u8>>, cs: Seq<Cursor>, t: Seq<u8>)
    requires
        ls.len() >= 1,
        lines_valid(ls),
        valid_utf8(t),
        strictly_sorted(cs),
        all_within(cs, ls),
        forall|i: int| 0 <= i < cs.len() ==> (#[trigger] selection_of(cs[i])) is None,
    ensures
        edits_from(ls, cs, 0, t).0 == sequential_inserts(ls, positions(cs), 0, t),
{
    lemma_caret_edits_from(ls, cs, t, 0);
}

proof fn lemma_caret_edits_from(ls: Seq<Seq<u8>>, cs: Seq<Cursor>, t: Seq<u8>, k: int)
    requires
        ls.len() >= 1,
        lines_valid(ls),
        valid_utf8(t),
        0 <= k <= cs.len(),
        strictly_sorted(cs),
        all_within(cs, ls),
        forall|i: int| 0 <= i < cs.len() ==> (#[trigger] selection_of(cs[i])) is None,
    ensures
        edits_from(ls, cs, k, t).0 == sequential_inserts(ls, positions(cs), k, t),
        edits_from(ls, cs, k, t).0.len() >= 1,
        lines_valid(edits_from(ls, cs, k, t).0),
        forall|j: int| 0 <= j < k ==> on_boundary(edits_from(ls, cs, k, t).0, #[trigger] cs[j].position),
    decreases cs.len() - k,
{
    if k < cs.len() {
        lemma_caret_edits_from(ls, cs, t, k + 1);
        let cur = edits_from(ls, cs, k + 1, t).0;
        let c = cs[k];
        assert(selection_of(c) is None);
        assert(start_of(c) == c.position && end_of(c) == c.position);
        assert(cursor_within(cs[k], ls));
        assert(on_boundary(cur, c.position));
        assert(snap_col(cur[c.position.line as int], c.position.col as int) == c.position.col);
        assert(clamp_pos(cur, c.position) == c.position);
        lemma_deleted_empty(cur, c.position);
        lemma_split_lines_nonempty(t);
        lemma_split_total_len(t);
        lemma_replace_lines(cur, c.position, c.position, t, c.position);
        assert forall|j: int| 0 <= j < k implies on_boundary(edits_from(ls, cs, k, t).0, #[trigger] cs[j].position) by {
            assert(pos_lt(cs[j].position, cs[k].position));
            lemma_replace_lines(cur, c.position, c.position, t, cs[j].position);
        }
    }
}

/// A replacement at character boundaries by valid text keeps every line valid,
/// and positions before the span stay on character boundaries.
pub proof fn lemma_replace_lines(ls: Seq<Seq<u8>>, s: CursorPosition, e: CursorPosition, t: Seq<u8>, q: CursorPosition)
    requires
        lines_valid(ls),
        valid_utf8(t),
        on_boundary(ls, s),
        on_boundary(ls, e),
        pos_le(s, e),
    ensures
        lines_valid(replaced(ls, s, e, t)),
        replaced(ls, s, e, t).len() >= 1,
        on_boundary(ls, q) && pos_lt(q, s) ==> on_boundary(replaced(ls, s, e, t), q),
{
    lemma_split_lines_nonempty(t);
    lemma_split_total_len(t);
    lemma_split_valid(t);
    let x = replaced(ls, s, e, t);
    let segs = split_lines(t);
    let n = segs.len();
    let l1 = ls[s.line as int];
    let l2 = ls[e.line as int];
    let pre = l1.subrange(0, s.col as int);
    let tail = l2.subrange(e.col as int, l2.len() as int);
    valid_utf8_split(l1, s.col as int);
    valid_utf8_split(l2, e.col as int);
    let d = deleted(ls, s, e);
    let line = d[s.line as int];
    assert(line == pre + tail);
    assert(line.subrange(0, s.col as int) =~= pre);
    assert(line.subrange(s.col as int, line.len() as int) =~= tail);
    let mid = spliced(pre, segs, tail);
    assert(x =~= ls.subrange(0, s.line as int) + mid + ls.subrange(e.line + 1, ls.len() as int));
    assert(valid_utf8(segs[0]));
    valid_utf8_concat(pre, segs[0]);
    let r = if n == 1 { segs[0] + tail } else { segs[0] };
    if n == 1 {
        valid_utf8_concat(pre + segs[0], tail);
        valid_utf8_concat(segs[0], tail);
        assert(x[s.line as int] == (pre + segs[0]) + tail);
        assert(x[s.line as int] =~= pre + r);
    } else {
        assert(valid_utf8(segs[n - 1]));
        valid_utf8_concat(segs[n - 1], tail);
        assert(x[s.line as int] == pre + r);
        assert(x[s.line + n - 1] == segs[n - 1] + tail);
    }
    assert forall|i: int| 0 <= i < x.len() implies valid_utf8(#[trigger] x[i]) by {
        if i < s.line {
            assert(x[i] == ls[i]);
        } else if i >= s.line + mid.len() {
            assert(x[i] == ls[i - mid.len() + e.line + 1 - s.line]);
        } else if n > 1 && s.line < i < s.line + n - 1 {
            assert(x[i] == segs[i - s.line]);
        }
    }
    if on_boundary(ls, q) && pos_lt(q, s) {
        if q.line == s.line {
            let rest = l1.subrange(s.col as int, l1.len() as int);
            assert(l1 =~= pre + rest);
            lemma_boundary_concat(pre, rest, q.col as int);
            lemma_boundary_concat(pre, r, q.col as int);
        } else {
            assert(x[q.line as int] == ls[q.line as int]);
        }
    }
}

/// A replacement at character boundaries by valid text keeps every line valid,
/// and the span's start and the inserted text's end are character boundaries.
pub proof fn lemma_replace_valid(ls: Seq<Seq<u8>>, s: CursorPosition, e: CursorPosition, t: Seq<u8>)
    requires
        lines_valid(ls),
        valid_utf8(t),
        on_boundary(ls, s),
        on_boundary(ls, e),
        pos_le(s, e),
        valid_pos(replaced(ls, s, e, t), insert_end(s, t)),
        insert_end_fits(s, t),
    ensures
        lines_valid(replaced(ls, s, e, t)),
        on_boundary(replaced(ls, s, e, t), insert_end(s, t)),
        on_boundary(replaced(ls, s, e, t), s),
{
    lemma_replace_shape(ls, s, e, t);
    lemma_split_lines_nonempty(t);
    lemma_split_total_len(t);
    lemma_split_valid(t);
    let x = replaced(ls, s, e, t);
    let p = insert_end(s, t);
    let segs = split_lines(t);
    let n = segs.len();
    let l1 = ls[s.line as int];
    let l2 = ls[e.line as int];
    let pre = l1.subrange(0, s.col as int);
    let tail = l2.subrange(e.col as int, l2.len() as int);
    valid_utf8_split(l1, s.col as int);
    valid_utf8_split(l2, e.col as int);
    let d = deleted(ls, s, e);
    let line = d[s.line as int];
    assert(line == pre + tail);
    assert(line.subrange(0, s.col as int) =~= pre);
    assert(line.subrange(s.col as int, line.len() as int) =~= tail);
    let mid = spliced(pre, segs, tail);
    assert(x =~= ls.subrange(0, s.line as int) + mid + ls.subrange(e.line + 1, ls.len() as int));
    assert(valid_utf8(segs[0]));
    valid_utf8_concat(pre, segs[0]);
    if n == 1 {
        valid_utf8_concat(pre + segs[0], tail);
        assert(x[s.line as int] == (pre + segs[0]) + tail);
        is_char_boundary_start_end_of_seq(pre + segs[0]);
        lemma_boundary_concat(pre + segs[0], tail, p.col as int);
    } else {
        assert(valid_utf8(segs[n - 1]));
        valid_utf8_concat(segs[n - 1], tail);
        assert(x[s.line as int] == pre + segs[0]);
        assert(x[p.line as int] == segs[n - 1] + tail);
        is_char_boundary_start_end_of_seq(segs[n - 1]);
        lemma_boundary_concat(segs[n - 1], tail, p.col as int);
        is_char_boundary_start_end_of_seq(pre + segs[0]);
    }
    assert forall|i: int| 0 <= i < x.len() implies valid_utf8(#[trigger] x[i]) by {
        if i < s.line {
            assert(x[i] == ls[i]);
        } else if i >= s.line + mid.len() {
            assert(x[i] == ls[i - mid.len() + e.line + 1 - s.line]);
        } else if n > 1 && s.line < i < s.line + n - 1 {
            assert(x[i] == segs[i - s.line]);
        }
    }
    is_char_boundary_start_end_of_seq(pre);
    if n == 1 {
        valid_utf8_concat(segs[0], tail);
        assert(x[s.line as int] == pre + (segs[0] + tail));
        lemma_boundary_concat(pre, segs[0] + tail, s.col as int);
    } else {
        lemma_boundary_concat(pre, segs[0], s.col as int);
    }
}

/// A position on a character boundary stays on one when it follows a replacement.
pub proof fn lemma_shift_on_boundary(ls: Seq<Seq<u8>>, s: CursorPosition, e: CursorPosition, t: Seq<u8>, q: CursorPosition)
    requires
        lines_valid(ls),
        valid_utf8(t),
        on_boundary(ls, s),
        on_boundary(ls, e),
        pos_le(s, e),
        on_boundary(ls, q),
        valid_pos(replaced(ls, s, e, t), insert_end(s, t)),
        insert_end_fits(s, t),
        replaced(ls, s, e, t).len() <= usize::MAX,
        replaced(ls, s, e, t)[insert_end(s, t).line as int].len() <= usize::MAX,
    ensures
        on_boundary(replaced(ls, s, e, t), shifted(q, s, e, insert_end(s, t))),
{
    lemma_shift_valid(ls, s, e, t, q);
    lemma_replace_valid(ls, s, e, t);
    lemma_replace_shape(ls, s, e, t);
    let x = replaced(ls, s, e, t);
    let p = insert_end(s, t);
    if pos_lt(q, s) {
        if q.line == s.line {
            let l1 = ls[s.line as int];
            let pre = l1.subrange(0, s.col as int);
            let rest = l1.subrange(s.col as int, l1.len() as int);
            valid_utf8_split(l1, s.col as int);
            assert(l1 =~= pre + rest);
            lemma_boundary_concat(pre, rest, q.col as int);
            let xl = x[s.line as int];
            let xrest = xl.subrange(s.col as int, xl.len() as int);
            valid_utf8_split(xl, s.col as int);
            assert(xl =~= pre + xrest);
            lemma_boundary_concat(pre, xrest, q.col as int);
            assert(on_boundary(x, q));
        } else {
            assert(x[q.line as int] == ls[q.line as int]);
            assert(on_boundary(x, q));
        }
    } else if pos_lt(q, e) {
        assert(on_boundary(x, p));
    } else if q.line == e.line {
        let l2 = ls[e.line as int];
        let head = l2.subrange(0, e.col as int);
        let tail = l2.subrange(e.col as int, l2.len() as int);
        valid_utf8_split(l2, e.col as int);
        assert(l2 =~= head + tail);
        lemma_boundary_concat(head, tail, q.col as int);
        let xl = x[p.line as int];
        let xhead = xl.subrange(0, p.col as int);
        valid_utf8_split(xl, p.col as int);
        assert(xl =~= xhead + tail);
        lemma_boundary_concat(xhead, tail, p.col + (q.col - e.col));
        assert(is_char_boundary(xl, p.col + (q.col - e.col)));
        assert(shifted(q, s, e, p).col == p.col + (q.col - e.col));
    } else {
        let j = q.line - e.line;
        assert(x[p.line + j] == ls[e.line + j]);
        assert(shifted(q, s, e, p).line == p.line + j);
    }
}

} // verus!
