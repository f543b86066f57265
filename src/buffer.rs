//! The line buffer: an ordered sequence of byte lines joined by implicit
//! newlines, with the low-level range extraction, deletion and insertion.
use vstd::prelude::*;
use crate::position::{CursorPosition, pos_le};
use vstd::utf8::{is_char_boundary, is_char_boundary_iff_not_is_continuation_byte, is_char_boundary_start_end_of_seq, valid_utf8};

verus! {

/// The byte that separates lines in flat text.
pub const NEWLINE: u8 = 10;

/// The contents of a vector of lines, as byte sequences.
pub open spec fn lines_of(v: Seq<Vec<u8>>) -> Seq<Seq<u8>> {
    v.map_values(|l: Vec<u8>| l@)
}

/// A position that names an existing line and a column within (or at the end of) it.
pub open spec fn valid_pos(ls: Seq<Seq<u8>>, p: CursorPosition) -> bool {
    p.line < ls.len() && p.col <= ls[p.line as int].len()
}

/// The lines `a .. b`, each preceded by a newline.
pub open spec fn lines_between(ls: Seq<Seq<u8>>, a: int, b: int) -> Seq<u8>
    decreases b - a,
{
    if b <= a {
        seq![]
    } else {
        lines_between(ls, a, b - 1) + seq![NEWLINE] + ls[b - 1]
    }
}

/// The text between two positions, lines joined by newlines.
pub open spec fn range_text(ls: Seq<Seq<u8>>, s: CursorPosition, e: CursorPosition) -> Seq<u8> {
    let first = ls[s.line as int];
    if s.line == e.line {
        first.subrange(s.col as int, e.col as int)
    } else {
        first.subrange(s.col as int, first.len() as int) + lines_between(
            ls,
            s.line + 1,
            e.line as int,
        ) + seq![NEWLINE] + ls[e.line as int].subrange(0, e.col as int)
    }
}

/// The lines after removing the text between `s` and `e`.
pub open spec fn deleted(ls: Seq<Seq<u8>>, s: CursorPosition, e: CursorPosition) -> Seq<Seq<u8>> {
    let last = ls[e.line as int];
    ls.subrange(0, s.line as int) + seq![
        ls[s.line as int].subrange(0, s.col as int) + last.subrange(e.col as int, last.len() as int),
    ] + ls.subrange(e.line + 1, ls.len() as int)
}

/// Every line is valid UTF-8.
pub open spec fn lines_valid(ls: Seq<Seq<u8>>) -> bool {
    forall|i: int| 0 <= i < ls.len() ==> valid_utf8(#[trigger] ls[i])
}

/// A valid position whose column starts a character (or ends the line).
pub open spec fn on_boundary(ls: Seq<Seq<u8>>, p: CursorPosition) -> bool {
    valid_pos(ls, p) && is_char_boundary(ls[p.line as int], p.col as int)
}

/// The last character boundary at or before column `c`.
pub open spec fn snap_down(line: Seq<u8>, c: int) -> int
    decreases c,
{
    if c <= 0 {
        0
    } else if is_char_boundary(line, c) {
        c
    } else {
        snap_down(line, c - 1)
    }
}

/// The last character boundary at or before column `c`, at most the line's end.
pub open spec fn snap_col(line: Seq<u8>, c: int) -> int {
    snap_down(line, if c <= line.len() { c } else { line.len() as int })
}

pub proof fn lemma_snap_down(line: Seq<u8>, c: int)
    requires
        valid_utf8(line),
        c <= line.len(),
    ensures
        0 <= snap_down(line, c),
        snap_down(line, c) <= c || c < 0,
        is_char_boundary(line, snap_down(line, c)),
    decreases c,
{
    is_char_boundary_start_end_of_seq(line);
    if c > 0 && !is_char_boundary(line, c) {
        lemma_snap_down(line, c - 1);
    }
}

/// `t` cut at every newline byte; always at least one (possibly empty) segment.
pub open spec fn split_lines(t: Seq<u8>) -> Seq<Seq<u8>>
    decreases t.len(),
{
    if t.len() == 0 {
        seq![seq![]]
    } else {
        let rest = split_lines(t.drop_last());
        if t.last() == NEWLINE {
            rest.push(seq![])
        } else {
            rest.update(rest.len() - 1, rest.last().push(t.last()))
        }
    }
}

/// The lines that replace the line of an insertion point: the text before the
/// point joined to the first segment, the middle segments, and the last segment
/// joined to the text after the point.
pub open spec fn spliced(pre: Seq<u8>, segs: Seq<Seq<u8>>, post: Seq<u8>) -> Seq<Seq<u8>> {
    let n = segs.len();
    if n == 1 {
        seq![pre + segs[0] + post]
    } else {
        seq![pre + segs[0]] + segs.subrange(1, n - 1) + seq![segs[n - 1] + post]
    }
}

/// The lines after inserting `t` at `p`.
pub open spec fn inserted(ls: Seq<Seq<u8>>, p: CursorPosition, t: Seq<u8>) -> Seq<Seq<u8>> {
    let line = ls[p.line as int];
    ls.subrange(0, p.line as int) + spliced(
        line.subrange(0, p.col as int),
        split_lines(t),
        line.subrange(p.col as int, line.len() as int),
    ) + ls.subrange(p.line + 1, ls.len() as int)
}

/// Where the caret stands after inserting `t` at `p`: at the end of the inserted text.
pub open spec fn insert_end(p: CursorPosition, t: Seq<u8>) -> CursorPosition {
    let segs = split_lines(t);
    if segs.len() == 1 {
        CursorPosition { line: p.line, col: (p.col + t.len()) as usize }
    } else {
        CursorPosition { line: (p.line + segs.len() - 1) as usize, col: segs.last().len() as usize }
    }
}

/// The numbers of `insert_end` fit in machine words.
pub open spec fn insert_end_fits(p: CursorPosition, t: Seq<u8>) -> bool {
    let segs = split_lines(t);
    if segs.len() == 1 {
        p.col + t.len() <= usize::MAX
    } else {
        p.line + segs.len() - 1 <= usize::MAX && segs.last().len() <= usize::MAX
    }
}

pub proof fn lemma_split_lines_nonempty(t: Seq<u8>)
    ensures
        split_lines(t).len() >= 1,
        split_lines(t).len() <= t.len() + 1,
        forall|k: int| 0 <= k < split_lines(t).len() ==> #[trigger] split_lines(t)[k].len() <= t.len(),
    decreases t.len(),
{
    if t.len() > 0 {
        lemma_split_lines_nonempty(t.drop_last());
    }
}

/// Relies on `std::str::from_utf8`: it succeeds exactly on valid UTF-8.
#[verifier::external_body]
pub(crate) fn is_valid_utf8(b: &[u8]) -> (r: bool)
    ensures
        r == valid_utf8(b@),
{
    std::str::from_utf8(b).is_ok()
}

/// Whether `col` starts a character of `line` or is its end.
pub fn is_boundary(line: &Vec<u8>, col: usize) -> (r: bool)
    requires
        valid_utf8(line@),
    ensures
        r == (col <= line@.len() && is_char_boundary(line@, col as int)),
{
    proof {
        is_char_boundary_start_end_of_seq(line@);
    }
    if col > line.len() {
        return false;
    }
    if col == line.len() {
        return true;
    }
    proof {
        is_char_boundary_iff_not_is_continuation_byte(line@, col as int);
    }
    let b = line[col];
    !(0x80 <= b && b <= 0xbf)
}

/// The last character boundary of `line` at or before `col` (see `snap_col`).
pub fn snap_to_boundary(line: &Vec<u8>, col: usize) -> (r: usize)
    requires
        valid_utf8(line@),
    ensures
        r == snap_col(line@, col as int),
        r <= line@.len(),
        r <= col,
        is_char_boundary(line@, r as int),
{
    let mut c: usize = if col <= line.len() { col } else { line.len() };
    proof {
        lemma_snap_down(line@, c as int);
    }
    while c > 0 && !is_boundary(line, c)
        invariant
            valid_utf8(line@),
            c <= line@.len(),
            c <= col,
            snap_down(line@, c as int) == snap_col(line@, col as int),
        decreases c,
    {
        c -= 1;
    }
    proof {
        lemma_snap_down(line@, c as int);
        is_char_boundary_start_end_of_seq(line@);
    }
    c
}

/// The bytes `v[a..b]` as a new vector.
pub fn copy_range(v: &Vec<u8>, a: usize, b: usize) -> (r: Vec<u8>)
    requires
        a <= b <= v.len(),
    ensures
        r@ == v@.subrange(a as int, b as int),
{
    let mut r: Vec<u8> = Vec::new();
    let mut i: usize = a;
    while i < b
        invariant
            a <= i <= b <= v.len(),
            r@ == v@.subrange(a as int, i as int),
        decreases b - i,
    {
        r.push(v[i]);
        proof {
            assert(v@.subrange(a as int, i + 1) =~= v@.subrange(a as int, i as int).push(v@[i as int]));
        }
        i += 1;
    }
    r
}

/// Appends `src[a..b]` to `dst`.
pub fn append_range(dst: &mut Vec<u8>, src: &Vec<u8>, a: usize, b: usize)
    requires
        a <= b <= src.len(),
    ensures
        final(dst)@ == old(dst)@ + src@.subrange(a as int, b as int),
{
    let mut i: usize = a;
    while i < b
        invariant
            a <= i <= b <= src.len(),
            dst@ == old(dst)@ + src@.subrange(a as int, i as int),
        decreases b - i,
    {
        dst.push(src[i]);
        proof {
            assert(old(dst)@ + src@.subrange(a as int, i + 1) =~= (old(dst)@ + src@.subrange(
                a as int,
                i as int,
            )).push(src@[i as int]));
        }
        i += 1;
    }
}

/// Cuts `text` at every newline byte.
pub fn split_text(text: &[u8]) -> (r: Vec<Vec<u8>>)
    ensures
        lines_of(r@) == split_lines(text@),
{
    let mut r: Vec<Vec<u8>> = Vec::new();
    r.push(Vec::new());
    let mut i: usize = 0;
    proof {
        assert(text@.subrange(0, 0) =~= seq![]);
        assert(lines_of(r@) =~= split_lines(text@.subrange(0, 0)));
    }
    while i < text.len()
        invariant
            i <= text@.len(),
            lines_of(r@) == split_lines(text@.subrange(0, i as int)),
            r@.len() >= 1,
        decreases text@.len() - i,
    {
        let b = text[i];
        let ghost prev = text@.subrange(0, i as int);
        let ghost next = text@.subrange(0, i + 1);
        proof {
            assert(next.drop_last() =~= prev);
            assert(next.last() == b);
        }
        if b == NEWLINE {
            r.push(Vec::new());
            proof {
                assert(lines_of(r@) =~= split_lines(prev).push(seq![]));
            }
        } else {
            let last = r.len() - 1;
            let mut seg = r.pop().unwrap();
            seg.push(b);
            r.push(seg);
            proof {
                assert(lines_of(r@) =~= split_lines(prev).update(last as int, split_lines(prev).last().push(b)));
            }
        }
        i += 1;
    }
    proof {
        assert(text@.subrange(0, text@.len() as int) =~= text@);
    }
    r
}

/// The text between `start` and `end`, lines joined by newlines.
pub fn text_in_range(lines: &Vec<Vec<u8>>, start: CursorPosition, end: CursorPosition) -> (r: Vec<u8>)
    requires
        valid_pos(lines_of(lines@), start),
        valid_pos(lines_of(lines@), end),
        pos_le(start, end),
    ensures
        r@ == range_text(lines_of(lines@), start, end),
{
    let ghost ls = lines_of(lines@);
    if start.line == end.line {
        return copy_range(&lines[start.line], start.col, end.col);
    }
    let mut r = copy_range(&lines[start.line], start.col, lines[start.line].len());
    let ghost head = r@;
    let mut i: usize = start.line + 1;
    proof {
        assert(head + lines_between(ls, start.line + 1, (start.line + 1) as int) =~= head);
    }
    while i < end.line
        invariant
            start.line < i <= end.line < lines@.len(),
            ls == lines_of(lines@),
            r@ == head + lines_between(ls, start.line + 1, i as int),
        decreases end.line - i,
    {
        r.push(NEWLINE);
        append_range(&mut r, &lines[i], 0, lines[i].len());
        proof {
            assert(lines[i as int]@.subrange(0, lines[i as int]@.len() as int) =~= ls[i as int]);
            assert(head + lines_between(ls, start.line + 1, i + 1) =~= head + lines_between(
                ls,
                start.line + 1,
                i as int,
            ) + seq![NEWLINE] + ls[i as int]);
        }
        i += 1;
    }
    r.push(NEWLINE);
    append_range(&mut r, &lines[end.line], 0, end.col);
    proof {
        assert(r@ =~= range_text(ls, start, end));
    }
    r
}

/// Removes the text between `start` and `end`, returning it.
pub fn delete_range(lines: &mut Vec<Vec<u8>>, start: CursorPosition, end: CursorPosition) -> (r: Vec<u8>)
    requires
        valid_pos(lines_of(old(lines)@), start),
        valid_pos(lines_of(old(lines)@), end),
        pos_le(start, end),
    ensures
        r@ == range_text(lines_of(old(lines)@), start, end),
        lines_of(final(lines)@) == deleted(lines_of(old(lines)@), start, end),
{
    let ghost ls = lines_of(lines@);
    if start.same_as(&end) {
        proof {
            let l = ls[start.line as int];
            assert(l.subrange(0, start.col as int) + l.subrange(end.col as int, l.len() as int) =~= l);
            assert(deleted(ls, start, end) =~= ls);
            assert(range_text(ls, start, end) =~= seq![]);
        }
        return Vec::new();
    }
    let removed = text_in_range(lines, start, end);
    let mut merged = copy_range(&lines[start.line], 0, start.col);
    append_range(&mut merged, &lines[end.line], end.col, lines[end.line].len());
    let mut k: usize = start.line;
    while k < end.line
        invariant
            start.line <= k <= end.line < ls.len(),
            lines@.len() == ls.len() - (k - start.line),
            lines_of(lines@) == ls.subrange(0, start.line + 1) + ls.subrange(k + 1, ls.len() as int),
        decreases end.line - k,
    {
        let ghost before = lines@;
        lines.remove(start.line + 1);
        proof {
            assert(lines_of(lines@) =~= lines_of(before).remove(start.line + 1));
            assert(lines_of(lines@) =~= ls.subrange(0, start.line + 1) + ls.subrange(
                k + 2,
                ls.len() as int,
            ));
        }
        k += 1;
    }
    let ghost before = lines@;
    proof {
        assert(merged@ == ls[start.line as int].subrange(0, start.col as int) + ls[end.line as int].subrange(
            end.col as int,
            ls[end.line as int].len() as int,
        ));
    }
    lines.set(start.line, merged);
    proof {
        assert(lines_of(lines@) =~= lines_of(before).update(start.line as int, merged@));
        assert(lines_of(lines@) =~= deleted(ls, start, end));
    }
    removed
}

/// Inserts `text` at `pos`, splitting it into lines at its newline bytes, and
/// returns the position just after the inserted text.
pub fn insert_at(lines: &mut Vec<Vec<u8>>, pos: CursorPosition, text: &[u8]) -> (r: CursorPosition)
    requires
        valid_pos(lines_of(old(lines)@), pos),
    ensures
        lines_of(final(lines)@) == inserted(lines_of(old(lines)@), pos, text@),
        r == insert_end(pos, text@),
        insert_end_fits(pos, text@),
        valid_pos(lines_of(final(lines)@), r),
{
    let ghost ls = lines_of(lines@);
    let segs = split_text(text);
    proof {
        lemma_split_lines_nonempty(text@);
    }
    let n = segs.len();
    let l = pos.line;
    let len = lines[l].len();
    if n == 1 {
        let mut nl = copy_range(&lines[l], 0, pos.col);
        append_range(&mut nl, &segs[0], 0, segs[0].len());
        let c = nl.len();
        append_range(&mut nl, &lines[l], pos.col, len);
        lines.set(l, nl);
        proof {
            assert(segs[0]@.subrange(0, segs[0]@.len() as int) =~= segs[0]@);
            lemma_split_total_len(text@);
            assert(lines_of(lines@) =~= inserted(ls, pos, text@));
        }
        return CursorPosition::new(l, c);
    }
    let suffix = copy_range(&lines[l], pos.col, len);
    let mut first = copy_range(&lines[l], 0, pos.col);
    append_range(&mut first, &segs[0], 0, segs[0].len());
    let ghost before = lines@;
    lines.set(l, first);
    proof {
        assert(lines_of(lines@) =~= lines_of(before).update(l as int, first@));
    }
    let ghost pre = ls[l as int].subrange(0, pos.col as int);
    let ghost sg = split_lines(text@);
    proof {
        assert(segs[0]@.subrange(0, segs[0]@.len() as int) =~= segs[0]@);
    }
    let mut i: usize = 1;
    let mut end_col: usize = 0;
    while i < n
        invariant
            1 <= i <= n,
            n == sg.len(),
            n >= 2,
            l == pos.line,
            l < ls.len(),
            pos.col <= ls[l as int].len(),
            lines@.len() == ls.len() + i - 1,
            lines_of(segs@) == sg,
            suffix@ == ls[l as int].subrange(pos.col as int, ls[l as int].len() as int),
            lines_of(lines@) == ls.subrange(0, l as int) + seq![pre + sg[0]] + sg.subrange(
                1,
                if i == n { n - 1 } else { i as int },
            ) + (if i == n { seq![sg[n - 1] + suffix@] } else { seq![] })
                + ls.subrange(l + 1, ls.len() as int),
            i == n ==> end_col == sg[n - 1].len(),
        decreases n - i,
    {
        if i == n - 1 {
            let mut last = copy_range(&segs[i], 0, segs[i].len());
            end_col = last.len();
            append_range(&mut last, &suffix, 0, suffix.len());
            let ghost before = lines@;
            let cur = lines.len();
            assert(l + i <= cur);
            lines.insert(l + i, last);
            proof {
                assert(lines_of(lines@) =~= lines_of(before).insert(l + i, last@));
                assert(suffix@.subrange(0, suffix@.len() as int) =~= suffix@);
                assert(segs[i as int]@.subrange(0, segs[i as int]@.len() as int) =~= sg[i as int]);
                assert(lines_of(lines@) =~= ls.subrange(0, l as int) + seq![pre + sg[0]] + sg.subrange(
                    1,
                    i as int,
                ) + seq![sg[n - 1] + suffix@] + ls.subrange(l + 1, ls.len() as int));
            }
        } else {
            let seg = copy_range(&segs[i], 0, segs[i].len());
            assert(seg@ =~= sg[i as int]);
            let ghost before = lines@;
            let cur = lines.len();
            assert(l + i <= cur);
            lines.insert(l + i, seg);
            proof {
                assert(lines_of(lines@) =~= lines_of(before).insert(l + i, seg@));
                assert(lines_of(lines@) =~= ls.subrange(0, l as int) + seq![pre + sg[0]] + sg.subrange(
                    1,
                    (i + 1) as int,
                ) + ls.subrange(l + 1, ls.len() as int));
            }
        }
        i += 1;
    }
    proof {
        assert(lines_of(lines@) =~= inserted(ls, pos, text@));
    }
    let total = lines.len();
    assert(l + n - 1 < total);
    CursorPosition::new(l + (n - 1), end_col)
}

/// Text without a newline splits into itself alone.
pub proof fn lemma_split_total_len(t: Seq<u8>)
    ensures
        split_lines(t).len() == 1 ==> split_lines(t)[0] == t,
    decreases t.len(),
{
    if t.len() > 0 {
        lemma_split_lines_nonempty(t.drop_last());
        lemma_split_total_len(t.drop_last());
        if t.last() != NEWLINE {
            assert(t.drop_last().push(t.last()) =~= t);
        }
    }
}

/// Deleting exactly the text that an insertion added gives back the lines
/// as they were before the insertion.
/// The text removed is exactly the text inserted.
pub proof fn lemma_delete_undoes_insert(ls: Seq<Seq<u8>>, p: CursorPosition, t: Seq<u8>)
    requires
        valid_pos(ls, p),
        insert_end_fits(p, t),
    ensures
        valid_pos(inserted(ls, p, t), insert_end(p, t)),
        pos_le(p, insert_end(p, t)),
        deleted(inserted(ls, p, t), p, insert_end(p, t)) == ls,
        range_text(inserted(ls, p, t), p, insert_end(p, t)) == t,
{
    lemma_split_lines_nonempty(t);
    lemma_split_total_len(t);
    let segs = split_lines(t);
    let n = segs.len();
    let line = ls[p.line as int];
    let pre = line.subrange(0, p.col as int);
    let post = line.subrange(p.col as int, line.len() as int);
    let x = inserted(ls, p, t);
    let e = insert_end(p, t);
    assert(pre + post =~= line);
    lemma_split_rejoins(t);
    if n == 1 {
        assert(x[p.line as int] == pre + t + post);
        assert(e.col == p.col + t.len());
        assert((pre + t + post).subrange(0, p.col as int) =~= pre);
        assert((pre + t + post).subrange(e.col as int, (pre + t + post).len() as int) =~= post);
        assert((pre + t + post).subrange(p.col as int, e.col as int) =~= t);
        assert(deleted(x, p, e) =~= ls);
    } else {
        assert(x[p.line as int] == pre + segs[0]);
        assert(x[e.line as int] == segs[n - 1] + post);
        assert((pre + segs[0]).subrange(0, p.col as int) =~= pre);
        assert((pre + segs[0]).subrange(p.col as int, (pre + segs[0]).len() as int) =~= segs[0]);
        assert((segs[n - 1] + post).subrange(e.col as int, (segs[n - 1] + post).len() as int) =~= post);
        assert((segs[n - 1] + post).subrange(0, e.col as int) =~= segs[n - 1]);
        assert(x.subrange(e.line + 1, x.len() as int) =~= ls.subrange(p.line + 1, ls.len() as int));
        assert(deleted(x, p, e) =~= ls);
        lemma_inserted_middle(ls, p, t, n - 1);
        assert(range_text(x, p, e) == joined(segs, n - 1) + seq![NEWLINE] + segs[n - 1]);
    }
}

/// After a multi-line insertion, the first segment and the whole middle lines
/// that follow it rejoin the first segments.
proof fn lemma_inserted_middle(ls: Seq<Seq<u8>>, p: CursorPosition, t: Seq<u8>, m: int)
    requires
        valid_pos(ls, p),
        split_lines(t).len() >= 2,
        1 <= m <= split_lines(t).len() - 1,
    ensures
        split_lines(t)[0] + lines_between(inserted(ls, p, t), p.line + 1, p.line + m) == joined(split_lines(t), m),
    decreases m,
{
    let segs = split_lines(t);
    let x = inserted(ls, p, t);
    if m == 1 {
        assert(segs[0] + lines_between(x, p.line + 1, p.line + 1) =~= segs[0]);
    } else {
        lemma_inserted_middle(ls, p, t, m - 1);
        assert(x[p.line + m - 1] == segs[m - 1]);
        assert(segs[0] + lines_between(x, p.line + 1, p.line + m) =~= (segs[0] + lines_between(
            x,
            p.line + 1,
            p.line + m - 1,
        )) + seq![NEWLINE] + segs[m - 1]);
    }
}

/// Joining depends only on the lines joined.
proof fn lemma_joined_prefix(s1: Seq<Seq<u8>>, s2: Seq<Seq<u8>>, n: int)
    requires
        0 <= n <= s1.len(),
        n <= s2.len(),
        forall|i: int| 0 <= i < n ==> s1[i] == s2[i],
    ensures
        joined(s1, n) == joined(s2, n),
    decreases n,
{
    if n > 1 {
        lemma_joined_prefix(s1, s2, n - 1);
    }
}

/// The lines of a text, joined again by newlines, give the text back.
pub proof fn lemma_split_rejoins(t: Seq<u8>)
    ensures
        joined(split_lines(t), split_lines(t).len() as int) == t,
    decreases t.len(),
{
    lemma_split_lines_nonempty(t);
    if t.len() == 0 {
        assert(joined(split_lines(t), 1) =~= t);
    } else {
        let t0 = t.drop_last();
        let c = t.last();
        let r = split_lines(t0);
        let m = r.len() as int;
        lemma_split_lines_nonempty(t0);
        lemma_split_rejoins(t0);
        let u = split_lines(t);
        assert(t0.push(c) =~= t);
        if c == NEWLINE {
            assert(u == r.push(seq![]));
            lemma_joined_prefix(u, r, m);
            assert(joined(u, m + 1) == joined(u, m) + seq![NEWLINE] + u[m]);
            assert(joined(u, m + 1) =~= t);
        } else {
            assert(u == r.update(m - 1, r[m - 1].push(c)));
            if m == 1 {
                assert(joined(u, 1) =~= t);
            } else {
                lemma_joined_prefix(u, r, m - 1);
                assert(joined(r, m) == joined(r, m - 1) + seq![NEWLINE] + r[m - 1]);
                assert(joined(u, m) =~= t);
            }
        }
    }
}

/// Flat offset of the first byte of line `i`: every earlier line plus its newline.
pub open spec fn line_start(ls: Seq<Seq<u8>>, i: int) -> int
    decreases i,
{
    if i <= 0 {
        0
    } else {
        line_start(ls, i - 1) + ls[i - 1].len() + 1
    }
}

/// Length of the text when all lines are joined by newlines.
pub open spec fn flat_len(ls: Seq<Seq<u8>>) -> int {
    line_start(ls, ls.len() as int) - 1
}

/// The flat offset of a position; columns past the end of their line count as the line's end.
pub open spec fn flat_offset_of(ls: Seq<Seq<u8>>, p: CursorPosition) -> int {
    if p.line < ls.len() {
        let len = ls[p.line as int].len();
        line_start(ls, p.line as int) + (if p.col <= len { p.col as int } else { len as int })
    } else {
        line_start(ls, ls.len() as int)
    }
}

/// The position of a flat offset, walking from line `i` with `rem` bytes left;
/// an offset past the end lands at the end of the last line.
pub open spec fn position_at(ls: Seq<Seq<u8>>, i: int, rem: int) -> CursorPosition
    decreases ls.len() - i,
{
    if i < 0 || i >= ls.len() {
        CursorPosition {
            line: (ls.len() - 1) as usize,
            col: ls[ls.len() - 1].len() as usize,
        }
    } else if rem <= ls[i].len() {
        CursorPosition { line: i as usize, col: rem as usize }
    } else {
        position_at(ls, i + 1, rem - ls[i].len() - 1)
    }
}

pub open spec fn position_of_flat(ls: Seq<Seq<u8>>, offset: int) -> CursorPosition {
    position_at(ls, 0, offset)
}

proof fn lemma_line_start_mono(ls: Seq<Seq<u8>>, i: int, j: int)
    requires
        0 <= i <= j <= ls.len(),
    ensures
        line_start(ls, i) + (j - i) <= line_start(ls, j),
        i < j ==> line_start(ls, i) + ls[i].len() + 1 <= line_start(ls, j),
    decreases j - i,
{
    if i < j {
        lemma_line_start_mono(ls, i, j - 1);
    }
}

/// The lines joined by newlines.
pub open spec fn joined(ls: Seq<Seq<u8>>, n: int) -> Seq<u8>
    decreases n,
{
    if n <= 1 {
        if n == 1 { ls[0] } else { seq![] }
    } else {
        joined(ls, n - 1) + seq![NEWLINE] + ls[n - 1]
    }
}

pub open spec fn flat_of(ls: Seq<Seq<u8>>) -> Seq<u8> {
    joined(ls, ls.len() as int)
}

proof fn lemma_joined_len(ls: Seq<Seq<u8>>, n: int)
    requires
        1 <= n <= ls.len(),
    ensures
        joined(ls, n).len() == line_start(ls, n) - 1,
    decreases n,
{
    assert(line_start(ls, 0) == 0);
    if n > 1 {
        lemma_joined_len(ls, n - 1);
    }
}

/// All lines joined by newline bytes.
pub fn flat_text(lines: &Vec<Vec<u8>>) -> (r: Vec<u8>)
    requires
        lines@.len() >= 1,
    ensures
        r@ == flat_of(lines_of(lines@)),
        r@.len() == flat_len(lines_of(lines@)),
        flat_len(lines_of(lines@)) <= usize::MAX,
{
    let ghost ls = lines_of(lines@);
    let mut r = copy_range(&lines[0], 0, lines[0].len());
    proof {
        assert(r@ =~= joined(ls, 1));
    }
    let mut i: usize = 1;
    while i < lines.len()
        invariant
            1 <= i <= lines@.len(),
            ls == lines_of(lines@),
            r@ == joined(ls, i as int),
        decreases lines@.len() - i,
    {
        r.push(NEWLINE);
        append_range(&mut r, &lines[i], 0, lines[i].len());
        proof {
            assert(lines[i as int]@.subrange(0, lines[i as int]@.len() as int) =~= ls[i as int]);
            assert(r@ =~= joined(ls, i + 1));
        }
        i += 1;
    }
    proof {
        lemma_joined_len(ls, ls.len() as int);
    }
    let size = r.len();
    assert(size == flat_len(ls));
    r
}

/// The flat byte offset of `pos` in the text joined by newlines.
pub fn flat_offset(lines: &Vec<Vec<u8>>, pos: CursorPosition) -> (r: usize)
    requires
        pos.line < lines@.len(),
        flat_len(lines_of(lines@)) <= usize::MAX,
    ensures
        r == flat_offset_of(lines_of(lines@), pos),
        r <= flat_len(lines_of(lines@)),
{
    let ghost ls = lines_of(lines@);
    let n = lines.len();
    let mut offset: usize = 0;
    let mut i: usize = 0;
    proof {
        lemma_line_start_mono(ls, pos.line as int, n as int);
        lemma_line_start_mono(ls, 0, n as int);
        assert(line_start(ls, 0) == 0);
    }
    while i < pos.line
        invariant
            i <= pos.line < n == lines@.len(),
            ls == lines_of(lines@),
            offset == line_start(ls, i as int),
            line_start(ls, pos.line as int) + ls[pos.line as int].len() + 1 <= line_start(ls, n as int),
            flat_len(ls) <= usize::MAX,
        decreases pos.line - i,
    {
        proof {
            lemma_line_start_mono(ls, i + 1, pos.line as int);
        }
        offset = offset + lines[i].len() + 1;
        i += 1;
    }
    let len = lines[pos.line].len();
    offset + if pos.col <= len { pos.col } else { len }
}

/// The position of a flat byte offset; offsets past the end clamp to the end of the last line.
pub fn position_from_flat(lines: &Vec<Vec<u8>>, offset: usize) -> (r: CursorPosition)
    requires
        lines@.len() >= 1,
    ensures
        r == position_of_flat(lines_of(lines@), offset as int),
        valid_pos(lines_of(lines@), r),
{
    let ghost ls = lines_of(lines@);
    let mut remaining: usize = offset;
    let mut i: usize = 0;
    while i < lines.len()
        invariant
            i <= lines@.len(),
            lines@.len() >= 1,
            ls == lines_of(lines@),
            position_at(ls, i as int, remaining as int) == position_of_flat(ls, offset as int),
        decreases lines@.len() - i,
    {
        let len = lines[i].len();
        if remaining <= len {
            return CursorPosition::new(i, remaining);
        }
        remaining = remaining - len - 1;
        i += 1;
    }
    let last = lines.len() - 1;
    CursorPosition::new(last, lines[last].len())
}

/// Flat offsets and positions convert into each other without loss: a valid
/// position survives the round trip through its offset, and every offset up to
/// the length of the joined text survives the round trip through its position.
pub proof fn lemma_flat_offset_round_trip(ls: Seq<Seq<u8>>, p: CursorPosition, o: int)
    requires
        ls.len() >= 1,
        flat_len(ls) <= usize::MAX,
    ensures
        valid_pos(ls, p) ==> position_of_flat(ls, flat_offset_of(ls, p)) == p,
        0 <= o <= flat_len(ls) ==> flat_offset_of(ls, position_of_flat(ls, o)) == o,
{
    if valid_pos(ls, p) {
        lemma_position_at_offset(ls, p, 0);
    }
    if 0 <= o <= flat_len(ls) {
        lemma_offset_at_position(ls, 0, o, o);
    }
}

proof fn lemma_position_at_offset(ls: Seq<Seq<u8>>, p: CursorPosition, i: int)
    requires
        flat_len(ls) <= usize::MAX,
        valid_pos(ls, p),
        0 <= i <= p.line,
    ensures
        position_at(ls, i, line_start(ls, p.line as int) - line_start(ls, i) + p.col) == p,
    decreases p.line - i,
{
    if i < p.line {
        lemma_line_start_mono(ls, i + 1, p.line as int);
        lemma_position_at_offset(ls, p, i + 1);
    }
}

proof fn lemma_offset_at_position(ls: Seq<Seq<u8>>, i: int, rem: int, o: int)
    requires
        flat_len(ls) <= usize::MAX,
        0 <= i < ls.len(),
        0 <= rem,
        line_start(ls, i) + rem == o,
        o <= flat_len(ls),
    ensures
        flat_offset_of(ls, position_at(ls, i, rem)) == o,
    decreases ls.len() - i,
{
    lemma_line_start_mono(ls, i, ls.len() as int);
    lemma_line_start_mono(ls, 0, ls.len() as int);
    lemma_line_start_mono(ls, 0, i);
    assert(line_start(ls, 0) == 0);
    if rem > ls[i].len() {
        if i + 1 == ls.len() {
            assert(false);
        }
        lemma_offset_at_position(ls, i + 1, rem - ls[i].len() - 1, o);
    }
}

} // verus!
