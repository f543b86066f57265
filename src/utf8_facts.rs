//! Facts about UTF-8 byte sequences that the buffer's invariant rests on:
//! character boundaries of joined sequences, and validity of cut pieces.
use vstd::prelude::*;
use crate::buffer::{lemma_split_lines_nonempty, joined, lines_between, lines_valid, on_boundary, range_text, split_lines, NEWLINE};
use crate::position::{CursorPosition, pos_le};
use vstd::utf8::{
    decode_first_codepoint, is_char_boundary, is_char_boundary_iff_not_is_continuation_byte, is_char_boundary_start_end_of_seq, length_of_first_scalar,
    pop_first_scalar, valid_first_scalar, valid_utf8, valid_utf8_concat, valid_utf8_split,
};

verus! {

/// The first scalar of `a + b` is the first scalar of a valid non-empty `a`.
proof fn lemma_first_scalar_of_concat(a: Seq<u8>, b: Seq<u8>)
    requires
        valid_utf8(a),
        a.len() > 0,
    ensures
        valid_first_scalar(a),
        length_of_first_scalar(a) <= a.len(),
        valid_first_scalar(a + b),
        length_of_first_scalar(a + b) == length_of_first_scalar(a),
        pop_first_scalar(a + b) == pop_first_scalar(a) + b,
        valid_utf8(pop_first_scalar(a)),
{
    let ab = a + b;
    assert(ab[0] == a[0]);
    if a.len() >= 2 {
        assert(ab[1] == a[1]);
    }
    if a.len() >= 3 {
        assert(ab[2] == a[2]);
    }
    if a.len() >= 4 {
        assert(ab[3] == a[3]);
    }
    assert(decode_first_codepoint(ab) == decode_first_codepoint(a));
    assert(pop_first_scalar(ab) =~= pop_first_scalar(a) + b);
}

/// A character boundary of `a + b` is one of `a` up to `a`'s end, and one of
/// `b`, shifted, after it.
pub proof fn lemma_boundary_concat(a: Seq<u8>, b: Seq<u8>, i: int)
    requires
        valid_utf8(a),
        valid_utf8(b),
    ensures
        0 <= i <= a.len() ==> (is_char_boundary(a + b, i) <==> is_char_boundary(a, i)),
        a.len() <= i ==> (is_char_boundary(a + b, i) <==> is_char_boundary(b, i - a.len())),
    decreases a.len(),
{
    valid_utf8_concat(a, b);
    if a.len() == 0 {
        assert(a + b =~= b);
    } else if i > 0 {
        lemma_first_scalar_of_concat(a, b);
        let w = length_of_first_scalar(a);
        let rest = pop_first_scalar(a);
        lemma_boundary_concat(rest, b, i - w);
        valid_utf8_concat(rest, b);
        if i <= a.len() + b.len() {
            assert(is_char_boundary(a + b, i) == is_char_boundary(rest + b, i - w));
        }
        if i <= a.len() {
            assert(is_char_boundary(a, i) == is_char_boundary(rest, i - w));
        }
        if i > a.len() + b.len() {
            assert(!is_char_boundary(a + b, i));
        }
    }
}

/// Splitting around a newline splits the pieces on either side.
proof fn lemma_split_around_newline(x: Seq<u8>, y: Seq<u8>)
    ensures
        split_lines(x + seq![NEWLINE] + y) == split_lines(x) + split_lines(y),
    decreases y.len(),
{
    lemma_split_lines_nonempty(x);
    if y.len() == 0 {
        assert(x + seq![NEWLINE] + y =~= x + seq![NEWLINE]);
        assert((x + seq![NEWLINE]).drop_last() =~= x);
        assert(split_lines(x) + split_lines(y) =~= split_lines(x).push(seq![]));
    } else {
        let t = x + seq![NEWLINE] + y;
        let yd = y.drop_last();
        assert(t.drop_last() =~= x + seq![NEWLINE] + yd);
        lemma_split_around_newline(x, yd);
        lemma_split_lines_nonempty(yd);
        let a = split_lines(x);
        let r = split_lines(yd);
        assert(t.last() == y.last());
        if y.last() == NEWLINE {
            assert((a + r).push(seq![]) =~= a + r.push(seq![]));
        } else {
            assert((a + r).update((a + r).len() - 1, (a + r).last().push(y.last())) =~= a + r.update(
                r.len() - 1,
                r.last().push(y.last()),
            ));
        }
    }
}

/// Text without newlines is one line.
proof fn lemma_split_no_newline(t: Seq<u8>)
    requires
        forall|i: int| 0 <= i < t.len() ==> t[i] != NEWLINE,
    ensures
        split_lines(t) == seq![t],
    decreases t.len(),
{
    if t.len() > 0 {
        lemma_split_no_newline(t.drop_last());
        assert(t.drop_last().push(t.last()) =~= t);
        assert(t.last() != NEWLINE);
        let rest = split_lines(t.drop_last());
        assert(rest == seq![t.drop_last()]);
        assert(split_lines(t) == rest.update(rest.len() - 1, rest.last().push(t.last())));
        assert(split_lines(t) =~= seq![t]);
    } else {
        assert(t =~= Seq::<u8>::empty());
        assert(split_lines(t) =~= seq![t]);
    }
}

/// Every line cut out of valid UTF-8 at its newlines is valid UTF-8.
pub proof fn lemma_split_valid(t: Seq<u8>)
    requires
        valid_utf8(t),
    ensures
        forall|k: int| 0 <= k < split_lines(t).len() ==> valid_utf8(#[trigger] split_lines(t)[k]),
    decreases t.len(),
{
    if forall|i: int| 0 <= i < t.len() ==> t[i] != NEWLINE {
        lemma_split_no_newline(t);
    } else {
        let i = choose|i: int| 0 <= i < t.len() && t[i] == NEWLINE;
        let x = t.subrange(0, i);
        let y = t.subrange(i + 1, t.len() as int);
        let tail = t.subrange(i, t.len() as int);
        is_char_boundary_iff_not_is_continuation_byte(t, i);
        valid_utf8_split(t, i);
        // The newline is a one-byte scalar, so the byte after it starts a scalar too.
        assert(tail[0] == NEWLINE);
        lemma_first_scalar_of_concat(tail, seq![]);
        assert(tail + seq![] =~= tail);
        assert(length_of_first_scalar(tail) == 1);
        assert(pop_first_scalar(tail) =~= y);
        assert(is_char_boundary(pop_first_scalar(tail), 0));
        assert(is_char_boundary(tail, 1));
        lemma_boundary_concat(x, tail, i + 1);
        assert(x + tail =~= t);
        valid_utf8_split(t, i + 1);
        assert(x + seq![NEWLINE] + y =~= t);
        lemma_split_around_newline(x, y);
        lemma_split_valid(x);
        lemma_split_valid(y);
        assert forall|k: int| 0 <= k < split_lines(t).len() implies valid_utf8(#[trigger] split_lines(t)[k]) by {
            if k < split_lines(x).len() {
                assert(split_lines(t)[k] == split_lines(x)[k]);
            } else {
                assert(split_lines(t)[k] == split_lines(y)[k - split_lines(x).len()]);
            }
        }
    }
}

/// A single ASCII byte is valid UTF-8.
pub proof fn lemma_ascii_byte_valid(b: u8)
    requires
        b <= 0x7f,
    ensures
        valid_utf8(seq![b]),
{
    let s = seq![b];
    assert(valid_first_scalar(s));
    assert(length_of_first_scalar(s) == 1);
    assert(pop_first_scalar(s) =~= Seq::<u8>::empty());
    assert(valid_utf8(Seq::<u8>::empty()));
    assert(valid_utf8(pop_first_scalar(s)));
}

/// Valid lines joined by newlines are valid UTF-8.
pub proof fn lemma_joined_valid(ls: Seq<Seq<u8>>, n: int)
    requires
        lines_valid(ls),
        n <= ls.len(),
    ensures
        valid_utf8(joined(ls, n)),
    decreases n,
{
    if n == 1 {
        assert(valid_utf8(ls[0]));
    } else if n > 1 {
        lemma_joined_valid(ls, n - 1);
        lemma_ascii_byte_valid(NEWLINE);
        assert(valid_utf8(ls[n - 1]));
        valid_utf8_concat(joined(ls, n - 1), seq![NEWLINE]);
        valid_utf8_concat(joined(ls, n - 1) + seq![NEWLINE], ls[n - 1]);
    }
}

proof fn lemma_between_valid(ls: Seq<Seq<u8>>, a: int, b: int)
    requires
        lines_valid(ls),
        0 <= a,
        b <= ls.len(),
    ensures
        valid_utf8(lines_between(ls, a, b)),
    decreases b - a,
{
    if b > a {
        lemma_between_valid(ls, a, b - 1);
        lemma_ascii_byte_valid(NEWLINE);
        assert(valid_utf8(ls[b - 1]));
        valid_utf8_concat(lines_between(ls, a, b - 1), seq![NEWLINE]);
        valid_utf8_concat(lines_between(ls, a, b - 1) + seq![NEWLINE], ls[b - 1]);
    }
}

/// The text between two character boundaries is valid UTF-8.
pub proof fn lemma_range_text_valid(ls: Seq<Seq<u8>>, s: CursorPosition, e: CursorPosition)
    requires
        lines_valid(ls),
        on_boundary(ls, s),
        on_boundary(ls, e),
        pos_le(s, e),
    ensures
        valid_utf8(range_text(ls, s, e)),
{
    let first = ls[s.line as int];
    let last = ls[e.line as int];
    assert(valid_utf8(first));
    assert(valid_utf8(last));
    if s.line == e.line {
        valid_utf8_split(first, e.col as int);
        let head = first.subrange(0, e.col as int);
        let rest = first.subrange(e.col as int, first.len() as int);
        assert(first =~= head + rest);
        lemma_boundary_concat(head, rest, s.col as int);
        valid_utf8_split(head, s.col as int);
        assert(head.subrange(s.col as int, head.len() as int) =~= first.subrange(s.col as int, e.col as int));
    } else {
        valid_utf8_split(first, s.col as int);
        valid_utf8_split(last, e.col as int);
        lemma_between_valid(ls, s.line + 1, e.line as int);
        lemma_ascii_byte_valid(NEWLINE);
        let a = first.subrange(s.col as int, first.len() as int);
        let m = lines_between(ls, s.line + 1, e.line as int);
        valid_utf8_concat(a, m);
        valid_utf8_concat(a + m, seq![NEWLINE]);
        valid_utf8_concat(a + m + seq![NEWLINE], last.subrange(0, e.col as int));
    }
}

/// The bytes between two character boundaries of valid UTF-8 are valid UTF-8.
pub proof fn lemma_subrange_valid(bs: Seq<u8>, a: int, b: int)
    requires
        valid_utf8(bs),
        is_char_boundary(bs, a),
        is_char_boundary(bs, b),
        0 <= a <= b <= bs.len(),
    ensures
        valid_utf8(bs.subrange(a, b)),
{
    valid_utf8_split(bs, b);
    let head = bs.subrange(0, b);
    let rest = bs.subrange(b, bs.len() as int);
    assert(bs =~= head + rest);
    lemma_boundary_concat(head, rest, a);
    valid_utf8_split(head, a);
    assert(head.subrange(a, head.len() as int) =~= bs.subrange(a, b));
}

} // verus!
