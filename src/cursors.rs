//! Cursor sets: merging coincident cursors and keeping the set ordered.
use vstd::prelude::*;
use crate::buffer::on_boundary;
use crate::position::{Cursor, CursorPosition, pos_lt};

verus! {

/// Positions strictly increase along the sequence.
pub open spec fn strictly_sorted(cs: Seq<Cursor>) -> bool {
    forall|i: int, j: int| 0 <= i < j < cs.len() ==> pos_lt(#[trigger] cs[i].position, #[trigger] cs[j].position)
}

/// Every caret and anchor names a character boundary of `ls`.
pub open spec fn all_within(cs: Seq<Cursor>, ls: Seq<Seq<u8>>) -> bool {
    forall|i: int| 0 <= i < cs.len() ==> cursor_within(#[trigger] cs[i], ls)
}

pub open spec fn cursor_within(c: Cursor, ls: Seq<Seq<u8>>) -> bool {
    on_boundary(ls, c.position) && (c.anchor matches Some(a) ==> on_boundary(ls, a))
}

/// The first index from `k` on whose position is not before `p`.
pub open spec fn lower_bound(acc: Seq<Cursor>, p: CursorPosition, k: int) -> int
    decreases acc.len() - k,
{
    if k < 0 || k >= acc.len() {
        acc.len() as int
    } else if pos_lt(acc[k].position, p) {
        lower_bound(acc, p, k + 1)
    } else {
        k
    }
}

/// Adds `c` to an ordered set: a cursor at a new position is inserted in order;
/// one at an existing position is absorbed, handing its anchor over when the
/// cursor already there has none.
pub open spec fn merge_into(acc: Seq<Cursor>, c: Cursor) -> Seq<Cursor> {
    let k = lower_bound(acc, c.position, 0);
    if k < acc.len() && acc[k].position == c.position {
        if acc[k].anchor is None && c.anchor is Some {
            acc.update(k, c)
        } else {
            acc
        }
    } else {
        acc.insert(k, c)
    }
}

/// The cursors merged one after another, in their order, into an empty set.
pub open spec fn merged(cs: Seq<Cursor>) -> Seq<Cursor>
    decreases cs.len(),
{
    if cs.len() == 0 {
        seq![]
    } else {
        merge_into(merged(cs.drop_last()), cs.last())
    }
}

proof fn lemma_lower_bound(acc: Seq<Cursor>, p: CursorPosition, k: int)
    requires
        0 <= k <= acc.len(),
        strictly_sorted(acc),
    ensures
        k <= lower_bound(acc, p, k) <= acc.len(),
        forall|j: int| k <= j < lower_bound(acc, p, k) ==> pos_lt(#[trigger] acc[j].position, p),
        lower_bound(acc, p, k) < acc.len() ==> !pos_lt(acc[lower_bound(acc, p, k)].position, p),
    decreases acc.len() - k,
{
    if k < acc.len() && pos_lt(acc[k].position, p) {
        lemma_lower_bound(acc, p, k + 1);
    }
}

proof fn lemma_merge_into(acc: Seq<Cursor>, c: Cursor, ls: Seq<Seq<u8>>)
    requires
        strictly_sorted(acc),
    ensures
        strictly_sorted(merge_into(acc, c)),
        merge_into(acc, c).len() >= 1,
        merge_into(acc, c).len() >= acc.len(),
        all_within(acc, ls) && cursor_within(c, ls) ==> all_within(merge_into(acc, c), ls),
        (forall|j: int| 0 <= j < acc.len() ==> pos_lt(#[trigger] acc[j].position, c.position))
            ==> merge_into(acc, c) == acc.push(c),
{
    lemma_lower_bound(acc, c.position, 0);
    let k = lower_bound(acc, c.position, 0);
    let r = merge_into(acc, c);
    if k < acc.len() && acc[k].position == c.position {
        assert(strictly_sorted(r));
    } else {
        assert forall|i: int, j: int| 0 <= i < j < r.len() implies pos_lt(
            #[trigger] r[i].position,
            #[trigger] r[j].position,
        ) by {
            if k < acc.len() {
                assert(pos_lt(c.position, acc[k].position));
            }
            if j < k {
            } else if j == k {
            } else if i < k {
                if k < acc.len() {
                    assert(pos_lt(acc[i].position, acc[k].position) || i == k);
                }
            } else if i == k {
                if j - 1 > k {
                    assert(pos_lt(acc[k].position, acc[j - 1].position));
                }
            } else {
            }
        }
        if forall|j: int| 0 <= j < acc.len() ==> pos_lt(#[trigger] acc[j].position, c.position) {
            if k < acc.len() {
                assert(pos_lt(acc[k].position, c.position));
            }
            assert(r =~= acc.push(c));
        }
    }
}

/// The merged set is ordered with no two cursors at one position, and every
/// cursor in it came from the input.
pub proof fn lemma_merged(cs: Seq<Cursor>, ls: Seq<Seq<u8>>)
    ensures
        strictly_sorted(merged(cs)),
        cs.len() >= 1 ==> merged(cs).len() >= 1,
        merged(cs).len() <= cs.len(),
        all_within(cs, ls) ==> all_within(merged(cs), ls),
    decreases cs.len(),
{
    if cs.len() > 0 {
        lemma_merged(cs.drop_last(), ls);
        lemma_merge_into(merged(cs.drop_last()), cs.last(), ls);
        lemma_merge_into_len(merged(cs.drop_last()), cs.last());
        if all_within(cs, ls) {
            assert(all_within(cs.drop_last(), ls));
            assert(cursor_within(cs[cs.len() - 1], ls));
        }
    }
}

proof fn lemma_merge_into_len(acc: Seq<Cursor>, c: Cursor)
    requires
        strictly_sorted(acc),
    ensures
        merge_into(acc, c).len() <= acc.len() + 1,
{
    lemma_lower_bound(acc, c.position, 0);
}

/// Merging is idempotent: merging an already merged set changes nothing, and no
/// two cursors of a merged set share a position.
pub proof fn lemma_merge_idempotent(cs: Seq<Cursor>)
    ensures
        merged(merged(cs)) == merged(cs),
        forall|i: int, j: int|
            0 <= i < merged(cs).len() && 0 <= j < merged(cs).len() && i != j
                ==> merged(cs)[i].position != merged(cs)[j].position,
{
    lemma_merged(cs, seq![]);
    lemma_merged_sorted_fixed(merged(cs));
    let m = merged(cs);
    assert forall|i: int, j: int|
        0 <= i < m.len() && 0 <= j < m.len() && i != j implies m[i].position != m[j].position by {
        if i < j {
            assert(pos_lt(m[i].position, m[j].position));
        } else {
            assert(pos_lt(m[j].position, m[i].position));
        }
    }
}

/// An ordered set without duplicates is its own merge.
pub proof fn lemma_merged_sorted_fixed(s: Seq<Cursor>)
    requires
        strictly_sorted(s),
    ensures
        merged(s) == s,
    decreases s.len(),
{
    if s.len() > 0 {
        let init = s.drop_last();
        assert(strictly_sorted(init));
        lemma_merged_sorted_fixed(init);
        assert forall|j: int| 0 <= j < init.len() implies pos_lt(#[trigger] init[j].position, s.last().position) by {
            assert(pos_lt(s[j].position, s[s.len() - 1].position));
        }
        lemma_merge_into(init, s.last(), seq![]);
        assert(init.push(s.last()) =~= s);
    }
}

/// Inserts one cursor into an ordered set (see `merge_into`).
fn merge_one(acc: &mut Vec<Cursor>, c: Cursor)
    requires
        strictly_sorted(old(acc)@),
    ensures
        final(acc)@ == merge_into(old(acc)@, c),
{
    proof {
        lemma_lower_bound(acc@, c.position, 0);
    }
    let mut k: usize = 0;
    while k < acc.len() && acc[k].position.precedes(&c.position)
        invariant
            k <= acc@.len(),
            acc@ == old(acc)@,
            strictly_sorted(acc@),
            lower_bound(acc@, c.position, k as int) == lower_bound(acc@, c.position, 0),
        decreases acc@.len() - k,
    {
        k += 1;
    }
    if k < acc.len() && acc[k].position.same_as(&c.position) {
        if acc[k].anchor.is_none() && c.anchor.is_some() {
            acc.set(k, c);
        }
    } else {
        acc.insert(k, c);
    }
}

/// Orders the cursors by position and collapses cursors that share a position
/// into one, preferring a cursor that carries an anchor over a bare caret.
pub fn merge_overlapping(cursors: &Vec<Cursor>) -> (r: Vec<Cursor>)
    ensures
        r@ == merged(cursors@),
        strictly_sorted(r@),
{
    let mut acc: Vec<Cursor> = Vec::new();
    let mut i: usize = 0;
    proof {
        assert(cursors@.subrange(0, 0) =~= seq![]);
    }
    while i < cursors.len()
        invariant
            i <= cursors@.len(),
            acc@ == merged(cursors@.subrange(0, i as int)),
        decreases cursors@.len() - i,
    {
        proof {
            lemma_merged(cursors@.subrange(0, i as int), seq![]);
            assert(cursors@.subrange(0, i + 1).drop_last() =~= cursors@.subrange(0, i as int));
        }
        merge_one(&mut acc, cursors[i]);
        i += 1;
    }
    proof {
        assert(cursors@.subrange(0, cursors@.len() as int) =~= cursors@);
        lemma_merged(cursors@, seq![]);
    }
    acc
}

} // verus!
