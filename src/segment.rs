//! Grapheme clusters and word classes of a line, and the boundary searches that
//! character and word movement use.
use unicode_segmentation::UnicodeSegmentation;
use vstd::prelude::*;
use vstd::utf8::{decode_utf8, decode_utf8_encode_utf8, encode_utf8, is_char_boundary, valid_utf8};

verus! {

/// The characters that `String::from_utf8_lossy` makes of some bytes.
pub uninterp spec fn utf8_lossy(b: Seq<u8>) -> Seq<char>;

/// Relies on `String::from_utf8_lossy`: valid UTF-8 decodes to its characters,
/// and the result depends on the bytes alone.
#[verifier::external_body]
pub(crate) fn utf8_string(b: &[u8]) -> (r: String)
    ensures
        r@ == utf8_lossy(b@),
        valid_utf8(b@) ==> r@ == decode_utf8(b@),
{
    String::from_utf8_lossy(b).into_owned()
}

/// The extended grapheme clusters of a text: each one's byte offset and characters.
pub uninterp spec fn graphemes_of(s: Seq<char>) -> Seq<(usize, Seq<char>)>;

/// Relies on `UnicodeSegmentation::grapheme_indices` with extended clusters:
/// the clusters of `s` in order, each with its byte offset. The clusters are
/// consecutive slices of `s` covering it: offsets start at 0, each cluster runs
/// to the next one's offset and the last to the end, so every offset starts a
/// character.
#[verifier::external_body]
fn grapheme_indices(s: &str) -> (r: Vec<(usize, String)>)
    ensures
        r@.len() == graphemes_of(s@).len(),
        forall|k: int| 0 <= k < r@.len() ==> (#[trigger] r@[k]).0 == graphemes_of(s@)[k].0
            && r@[k].1@ == graphemes_of(s@)[k].1,
        forall|k: int| 0 <= k < r@.len() ==> is_char_boundary(encode_utf8(s@), (#[trigger] r@[k]).0 as int),
        r@.len() > 0 <==> s@.len() > 0,
        r@.len() > 0 ==> r@[0].0 == 0,
        forall|k: int| 0 <= k < r@.len() - 1 ==> (#[trigger] r@[k]).0 + encode_utf8(r@[k].1@).len() == r@[k + 1].0,
        r@.len() > 0 ==> r@.last().0 + encode_utf8(r@.last().1@).len() == encode_utf8(s@).len(),
        forall|k: int| 0 <= k < r@.len() ==> (#[trigger] r@[k]).1@.len() > 0,
{
    s.grapheme_indices(true).map(|(i, g)| (i, g.to_string())).collect()
}

/// Whether a character is alphabetic or numeric in Unicode.
pub uninterp spec fn alphanumeric(c: char) -> bool;

/// Relies on `char::is_alphanumeric`: the Unicode Alphabetic or Numeric property.
#[verifier::external_body]
fn is_alphanumeric(c: char) -> (r: bool)
    ensures
        r == alphanumeric(c),
{
    c.is_alphanumeric()
}

/// A character that belongs to a word: alphanumeric or an underscore.
pub open spec fn word_char(c: char) -> bool {
    alphanumeric(c) || c == '_'
}

/// Each cluster's offset, and whether its first character belongs to a word.
pub open spec fn classes_of(g: Seq<(usize, Seq<char>)>) -> Seq<(usize, bool)> {
    g.map_values(|x: (usize, Seq<char>)| (x.0, x.1.len() > 0 && word_char(x.1[0])))
}

/// The classified clusters of a line of bytes.
pub open spec fn segments_of(line: Seq<u8>) -> Seq<(usize, bool)> {
    classes_of(graphemes_of(utf8_lossy(line)))
}

/// The classified grapheme clusters of `line`: offset and word class of each.
pub fn line_segments(line: &Vec<u8>) -> (r: Vec<(usize, bool)>)
    ensures
        r@ == segments_of(line@),
        valid_utf8(line@) ==> offsets_on_boundaries(line@, r@),
        offsets_increase(r@),
        r@.len() > 0 ==> r@[0].0 == 0,
{
    let s = utf8_string(line.as_slice());
    let g = grapheme_indices(s.as_str());
    let mut r: Vec<(usize, bool)> = Vec::new();
    let mut k: usize = 0;
    while k < g.len()
        invariant
            k <= g@.len(),
            g@.len() == graphemes_of(s@).len(),
            forall|j: int| 0 <= j < g@.len() ==> (#[trigger] g@[j]).0 == graphemes_of(s@)[j].0
                && g@[j].1@ == graphemes_of(s@)[j].1,
            r@ == classes_of(graphemes_of(s@).subrange(0, k as int)),
            forall|j: int| 0 <= j < g@.len() ==> is_char_boundary(encode_utf8(s@), (#[trigger] g@[j]).0 as int),
            forall|j: int| 0 <= j < g@.len() - 1 ==> (#[trigger] g@[j]).0 + encode_utf8(g@[j].1@).len() == g@[j + 1].0,
            forall|j: int| 0 <= j < g@.len() ==> (#[trigger] g@[j]).1@.len() > 0,
        decreases g@.len() - k,
    {
        let text = g[k].1.as_str();
        let word = if text.is_empty() {
            false
        } else {
            let c = text.get_char(0);
            is_alphanumeric(c) || c == '_'
        };
        r.push((g[k].0, word));
        proof {
            assert(classes_of(graphemes_of(s@).subrange(0, k + 1)) =~= r@);
        }
        k += 1;
    }
    proof {
        assert(graphemes_of(s@).subrange(0, g@.len() as int) =~= graphemes_of(s@));
        assert forall|a: int, b: int| 0 <= a < b < r@.len() implies (#[trigger] r@[a]).0 < (#[trigger] r@[b]).0 by {
            lemma_offsets_rise(g@, a, b);
            assert(r@[a].0 == g@[a].0 && r@[b].0 == g@[b].0);
        }
        if valid_utf8(line@) {
            decode_utf8_encode_utf8(line@);
            assert forall|j: int| 0 <= j < r@.len() implies is_char_boundary(line@, (#[trigger] r@[j]).0 as int) by {
                assert(g@[j].0 == r@[j].0);
            }
        }
    }
    r
}

/// Consecutive non-empty clusters have rising offsets.
proof fn lemma_offsets_rise(g: Seq<(usize, String)>, a: int, b: int)
    requires
        0 <= a < b < g.len(),
        forall|j: int| 0 <= j < g.len() - 1 ==> (#[trigger] g[j]).0 + encode_utf8(g[j].1@).len() == g[j + 1].0,
        forall|j: int| 0 <= j < g.len() ==> (#[trigger] g[j]).1@.len() > 0,
    ensures
        g[a].0 < g[b].0,
    decreases b - a,
{
    assert(g[b - 1].1@.len() > 0);
    assert(encode_utf8(g[b - 1].1@).len() > 0) by {
        reveal_with_fuel(encode_utf8, 1);
    }
    assert(g[b - 1].0 + encode_utf8(g[b - 1].1@).len() == g[b].0);
    if a < b - 1 {
        lemma_offsets_rise(g, a, b - 1);
    }
}

/// The offsets rise strictly along the sequence.
pub open spec fn offsets_increase(segs: Seq<(usize, bool)>) -> bool {
    forall|a: int, b: int| 0 <= a < b < segs.len() ==> (#[trigger] segs[a]).0 < (#[trigger] segs[b]).0
}

/// Every offset starts a character of `line`.
pub open spec fn offsets_on_boundaries(line: Seq<u8>, segs: Seq<(usize, bool)>) -> bool {
    forall|j: int| 0 <= j < segs.len() ==> is_char_boundary(line, (#[trigger] segs[j]).0 as int)
}

/// `r` is 0, `len`, or one of the offsets.
pub open spec fn among_offsets(segs: Seq<(usize, bool)>, r: int, len: int) -> bool {
    r == 0 || r == len || exists|j: int| 0 <= j < segs.len() && segs[j].0 == r
}

/// Each boundary search returns 0, the line's end, or a cluster offset.
pub proof fn lemma_searches_among_offsets(segs: Seq<(usize, bool)>, col: int, len: int)
    ensures
        among_offsets(segs, prev_start_in(segs, col, segs.len() as int), len),
        among_offsets(segs, next_start_in(segs, col, len, 0), len),
        among_offsets(segs, word_start_seek(segs, col, segs.len() as int), len),
        among_offsets(segs, word_end_scan(segs, col, len, 0, true), len),
{
    lemma_prev_among(segs, col, len, segs.len() as int);
    lemma_next_among(segs, col, len, 0);
    lemma_seek_among(segs, col, len, segs.len() as int);
    lemma_scan_among(segs, col, len, 0, true);
}

proof fn lemma_prev_among(segs: Seq<(usize, bool)>, col: int, len: int, k: int)
    ensures
        among_offsets(segs, prev_start_in(segs, col, k), len),
    decreases k,
{
    if k > 0 && k <= segs.len() && !(segs[k - 1].0 < col) {
        lemma_prev_among(segs, col, len, k - 1);
    }
}

proof fn lemma_next_among(segs: Seq<(usize, bool)>, col: int, len: int, k: int)
    ensures
        among_offsets(segs, next_start_in(segs, col, len, k), len),
    decreases segs.len() - k,
{
    if 0 <= k < segs.len() && !(segs[k].0 > col) {
        lemma_next_among(segs, col, len, k + 1);
    }
}

proof fn lemma_seek_among(segs: Seq<(usize, bool)>, col: int, len: int, k: int)
    ensures
        among_offsets(segs, word_start_seek(segs, col, k), len),
    decreases k,
{
    if k > 0 && k <= segs.len() {
        if segs[k - 1].0 < col && segs[k - 1].1 {
            lemma_run_among(segs, col, len, k - 1, segs[k - 1].0 as int);
        } else {
            lemma_seek_among(segs, col, len, k - 1);
        }
    }
}

proof fn lemma_run_among(segs: Seq<(usize, bool)>, col: int, len: int, k: int, off: int)
    requires
        among_offsets(segs, off, len),
    ensures
        among_offsets(segs, word_start_run(segs, col, k, off), len),
    decreases k,
{
    if k > 0 && k <= segs.len() {
        if segs[k - 1].0 >= col {
            lemma_run_among(segs, col, len, k - 1, off);
        } else if segs[k - 1].1 {
            lemma_run_among(segs, col, len, k - 1, segs[k - 1].0 as int);
        }
    }
}

proof fn lemma_scan_among(segs: Seq<(usize, bool)>, col: int, len: int, k: int, in_run: bool)
    ensures
        among_offsets(segs, word_end_scan(segs, col, len, k, in_run), len),
    decreases segs.len() - k,
{
    if 0 <= k < segs.len() {
        if segs[k].0 < col {
            lemma_scan_among(segs, col, len, k + 1, in_run);
        } else if segs[k].1 {
            if in_run {
                lemma_scan_among(segs, col, len, k + 1, true);
            }
        } else {
            lemma_scan_among(segs, col, len, k + 1, false);
        }
    }
}

/// The last offset before `col` among the first `k` clusters, or 0.
pub open spec fn prev_start_in(segs: Seq<(usize, bool)>, col: int, k: int) -> int
    decreases k,
{
    if k <= 0 || k > segs.len() {
        0
    } else if segs[k - 1].0 < col {
        segs[k - 1].0 as int
    } else {
        prev_start_in(segs, col, k - 1)
    }
}

/// The first offset after `col` from cluster `k` on, or `len` when there is none.
pub open spec fn next_start_in(segs: Seq<(usize, bool)>, col: int, len: int, k: int) -> int
    decreases segs.len() - k,
{
    if k < 0 || k >= segs.len() {
        len
    } else if segs[k].0 > col {
        segs[k].0 as int
    } else {
        next_start_in(segs, col, len, k + 1)
    }
}

/// Word-left, before a word is found: walking back over the first `k` clusters,
/// skip those at or after `col` and those outside words.
pub open spec fn word_start_seek(segs: Seq<(usize, bool)>, col: int, k: int) -> int
    decreases k,
{
    if k <= 0 || k > segs.len() {
        0
    } else if segs[k - 1].0 < col && segs[k - 1].1 {
        word_start_run(segs, col, k - 1, segs[k - 1].0 as int)
    } else {
        word_start_seek(segs, col, k - 1)
    }
}

/// Word-left, inside the word run found so far (starting at `off`): extend it
/// back over word clusters; the first cluster outside words ends it.
pub open spec fn word_start_run(segs: Seq<(usize, bool)>, col: int, k: int, off: int) -> int
    decreases k,
{
    if k <= 0 || k > segs.len() {
        off
    } else if segs[k - 1].0 >= col {
        word_start_run(segs, col, k - 1, off)
    } else if segs[k - 1].1 {
        word_start_run(segs, col, k - 1, segs[k - 1].0 as int)
    } else {
        off
    }
}

/// Word-right from cluster `k` on: while `in_run`, skip the word clusters at the
/// caret; then skip clusters outside words and stop at the next word's start,
/// or at `len` when no word follows.
pub open spec fn word_end_scan(segs: Seq<(usize, bool)>, col: int, len: int, k: int, in_run: bool) -> int
    decreases segs.len() - k,
{
    if k < 0 || k >= segs.len() {
        len
    } else if segs[k].0 < col {
        word_end_scan(segs, col, len, k + 1, in_run)
    } else if segs[k].1 {
        if in_run {
            word_end_scan(segs, col, len, k + 1, true)
        } else {
            segs[k].0 as int
        }
    } else {
        word_end_scan(segs, col, len, k + 1, false)
    }
}

/// With rising offsets, the search back finds the greatest offset below `col`.
proof fn lemma_prev_is_greatest(segs: Seq<(usize, bool)>, col: int, k: int)
    requires
        0 <= k <= segs.len(),
    ensures
        offsets_increase(segs) ==> forall|j: int| 0 <= j < k && (#[trigger] segs[j]).0 < col ==> segs[j].0 <= prev_start_in(segs, col, k),
    decreases k,
{
    if k > 0 {
        lemma_prev_is_greatest(segs, col, k - 1);
        if offsets_increase(segs) && segs[k - 1].0 < col {
            assert forall|j: int| 0 <= j < k && (#[trigger] segs[j]).0 < col implies segs[j].0 <= prev_start_in(segs, col, k) by {
                if j < k - 1 {
                    assert(segs[j].0 < segs[k - 1].0);
                }
            }
        }
    }
}

/// With rising offsets, the search forward finds the least offset above `col`.
proof fn lemma_next_is_least(segs: Seq<(usize, bool)>, col: int, len: int, k: int)
    requires
        0 <= k <= segs.len(),
    ensures
        offsets_increase(segs) ==> forall|j: int| k <= j < segs.len() && (#[trigger] segs[j]).0 > col ==> next_start_in(segs, col, len, k) <= segs[j].0,
    decreases segs.len() - k,
{
    if k < segs.len() {
        lemma_next_is_least(segs, col, len, k + 1);
        if offsets_increase(segs) && segs[k].0 > col {
            assert forall|j: int| k <= j < segs.len() && (#[trigger] segs[j]).0 > col implies next_start_in(segs, col, len, k) <= segs[j].0 by {
                if j > k {
                    assert(segs[k].0 < segs[j].0);
                }
            }
        }
    }
}

proof fn lemma_prev_start_bound(segs: Seq<(usize, bool)>, col: int, k: int)
    requires
        col > 0,
    ensures
        0 <= prev_start_in(segs, col, k) < col,
    decreases k,
{
    if k > 0 && k <= segs.len() && !(segs[k - 1].0 < col) {
        lemma_prev_start_bound(segs, col, k - 1);
    }
}

proof fn lemma_word_start_bound(segs: Seq<(usize, bool)>, col: int, k: int)
    requires
        col > 0,
    ensures
        0 <= word_start_seek(segs, col, k) < col,
    decreases k,
{
    if k > 0 && k <= segs.len() {
        if segs[k - 1].0 < col && segs[k - 1].1 {
            lemma_word_run_bound(segs, col, k - 1, segs[k - 1].0 as int);
        } else {
            lemma_word_start_bound(segs, col, k - 1);
        }
    }
}

proof fn lemma_word_run_bound(segs: Seq<(usize, bool)>, col: int, k: int, off: int)
    requires
        0 <= off < col,
    ensures
        0 <= word_start_run(segs, col, k, off) < col,
    decreases k,
{
    if k > 0 && k <= segs.len() {
        if segs[k - 1].0 >= col {
            lemma_word_run_bound(segs, col, k - 1, off);
        } else if segs[k - 1].1 {
            lemma_word_run_bound(segs, col, k - 1, segs[k - 1].0 as int);
        }
    }
}

/// The start of the cluster before `col`: the last offset below `col`, or 0.
pub fn prev_boundary(segs: &Vec<(usize, bool)>, col: usize) -> (r: usize)
    ensures
        r == prev_start_in(segs@, col as int, segs@.len() as int),
        col > 0 ==> r < col,
        offsets_increase(segs@) ==> forall|j: int| 0 <= j < segs@.len() && (#[trigger] segs@[j]).0 < col ==> segs@[j].0 <= r,
{
    proof {
        lemma_prev_is_greatest(segs@, col as int, segs@.len() as int);
        if col > 0 {
            lemma_prev_start_bound(segs@, col as int, segs@.len() as int);
        }
    }
    let mut k: usize = segs.len();
    while k > 0
        invariant
            k <= segs@.len(),
            prev_start_in(segs@, col as int, k as int) == prev_start_in(segs@, col as int, segs@.len() as int),
            offsets_increase(segs@) ==> forall|j: int| 0 <= j < segs@.len() && (#[trigger] segs@[j]).0 < col
                ==> segs@[j].0 <= prev_start_in(segs@, col as int, segs@.len() as int),
        decreases k,
    {
        if segs[k - 1].0 < col {
            return segs[k - 1].0;
        }
        k -= 1;
    }
    0
}

/// The start of the cluster after `col`: the first offset above `col`, or `len`.
pub fn next_boundary(segs: &Vec<(usize, bool)>, col: usize, len: usize) -> (r: usize)
    ensures
        r == next_start_in(segs@, col as int, len as int, 0),
        offsets_increase(segs@) ==> forall|j: int| 0 <= j < segs@.len() && (#[trigger] segs@[j]).0 > col ==> r <= segs@[j].0,
{
    proof {
        lemma_next_is_least(segs@, col as int, len as int, 0);
    }
    let mut k: usize = 0;
    while k < segs.len()
        invariant
            k <= segs@.len(),
            next_start_in(segs@, col as int, len as int, k as int) == next_start_in(segs@, col as int, len as int, 0),
            offsets_increase(segs@) ==> forall|j: int| 0 <= j < segs@.len() && (#[trigger] segs@[j]).0 > col
                ==> next_start_in(segs@, col as int, len as int, 0) <= segs@[j].0,
        decreases segs@.len() - k,
    {
        if segs[k].0 > col {
            return segs[k].0;
        }
        k += 1;
    }
    len
}

/// Word-left: the start of the word run before `col`, skipping what lies
/// between; 0 when no word lies before `col`.
pub fn prev_word_boundary(segs: &Vec<(usize, bool)>, col: usize) -> (r: usize)
    ensures
        r == word_start_seek(segs@, col as int, segs@.len() as int),
        col > 0 ==> r < col,
{
    proof {
        if col > 0 {
            lemma_word_start_bound(segs@, col as int, segs@.len() as int);
        }
    }
    let mut k: usize = segs.len();
    let mut found = false;
    let mut off: usize = 0;
    while k > 0
        invariant
            k <= segs@.len(),
            !found ==> word_start_seek(segs@, col as int, k as int) == word_start_seek(segs@, col as int, segs@.len() as int),
            found ==> word_start_run(segs@, col as int, k as int, off as int) == word_start_seek(segs@, col as int, segs@.len() as int),
            col > 0 ==> word_start_seek(segs@, col as int, segs@.len() as int) < col,
        decreases k,
    {
        let (idx, word) = segs[k - 1];
        if idx < col {
            if word {
                found = true;
                off = idx;
            } else if found {
                assert(word_start_run(segs@, col as int, k as int, off as int) == off);
                return off;
            }
        }
        k -= 1;
    }
    if found { off } else { 0 }
}

/// Word-right: past the rest of the word at `col`, then past what is not a
/// word, to the start of the next word; `len` when no word follows.
pub fn next_word_boundary(segs: &Vec<(usize, bool)>, col: usize, len: usize) -> (r: usize)
    ensures
        r == word_end_scan(segs@, col as int, len as int, 0, true),
{
    let mut k: usize = 0;
    let mut in_run = true;
    while k < segs.len()
        invariant
            k <= segs@.len(),
            word_end_scan(segs@, col as int, len as int, k as int, in_run) == word_end_scan(segs@, col as int, len as int, 0, true),
        decreases segs@.len() - k,
    {
        let (idx, word) = segs[k];
        if idx >= col {
            if word {
                if !in_run {
                    return idx;
                }
            } else {
                in_run = false;
            }
        }
        k += 1;
    }
    len
}

} // verus!
