//! Offsets in UTF-8 bytes and in UTF-16 code units, converted into each other
//! by walking the UTF-8 encoding one scalar at a time.
use vstd::prelude::*;
use vstd::string::StringSliceAdditionalSpecFns;
use vstd::utf8::{encode_utf8_valid_utf8, is_char_boundary, length_of_first_scalar, pop_first_scalar, valid_utf8};

verus! {

/// The byte length of a UTF-8 scalar, read from its first byte.
pub open spec fn lead_width(b: u8) -> int {
    if b <= 0x7f {
        1
    } else if 0xc0 <= b <= 0xdf {
        2
    } else if 0xe0 <= b <= 0xef {
        3
    } else {
        4
    }
}

/// The bytes of the first scalar of a non-empty byte sequence (never more than it has).
pub open spec fn first_width(bs: Seq<u8>) -> int {
    let w = lead_width(bs[0]);
    if w <= bs.len() { w } else { bs.len() as int }
}

/// UTF-16 code units of a scalar of `w` UTF-8 bytes: two for the four-byte
/// scalars outside the Basic Multilingual Plane, one for the others.
pub open spec fn units_of_width(w: int) -> int {
    if w == 4 { 2 } else { 1 }
}

/// The UTF-16 offset of the UTF-8 byte offset `off`: the code units of every
/// scalar that starts before `off`.
pub open spec fn to_utf16(bs: Seq<u8>, off: int) -> int
    decreases bs.len(),
{
    if bs.len() == 0 || off <= 0 {
        0
    } else {
        let w = first_width(bs);
        units_of_width(w) + to_utf16(bs.subrange(w, bs.len() as int), off - w)
    }
}

/// The UTF-8 byte offset of the UTF-16 offset `off`: the bytes of every scalar
/// that starts before `off` code units.
pub open spec fn from_utf16(bs: Seq<u8>, off: int) -> int
    decreases bs.len(),
{
    if bs.len() == 0 || off <= 0 {
        0
    } else {
        let w = first_width(bs);
        w + from_utf16(bs.subrange(w, bs.len() as int), off - units_of_width(w))
    }
}

fn width_at(bytes: &[u8], i: usize) -> (w: usize)
    requires
        i < bytes@.len(),
    ensures
        w == first_width(bytes@.subrange(i as int, bytes@.len() as int)),
        1 <= w <= bytes@.len() - i,
{
    let b = bytes[i];
    let w: usize = if b <= 0x7f {
        1
    } else if 0xc0 <= b && b <= 0xdf {
        2
    } else if 0xe0 <= b && b <= 0xef {
        3
    } else {
        4
    };
    let rest = bytes.len() - i;
    if w <= rest { w } else { rest }
}

/// The UTF-16 offset of the byte offset `offset` in `text`.
pub fn offset_to_utf16(text: &str, offset: usize) -> (r: usize)
    ensures
        r == to_utf16(text.spec_bytes(), offset as int),
{
    bytes_offset_to_utf16(text.as_bytes(), offset)
}

/// The byte offset of the UTF-16 offset `offset` in `text`.
pub fn offset_from_utf16(text: &str, offset: usize) -> (r: usize)
    ensures
        r == from_utf16(text.spec_bytes(), offset as int),
        r <= text.spec_bytes().len(),
{
    bytes_offset_from_utf16(text.as_bytes(), offset)
}

/// The UTF-16 offset of the byte offset `offset` in UTF-8 `bytes`.
pub fn bytes_offset_to_utf16(bytes: &[u8], offset: usize) -> (r: usize)
    ensures
        r == to_utf16(bytes@, offset as int),
{
    let ghost bs = bytes@;
    let mut i: usize = 0;
    let mut units: usize = 0;
    proof {
        assert(bs.subrange(0, bs.len() as int) =~= bs);
    }
    while i < bytes.len() && i < offset
        invariant
            bs == bytes@,
            i <= bs.len(),
            units <= i,
            units + to_utf16(bs.subrange(i as int, bs.len() as int), offset - i) == to_utf16(bs, offset as int),
        decreases bs.len() - i,
    {
        let w = width_at(bytes, i);
        proof {
            let rest = bs.subrange(i as int, bs.len() as int);
            assert(rest.subrange(w as int, rest.len() as int) =~= bs.subrange(i + w, bs.len() as int));
        }
        units = units + if w == 4 { 2 } else { 1 };
        i = i + w;
    }
    units
}

/// The byte offset of the UTF-16 offset `offset` in UTF-8 `bytes`.
pub fn bytes_offset_from_utf16(bytes: &[u8], offset: usize) -> (r: usize)
    ensures
        r == from_utf16(bytes@, offset as int),
        r <= bytes@.len(),
{
    let ghost bs = bytes@;
    let mut i: usize = 0;
    let mut units: usize = 0;
    proof {
        assert(bs.subrange(0, bs.len() as int) =~= bs);
    }
    while i < bytes.len() && units < offset
        invariant
            bs == bytes@,
            i <= bs.len(),
            units <= i,
            i + from_utf16(bs.subrange(i as int, bs.len() as int), offset - units) == from_utf16(bs, offset as int),
        decreases bs.len() - i,
    {
        let w = width_at(bytes, i);
        proof {
            let rest = bs.subrange(i as int, bs.len() as int);
            assert(rest.subrange(w as int, rest.len() as int) =~= bs.subrange(i + w, bs.len() as int));
        }
        units = units + if w == 4 { 2 } else { 1 };
        i = i + w;
    }
    i
}

/// Converting a byte offset that falls on a character boundary to UTF-16 and
/// back gives the same byte offset.
pub proof fn lemma_utf16_round_trip(text: &str, o: int)
    requires
        is_char_boundary(text.spec_bytes(), o),
    ensures
        from_utf16(text.spec_bytes(), to_utf16(text.spec_bytes(), o)) == o,
{
    encode_utf8_valid_utf8(text@);
    lemma_round_trip_bytes(text.spec_bytes(), o);
}

proof fn lemma_round_trip_bytes(bs: Seq<u8>, o: int)
    requires
        valid_utf8(bs),
        is_char_boundary(bs, o),
    ensures
        from_utf16(bs, to_utf16(bs, o)) == o,
    decreases bs.len(),
{
    if o != 0 {
        assert(bs.len() > 0);
        let w = length_of_first_scalar(bs);
        assert(w <= bs.len());
        assert(first_width(bs) == w);
        let rest = pop_first_scalar(bs);
        assert(rest == bs.subrange(w, bs.len() as int));
        assert(is_char_boundary(rest, o - w));
        assert(o - w >= 0);
        lemma_round_trip_bytes(rest, o - w);
        assert(to_utf16(bs, o) == units_of_width(w) + to_utf16(rest, o - w));
    }
}

/// In valid UTF-8, the byte offset of any UTF-16 offset starts a character (or is the end).
pub proof fn lemma_from_utf16_boundary(bs: Seq<u8>, off: int)
    requires
        valid_utf8(bs),
    ensures
        is_char_boundary(bs, from_utf16(bs, off)),
        0 <= from_utf16(bs, off) <= bs.len(),
    decreases bs.len(),
{
    if bs.len() == 0 || off <= 0 {
        assert(is_char_boundary(bs, 0));
    } else {
        let w = length_of_first_scalar(bs);
        assert(w <= bs.len());
        assert(first_width(bs) == w);
        let rest = pop_first_scalar(bs);
        assert(rest == bs.subrange(w, bs.len() as int));
        lemma_from_utf16_boundary(rest, off - units_of_width(w));
        let k = from_utf16(rest, off - units_of_width(w));
        assert(from_utf16(bs, off) == w + k);
        if w + k > 0 {
            assert(is_char_boundary(bs, w + k) == is_char_boundary(rest, k));
        }
    }
}

} // verus!
