//! Facts about UTF-8 byte sequences that the rope and the editor rely on.
//!
//! The encoding itself is the one of `vstd::utf8`; this module adds how it
//! behaves under concatenation and under taking subranges.
use vstd::prelude::*;
use vstd::utf8::*;

verus! {

broadcast use vstd::seq::group_seq_axioms, vstd::seq_lib::group_seq_properties;

/// The character that starts at byte `i` of `bytes`, if a character starts there.
pub open spec fn char_at_spec(bytes: Seq<u8>, i: int) -> Option<char> {
    if 0 <= i < bytes.len() && is_char_boundary(bytes, i) {
        Some(decode_first_scalar(bytes.skip(i)) as char)
    } else {
        None
    }
}

/// The width in bytes of the character that starts at byte `i` of `bytes`.
pub open spec fn width_at(bytes: Seq<u8>, i: int) -> int {
    length_of_first_scalar(bytes.skip(i))
}

/// The number of bytes that UTF-8 uses for a character whose leading byte is `b`.
pub open spec fn width_of_leading_byte(b: u8) -> int {
    if b < 0x80 {
        1
    } else if b < 0xe0 {
        2
    } else if b < 0xf0 {
        3
    } else {
        4
    }
}

/// Encoding distributes over concatenation.
pub proof fn lemma_encode_concat(a: Seq<char>, b: Seq<char>)
    ensures
        encode_utf8(a + b) == encode_utf8(a) + encode_utf8(b),
    decreases a.len(),
{
    if a.len() == 0 {
        assert(a + b =~= b);
        assert(encode_utf8(a) + encode_utf8(b) =~= encode_utf8(b));
    } else {
        assert((a + b).drop_first() =~= a.drop_first() + b);
        assert((a + b)[0] == a[0]);
        lemma_encode_concat(a.drop_first(), b);
        assert(encode_utf8(a + b) =~= encode_scalar(a[0] as u32) + encode_utf8(a.drop_first() + b));
        assert(encode_utf8(a) + encode_utf8(b) =~= encode_scalar(a[0] as u32) + (encode_utf8(
            a.drop_first(),
        ) + encode_utf8(b)));
    }
}

/// A valid encoding decodes to the characters it encodes, and the first of them is
/// the first scalar of the bytes.
pub proof fn lemma_decode_first(bytes: Seq<u8>)
    requires
        valid_utf8(bytes),
        bytes.len() > 0,
    ensures
        decode_utf8(bytes).len() > 0,
        decode_utf8(bytes)[0] == decode_first_scalar(bytes) as char,
        valid_first_scalar(bytes),
        1 <= length_of_first_scalar(bytes) <= bytes.len(),
        length_of_first_scalar(bytes) <= 4,
{
}

/// Within a valid sequence, a position strictly inside it is a character boundary
/// exactly when its byte is not a continuation byte; both ends are boundaries.
pub proof fn lemma_boundary_bytes(bytes: Seq<u8>, i: int)
    requires
        valid_utf8(bytes),
    ensures
        is_char_boundary(bytes, i) <==> (i == 0 || i == bytes.len() || (0 < i < bytes.len()
            && !is_continuation_byte(bytes[i]))),
{
    is_char_boundary_start_end_of_seq(bytes);
    if 0 < i < bytes.len() {
        is_char_boundary_iff_not_is_continuation_byte(bytes, i);
    } else if i < 0 || i > bytes.len() {
        reveal_with_fuel(is_char_boundary, 1);
    }
}

/// Character boundaries of a concatenation of two valid sequences.
pub proof fn lemma_boundary_concat(a: Seq<u8>, b: Seq<u8>, i: int)
    requires
        valid_utf8(a),
        valid_utf8(b),
    ensures
        valid_utf8(a + b),
        is_char_boundary(a + b, i) <==> ((0 <= i <= a.len() && is_char_boundary(a, i)) || (a.len()
            <= i <= a.len() + b.len() && is_char_boundary(b, i - a.len()))),
{
    valid_utf8_concat(a, b);
    lemma_boundary_bytes(a + b, i);
    lemma_boundary_bytes(a, i);
    lemma_boundary_bytes(b, i - a.len());
    if 0 < i < a.len() {
        assert((a + b)[i] == a[i]);
    } else if a.len() < i < a.len() + b.len() {
        assert((a + b)[i] == b[i - a.len()]);
    } else if i == a.len() && 0 < i < a.len() + b.len() {
        lemma_boundary_bytes(b, 0);
        assert((a + b)[i] == b[0]);
        is_char_boundary_iff_not_is_continuation_byte(b, 0);
    }
}

/// The pieces of a valid sequence cut at two boundaries are valid, and the boundaries
/// inside the middle piece are those of the whole.
pub proof fn lemma_boundary_subrange(s: Seq<u8>, lo: int, hi: int, i: int)
    requires
        valid_utf8(s),
        0 <= lo <= hi <= s.len(),
        is_char_boundary(s, lo),
        is_char_boundary(s, hi),
    ensures
        valid_utf8(s.subrange(lo, hi)),
        lo <= i <= hi ==> (is_char_boundary(s.subrange(lo, hi), i - lo) <==> is_char_boundary(
            s,
            i,
        )),
{
    valid_utf8_split(s, hi);
    let pre = s.subrange(0, hi);
    lemma_boundary_subrange_prefix(s, hi, lo);
    valid_utf8_split(pre, lo);
    assert(pre.subrange(lo, pre.len() as int) =~= s.subrange(lo, hi));
    let mid = s.subrange(lo, hi);
    lemma_boundary_bytes(mid, i - lo);
    lemma_boundary_bytes(s, i);
    if lo < i < hi {
        assert(mid[i - lo] == s[i]);
    }
}

/// Boundaries of a prefix cut at a boundary are those of the whole.
pub proof fn lemma_boundary_subrange_prefix(s: Seq<u8>, hi: int, i: int)
    requires
        valid_utf8(s),
        0 <= hi <= s.len(),
        is_char_boundary(s, hi),
    ensures
        valid_utf8(s.subrange(0, hi)),
        0 <= i <= hi ==> (is_char_boundary(s.subrange(0, hi), i) <==> is_char_boundary(s, i)),
{
    valid_utf8_split(s, hi);
    let pre = s.subrange(0, hi);
    lemma_boundary_bytes(pre, i);
    lemma_boundary_bytes(s, i);
    if 0 < i < hi {
        assert(pre[i] == s[i]);
    }
}

/// The first scalar of a valid nonempty sequence does not change when bytes are appended.
pub proof fn lemma_first_scalar_extend(x: Seq<u8>, y: Seq<u8>)
    requires
        valid_utf8(x),
        x.len() > 0,
    ensures
        valid_first_scalar(x + y),
        decode_first_scalar(x + y) == decode_first_scalar(x),
        length_of_first_scalar(x + y) == length_of_first_scalar(x),
{
    lemma_decode_first(x);
    let xy = x + y;
    assert(xy[0] == x[0]);
    if x.len() > 1 {
        assert(xy[1] == x[1]);
    }
    if x.len() > 2 {
        assert(xy[2] == x[2]);
    }
    if x.len() > 3 {
        assert(xy[3] == x[3]);
    }
}

/// Where a character starts inside the left part of a concatenation, it is the
/// character of the left part; inside the right part, that of the right part.
pub proof fn lemma_char_at_concat(a: Seq<u8>, b: Seq<u8>, i: int)
    requires
        valid_utf8(a),
        valid_utf8(b),
    ensures
        0 <= i < a.len() ==> char_at_spec(a + b, i) == char_at_spec(a, i),
        0 <= i < a.len() && is_char_boundary(a, i) ==> width_at(a + b, i) == width_at(a, i),
        a.len() <= i ==> char_at_spec(a + b, i) == char_at_spec(b, i - a.len()),
        a.len() <= i < a.len() + b.len() && is_char_boundary(b, i - a.len()) ==> width_at(a + b, i)
            == width_at(b, i - a.len()),
{
    lemma_boundary_concat(a, b, i);
    if 0 <= i < a.len() && is_char_boundary(a, i) {
        valid_utf8_split(a, i);
        assert((a + b).skip(i) =~= a.skip(i) + b);
        lemma_first_scalar_extend(a.skip(i), b);
    }
    if a.len() <= i < a.len() + b.len() {
        assert((a + b).skip(i) =~= b.skip(i - a.len()));
    }
}

/// The width of a character is given by its leading byte.
pub proof fn lemma_width_leading_byte(bytes: Seq<u8>, i: int)
    requires
        valid_utf8(bytes),
        0 <= i < bytes.len(),
        is_char_boundary(bytes, i),
    ensures
        width_at(bytes, i) == width_of_leading_byte(bytes[i]),
        1 <= width_at(bytes, i) <= bytes.len() - i,
        is_char_boundary(bytes, i + width_at(bytes, i)),
{
    valid_utf8_split(bytes, i);
    let t = bytes.skip(i);
    lemma_decode_first(t);
    assert(t[0] == bytes[i]);
    let w = length_of_first_scalar(t);
    // the rest after the first character is valid, so its start is a boundary
    let head = t.take(w);
    let rest = t.skip(w);
    assert(pop_first_scalar(t) =~= rest);
    assert(head[0] == t[0]);
    if w > 1 {
        assert(head[1] == t[1]);
    }
    if w > 2 {
        assert(head[2] == t[2]);
    }
    if w > 3 {
        assert(head[3] == t[3]);
    }
    assert(pop_first_scalar(head).len() == 0);
    assert(valid_utf8(head)) by {
        reveal_with_fuel(valid_utf8, 2);
    }
    assert(head + rest =~= t);
    lemma_boundary_concat(head, rest, w);
    is_char_boundary_start_end_of_seq(head);
    lemma_boundary_concat(bytes.take(i), t, i + w);
    assert(bytes.take(i) + t =~= bytes);
    valid_utf8_split(bytes, i);
}

} // verus!
