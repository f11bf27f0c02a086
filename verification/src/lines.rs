//! Positions in a UTF-8 text: lines, characters and words, stated over the
//! text's bytes. The editor moves its cursor and lays out its view by these.
use vstd::prelude::*;
use vstd::utf8::*;

use crate::utf8::{
    char_at_spec, lemma_boundary_bytes, lemma_boundary_concat, lemma_boundary_subrange,
    lemma_decode_first, lemma_first_scalar_extend, lemma_width_leading_byte, width_at,
};

verus! {

broadcast use vstd::seq::group_seq_axioms, vstd::seq_lib::group_seq_properties;

/// The byte of a line break.
pub open spec fn newline() -> u8 {
    10
}

/// The number of line breaks in `t`.
pub open spec fn count_newlines(t: Seq<u8>) -> nat
    decreases t.len(),
{
    if t.len() == 0 {
        0
    } else {
        count_newlines(t.drop_last()) + if t.last() == newline() {
            1nat
        } else {
            0nat
        }
    }
}

/// The start of the line that holds offset `off`: just after the last line break before it.
pub open spec fn line_start(t: Seq<u8>, off: int) -> int
    decreases off,
{
    if off <= 0 {
        0
    } else if t[off - 1] == newline() {
        off
    } else {
        line_start(t, off - 1)
    }
}

/// The end of the line that holds offset `off`: the first line break at or after it, or
/// the end of the text.
pub open spec fn line_end(t: Seq<u8>, off: int) -> int
    decreases t.len() - off,
{
    if off >= t.len() {
        t.len() as int
    } else if t[off] == newline() {
        off
    } else {
        line_end(t, off + 1)
    }
}

/// The last character boundary strictly before `c`, or 0.
pub open spec fn prev_b(t: Seq<u8>, c: int) -> int
    decreases c,
{
    if c <= 0 {
        0
    } else if is_char_boundary(t, c - 1) {
        c - 1
    } else {
        prev_b(t, c - 1)
    }
}

/// The boundary after the character that starts at `c`, or the end of the text.
pub open spec fn next_b(t: Seq<u8>, c: int) -> int {
    if c < t.len() {
        c + width_at(t, c)
    } else {
        t.len() as int
    }
}

/// The characters of the bytes from `a` to `b`.
pub open spec fn chars_between(t: Seq<u8>, a: int, b: int) -> Seq<char> {
    decode_utf8(t.subrange(a, b))
}

/// The column of offset `off`: the number of characters between its line's start and it.
pub open spec fn char_column(t: Seq<u8>, off: int) -> nat {
    chars_between(t, line_start(t, off), off).len()
}

/// The line of offset `off`, counting from 0: the number of line breaks before it.
pub open spec fn line_number(t: Seq<u8>, off: int) -> nat {
    count_newlines(t.take(off))
}

/// The offset reached from `off` by stepping over `n` characters, stopping at `limit`.
pub open spec fn advance(t: Seq<u8>, off: int, n: nat, limit: int) -> int {
    let cs = chars_between(t, off, limit);
    if off >= limit {
        off
    } else if n < cs.len() {
        off + encode_utf8(cs.take(n as int)).len()
    } else {
        limit
    }
}

/// A character counts for moving by words when it is alphanumeric (`alphanumeric`) or
/// it is `_`.
pub open spec fn word_char_rule(c: char, alphanumeric: bool) -> bool {
    alphanumeric || c == '_'
}

/// A character counts for moving by words when `char::is_alphanumeric` holds of it or it is `_`.
pub open spec fn is_word_char_spec(c: char) -> bool {
    word_char_rule(c, crate::std_calls::char_is_alphanumeric(c))
}

/// A word character starts at `off`.
pub open spec fn is_word_at(t: Seq<u8>, off: int) -> bool {
    match char_at_spec(t, off) {
        Some(c) => is_word_char_spec(c),
        None => false,
    }
}

/// From `c`, step back over characters for as long as the one before is (`word`) or is
/// not (`!word`) a word character.
pub open spec fn skip_back(t: Seq<u8>, c: int, word: bool) -> int
    decreases c,
{
    if c > 0 && 0 <= prev_b(t, c) < c && is_word_at(t, prev_b(t, c)) == word {
        skip_back(t, prev_b(t, c), word)
    } else {
        c
    }
}

/// From `c`, step forward over characters for as long as the one at the position is
/// (`word`) or is not (`!word`) a word character.
pub open spec fn skip_forward(t: Seq<u8>, c: int, word: bool) -> int
    decreases t.len() - c,
{
    if c < t.len() && c < next_b(t, c) <= t.len() && is_word_at(t, c) == word {
        skip_forward(t, next_b(t, c), word)
    } else {
        c
    }
}

/// Back over the non-word characters before `c`, then over the word before them.
pub open spec fn word_left(t: Seq<u8>, c: int) -> int {
    skip_back(t, skip_back(t, c, false), true)
}

/// Forward over the non-word characters at `c`, then over the word after them.
pub open spec fn word_right(t: Seq<u8>, c: int) -> int {
    skip_forward(t, skip_forward(t, c, false), true)
}

/// The start of line `k` (counting from 0); beyond the last line it is past the end.
pub open spec fn nth_line_start(t: Seq<u8>, k: nat) -> int
    decreases k,
{
    if k == 0 {
        0
    } else {
        line_end(t, nth_line_start(t, (k - 1) as nat)) + 1
    }
}

pub proof fn lemma_count_newlines_concat(a: Seq<u8>, b: Seq<u8>)
    ensures
        count_newlines(a + b) == count_newlines(a) + count_newlines(b),
    decreases b.len(),
{
    if b.len() == 0 {
        assert(a + b =~= a);
    } else {
        assert((a + b).drop_last() =~= a + b.drop_last());
        lemma_count_newlines_concat(a, b.drop_last());
    }
}

pub proof fn lemma_count_newlines_take(t: Seq<u8>, i: int)
    requires
        0 <= i < t.len(),
    ensures
        count_newlines(t.take(i + 1)) == count_newlines(t.take(i)) + if t[i] == newline() {
            1nat
        } else {
            0nat
        },
{
    assert(t.take(i + 1).drop_last() =~= t.take(i));
}

pub proof fn lemma_count_newlines_bound(t: Seq<u8>)
    ensures
        count_newlines(t) <= t.len(),
    decreases t.len(),
{
    if t.len() > 0 {
        lemma_count_newlines_bound(t.drop_last());
    }
}

/// A text with no line break counts none.
pub proof fn lemma_count_newlines_none(t: Seq<u8>)
    requires
        forall|k: int| 0 <= k < t.len() ==> t[k] != newline(),
    ensures
        count_newlines(t) == 0,
    decreases t.len(),
{
    if t.len() > 0 {
        lemma_count_newlines_none(t.drop_last());
    }
}

/// The bytes of one character hold a line break exactly when the character is one.
pub proof fn lemma_char_newlines(t: Seq<u8>, i: int)
    requires
        valid_utf8(t),
        0 <= i < t.len(),
        is_char_boundary(t, i),
    ensures
        count_newlines(t.subrange(i, i + width_at(t, i))) == if t[i] == newline() {
            1nat
        } else {
            0nat
        },
        t[i] == newline() ==> width_at(t, i) == 1,
{
    lemma_width_leading_byte(t, i);
    let w = width_at(t, i);
    let s = t.subrange(i, i + w);
    if w == 1 {
        assert(s.drop_last() =~= Seq::<u8>::empty());
        assert(count_newlines(Seq::<u8>::empty()) == 0);
        assert(s.last() == t[i]);
    } else {
        valid_utf8_split(t, i);
        let u = t.skip(i);
        lemma_decode_first(u);
        assert forall|k: int| 0 <= k < s.len() implies s[k] != newline() by {
            assert(s[k] == u[k]);
        }
        lemma_count_newlines_none(s);
    }
}

/// No boundary lies strictly inside a character.
pub proof fn lemma_inside_char(t: Seq<u8>, i: int, j: int)
    requires
        valid_utf8(t),
        0 <= i < t.len(),
        is_char_boundary(t, i),
        i < j < i + width_at(t, i),
    ensures
        !is_char_boundary(t, j),
{
    lemma_width_leading_byte(t, i);
    let u = t.skip(i);
    valid_utf8_split(t, i);
    lemma_decode_first(u);
    assert(t[j] == u[j - i]);
    is_char_boundary_iff_not_is_continuation_byte(t, j);
}

/// One byte holds a line break exactly when it is one.
pub proof fn lemma_count_newlines_single(b: u8)
    ensures
        count_newlines(seq![b]) == if b == newline() {
            1nat
        } else {
            0nat
        },
{
    assert(seq![b].drop_last() =~= Seq::<u8>::empty());
    assert(count_newlines(Seq::<u8>::empty()) == 0);
}

/// The encoding of a character holds a line break exactly when the character is one.
pub proof fn lemma_encode_scalar_newlines(c: char)
    ensures
        count_newlines(encode_scalar(c as u32)) == if c == '\n' {
            1nat
        } else {
            0nat
        },
{
    let v = c as u32;
    char_is_scalar(c);
    if has_width_1_encoding(v) {
        let b = leading_byte_width_1(v);
        assert(b == v as u8 && (b == 10u8 <==> v == 10u32)) by (bit_vector)
            requires
                v <= 0x7f,
                b == (v & 0x7F) as u8,
        ;
        let e = encode_scalar(v);
        assert(e =~= seq![b]);
        assert(e.drop_last() =~= Seq::<u8>::empty());
        assert(count_newlines(Seq::<u8>::empty()) == 0);
        assert(c == '\n' <==> v == 10);
    } else {
        let e = encode_scalar(v);
        assert forall|k: int| 0 <= k < e.len() implies e[k] != newline() by {
            let b1 = leading_byte_width_2(v);
            let b2 = leading_byte_width_3(v);
            let b3 = leading_byte_width_4(v);
            let c1 = last_continuation_byte(v);
            let c2 = second_last_continuation_byte(v);
            let c3 = third_last_continuation_byte(v);
            assert(b1 >= 0x80 && b2 >= 0x80 && b3 >= 0x80 && c1 >= 0x80 && c2 >= 0x80 && c3
                >= 0x80) by (bit_vector)
                requires
                    b1 == 0xC0 | ((v >> 6) & 0x1F) as u8,
                    b2 == 0xE0 | ((v >> 12) & 0x0F) as u8,
                    b3 == 0xF0 | ((v >> 18) & 0x7) as u8,
                    c1 == 0x80 | (v & 0x3F) as u8,
                    c2 == 0x80 | ((v >> 6) & 0x3F) as u8,
                    c3 == 0x80 | ((v >> 12) & 0x3F) as u8,
            ;
        }
        lemma_count_newlines_none(e);
        assert(c != '\n') by {
            assert(v != 10);
        }
    }
}

/// The line start is at most the offset, no line break lies between them, and the
/// byte before it is a line break unless it is 0.
pub proof fn lemma_line_start(t: Seq<u8>, off: int)
    requires
        0 <= off <= t.len(),
    ensures
        0 <= line_start(t, off) <= off,
        line_start(t, off) > 0 ==> t[line_start(t, off) - 1] == newline(),
        forall|k: int| line_start(t, off) <= k < off ==> t[k] != newline(),
    decreases off,
{
    if off > 0 && t[off - 1] != newline() {
        lemma_line_start(t, off - 1);
    }
}

/// The line end is at least the offset, no line break lies between them, and it is
/// a line break unless it is the end of the text.
pub proof fn lemma_line_end(t: Seq<u8>, off: int)
    requires
        0 <= off <= t.len(),
    ensures
        off <= line_end(t, off) <= t.len(),
        line_end(t, off) < t.len() ==> t[line_end(t, off)] == newline(),
        forall|k: int| off <= k < line_end(t, off) ==> t[k] != newline(),
    decreases t.len() - off,
{
    if off < t.len() && t[off] != newline() {
        lemma_line_end(t, off + 1);
    }
}

/// Line breaks are character boundaries, and so are the positions just after them.
pub proof fn lemma_newline_boundary(t: Seq<u8>, k: int)
    requires
        valid_utf8(t),
        0 <= k < t.len(),
        t[k] == newline(),
    ensures
        is_char_boundary(t, k),
        is_char_boundary(t, k + 1),
{
    lemma_boundary_bytes(t, k);
    lemma_width_leading_byte(t, k);
}

/// Line starts and line ends are character boundaries.
pub proof fn lemma_line_bounds_boundary(t: Seq<u8>, off: int)
    requires
        valid_utf8(t),
        0 <= off <= t.len(),
    ensures
        is_char_boundary(t, line_start(t, off)),
        is_char_boundary(t, line_end(t, off)),
{
    lemma_line_start(t, off);
    lemma_line_end(t, off);
    is_char_boundary_start_end_of_seq(t);
    if line_start(t, off) > 0 {
        lemma_newline_boundary(t, line_start(t, off) - 1);
    }
    if line_end(t, off) < t.len() {
        lemma_newline_boundary(t, line_end(t, off));
    }
}

/// The last boundary before `c` found by `prev_b` is the one that
/// `Rope::prev_char_boundary` returns.
pub proof fn lemma_prev_b(t: Seq<u8>, c: int, i: int)
    requires
        valid_utf8(t),
        0 < c <= t.len(),
        0 <= i <= c - 1,
        is_char_boundary(t, i),
        forall|j: int| i < j <= c - 1 ==> !is_char_boundary(t, j),
    ensures
        prev_b(t, c) == i,
    decreases c,
{
    if !is_char_boundary(t, c - 1) {
        lemma_prev_b(t, c - 1, i);
    }
}

/// `prev_b` is a boundary before `c` when `c` is positive.
pub proof fn lemma_prev_b_bounds(t: Seq<u8>, c: int)
    requires
        valid_utf8(t),
        0 <= c <= t.len(),
    ensures
        is_char_boundary(t, prev_b(t, c)),
        0 <= prev_b(t, c) <= c,
        c > 0 ==> prev_b(t, c) < c,
    decreases c,
{
    is_char_boundary_start_end_of_seq(t);
    if c > 0 && !is_char_boundary(t, c - 1) {
        lemma_prev_b_bounds(t, c - 1);
    }
}

/// Between two boundaries with something between them, the characters are the one
/// at the first boundary followed by the rest.
pub proof fn lemma_chars_step(t: Seq<u8>, a: int, b: int)
    requires
        valid_utf8(t),
        0 <= a < b <= t.len(),
        is_char_boundary(t, a),
        is_char_boundary(t, b),
    ensures
        a + width_at(t, a) <= b,
        is_char_boundary(t, a + width_at(t, a)),
        char_at_spec(t, a) == Some(chars_between(t, a, b)[0]),
        chars_between(t, a, b) == seq![chars_between(t, a, b)[0]] + chars_between(
            t,
            a + width_at(t, a),
            b,
        ),
        encode_scalar(chars_between(t, a, b)[0] as u32).len() == width_at(t, a),
{
    lemma_boundary_subrange(t, a, b, a);
    let x = t.subrange(a, b);
    lemma_decode_first(x);
    assert(t.skip(a) =~= x + t.skip(b));
    lemma_first_scalar_extend(x, t.skip(b));
    let w = width_at(t, a);
    assert(pop_first_scalar(x) =~= t.subrange(a + w, b));
    decode_utf8_first_scalar(x);
    lemma_width_leading_byte(t, a);
}

/// The characters between two boundaries are those up to a boundary in between
/// followed by those after it.
pub proof fn lemma_chars_split(t: Seq<u8>, a: int, m: int, b: int)
    requires
        valid_utf8(t),
        0 <= a <= m <= b <= t.len(),
        is_char_boundary(t, a),
        is_char_boundary(t, m),
        is_char_boundary(t, b),
    ensures
        chars_between(t, a, b) == chars_between(t, a, m) + chars_between(t, m, b),
{
    lemma_boundary_subrange(t, a, b, m);
    let x = t.subrange(a, b);
    decode_utf8_split(x, m - a);
    assert(x.subrange(0, m - a) =~= t.subrange(a, m));
    assert(x.subrange(m - a, x.len() as int) =~= t.subrange(m, b));
}

/// The bytes between two boundaries encode the characters between them.
pub proof fn lemma_chars_encode(t: Seq<u8>, a: int, b: int)
    requires
        valid_utf8(t),
        0 <= a <= b <= t.len(),
        is_char_boundary(t, a),
        is_char_boundary(t, b),
    ensures
        encode_utf8(chars_between(t, a, b)) == t.subrange(a, b),
        valid_utf8(t.subrange(a, b)),
{
    lemma_boundary_subrange(t, a, b, a);
    decode_utf8_encode_utf8(t.subrange(a, b));
}

} // verus!
