//! Line endings of files: a file whose last line break is `\r\n` is read with
//! its `\r\n` turned into `\n` and written back with `\n` turned into `\r\n`.
use vstd::prelude::*;
use vstd::string::StringExecFns;
use vstd::string::StringSliceAdditionalSpecFns;
use vstd::utf8::*;

use crate::rope::lemma_encode_len;
use crate::std_calls::str_from_utf8;
use crate::utf8::lemma_encode_concat;

verus! {

broadcast use vstd::seq::group_seq_axioms;

#[derive(Debug, PartialEq, Eq, Structural, Clone, Copy)]
pub enum LineEnding {
    LF,
    CRLF,
}

impl Default for LineEnding {
    fn default() -> (res: Self)
        ensures
            res == LineEnding::LF,
    {
        LineEnding::LF
    }
}

/// The index of the last line break in `t`, if any.
pub open spec fn last_newline(t: Seq<u8>) -> Option<int>
    decreases t.len(),
{
    if t.len() == 0 {
        None
    } else if t.last() == 10 {
        Some(t.len() - 1)
    } else {
        last_newline(t.drop_last())
    }
}

/// The line ending of a file's text: `\r\n` when its last line break follows a `\r`.
pub open spec fn spec_line_ending(t: Seq<u8>) -> LineEnding {
    match last_newline(t) {
        Some(i) => if i > 0 && t[i - 1] == 13 {
            LineEnding::CRLF
        } else {
            LineEnding::LF
        },
        None => LineEnding::LF,
    }
}

/// Every `\r\n` replaced by `\n`, from left to right.
pub open spec fn crlf_to_lf_chars(s: Seq<char>) -> Seq<char>
    decreases s.len(),
{
    if s.len() == 0 {
        s
    } else if s.len() >= 2 && s[0] == '\r' && s[1] == '\n' {
        seq!['\n'] + crlf_to_lf_chars(s.skip(2))
    } else {
        seq![s[0]] + crlf_to_lf_chars(s.skip(1))
    }
}

/// Every `\n` replaced by `\r\n`.
pub open spec fn lf_to_crlf_chars(s: Seq<char>) -> Seq<char>
    decreases s.len(),
{
    if s.len() == 0 {
        s
    } else if s[0] == '\n' {
        seq!['\r', '\n'] + lf_to_crlf_chars(s.skip(1))
    } else {
        seq![s[0]] + lf_to_crlf_chars(s.skip(1))
    }
}

/// The same replacement as `crlf_to_lf_chars`, on bytes.
pub open spec fn crlf_to_lf_bytes(t: Seq<u8>) -> Seq<u8>
    decreases t.len(),
{
    if t.len() == 0 {
        t
    } else if t.len() >= 2 && t[0] == 13 && t[1] == 10 {
        seq![10u8] + crlf_to_lf_bytes(t.skip(2))
    } else {
        seq![t[0]] + crlf_to_lf_bytes(t.skip(1))
    }
}

/// The same replacement as `lf_to_crlf_chars`, on bytes.
pub open spec fn lf_to_crlf_bytes(t: Seq<u8>) -> Seq<u8>
    decreases t.len(),
{
    if t.len() == 0 {
        t
    } else if t[0] == 10 {
        seq![13u8, 10u8] + lf_to_crlf_bytes(t.skip(1))
    } else {
        seq![t[0]] + lf_to_crlf_bytes(t.skip(1))
    }
}

/// The line ending of `text`.
pub fn detect_line_ending(text: &str) -> (res: LineEnding)
    ensures
        res == spec_line_ending(text.spec_bytes()),
{
    let b = text.as_bytes();
    let ghost t = b@;
    let mut i: usize = b.len();
    proof {
        assert(t.take(t.len() as int) =~= t);
    }
    while i > 0 && b[i - 1] != 10
        invariant
            b@ == t,
            i <= t.len(),
            last_newline(t) == last_newline(t.take(i as int)),
        decreases i,
    {
        proof {
            assert(t.take(i as int).drop_last() =~= t.take(i - 1));
        }
        i = i - 1;
    }
    proof {
        if i == 0 {
            assert(t.take(0) =~= Seq::<u8>::empty());
        } else {
            assert(t.take(i as int).last() == t[i - 1]);
        }
        assert(t.take(t.len() as int) =~= t);
    }
    if i > 1 && b[i - 2] == 13 {
        LineEnding::CRLF
    } else {
        LineEnding::LF
    }
}

/// `text` with every `\r\n` replaced by `\n`.
pub fn crlf_to_lf(text: &str) -> (res: String)
    ensures
        res@ == crlf_to_lf_chars(text@),
{
    let b = text.as_bytes();
    let ghost t = b@;
    let mut out: Vec<u8> = Vec::new();
    let mut i: usize = 0;
    proof {
        assert(t.skip(0) =~= t);
    }
    while i < b.len()
        invariant
            b@ == t,
            i <= t.len(),
            out@ + crlf_to_lf_bytes(t.skip(i as int)) == crlf_to_lf_bytes(t),
        decreases t.len() - i,
    {
        let ghost rest = t.skip(i as int);
        if b[i] == 13 && i + 1 < b.len() && b[i + 1] == 10 {
            proof {
                assert(rest.skip(2) =~= t.skip(i + 2));
                assert(out@.push(10u8) + crlf_to_lf_bytes(t.skip(i + 2)) =~= out@ + (seq![10u8]
                    + crlf_to_lf_bytes(t.skip(i + 2))));
            }
            out.push(10);
            i = i + 2;
        } else {
            proof {
                assert(rest.skip(1) =~= t.skip(i + 1));
                assert(out@.push(t[i as int]) + crlf_to_lf_bytes(t.skip(i + 1)) =~= out@ + (seq![
                    t[i as int],
                ] + crlf_to_lf_bytes(t.skip(i + 1))));
            }
            out.push(b[i]);
            i = i + 1;
        }
    }
    proof {
        assert(t.skip(t.len() as int) =~= Seq::<u8>::empty());
        assert(out@ + Seq::<u8>::empty() =~= out@);
        lemma_crlf_to_lf_encode(text@);
        encode_utf8_valid_utf8(crlf_to_lf_chars(text@));
        encode_utf8_decode_utf8(crlf_to_lf_chars(text@));
    }
    match str_from_utf8(out.as_slice()) {
        Some(s) => String::from_str(s),
        None => String::new(),
    }
}

/// `text` with every `\n` replaced by `\r\n`.
pub fn lf_to_crlf(text: &str) -> (res: String)
    ensures
        res@ == lf_to_crlf_chars(text@),
{
    let b = text.as_bytes();
    let ghost t = b@;
    let mut out: Vec<u8> = Vec::new();
    let mut i: usize = 0;
    proof {
        assert(t.skip(0) =~= t);
    }
    while i < b.len()
        invariant
            b@ == t,
            i <= t.len(),
            out@ + lf_to_crlf_bytes(t.skip(i as int)) == lf_to_crlf_bytes(t),
        decreases t.len() - i,
    {
        let ghost rest = t.skip(i as int);
        proof {
            assert(rest.skip(1) =~= t.skip(i + 1));
        }
        if b[i] == 10 {
            proof {
                assert(out@.push(13u8).push(10u8) + lf_to_crlf_bytes(t.skip(i + 1)) =~= out@ + (
                seq![13u8, 10u8] + lf_to_crlf_bytes(t.skip(i + 1))));
            }
            out.push(13);
            out.push(10);
        } else {
            proof {
                assert(out@.push(t[i as int]) + lf_to_crlf_bytes(t.skip(i + 1)) =~= out@ + (seq![
                    t[i as int],
                ] + lf_to_crlf_bytes(t.skip(i + 1))));
            }
            out.push(b[i]);
        }
        i = i + 1;
    }
    proof {
        assert(t.skip(t.len() as int) =~= Seq::<u8>::empty());
        assert(out@ + Seq::<u8>::empty() =~= out@);
        lemma_lf_to_crlf_encode(text@);
        encode_utf8_valid_utf8(lf_to_crlf_chars(text@));
        encode_utf8_decode_utf8(lf_to_crlf_chars(text@));
    }
    match str_from_utf8(out.as_slice()) {
        Some(s) => String::from_str(s),
        None => String::new(),
    }
}

/// The encoding of a character is the single byte of the ASCII character `d` when it
/// is `d`, and otherwise holds no such byte.
pub proof fn lemma_encode_ascii(c: char, d: char)
    requires
        (d as u32) < 0x80,
    ensures
        c == d ==> encode_scalar(c as u32) == seq![(d as u32) as u8],
        c != d ==> forall|k: int|
            0 <= k < encode_scalar(c as u32).len() ==> #[trigger] encode_scalar(c as u32)[k] != (
            d as u32) as u8,
        encode_scalar(c as u32).len() >= 1,
{
    let v = c as u32;
    let w = d as u32;
    char_is_scalar(c);
    char_u32_cast(c, v);
    char_u32_cast(d, w);
    let b = w as u8;
    let e = encode_scalar(v);
    if has_width_1_encoding(v) {
        let x = leading_byte_width_1(v);
        assert(x == v as u8 && (x == b <==> v == w)) by (bit_vector)
            requires
                v <= 0x7f,
                w < 0x80,
                b == w as u8,
                x == (v & 0x7F) as u8,
        ;
        assert(e =~= seq![x]);
    } else {
        assert(b < 0x80) by (bit_vector)
            requires
                w < 0x80,
                b == w as u8,
        ;
        assert forall|k: int| 0 <= k < e.len() implies e[k] != b by {
            let b1 = leading_byte_width_2(v);
            let b2 = leading_byte_width_3(v);
            let b3 = leading_byte_width_4(v);
            let c1 = last_continuation_byte(v);
            let c2 = second_last_continuation_byte(v);
            let c3 = third_last_continuation_byte(v);
            assert(b1 >= 0x80 && b2 >= 0x80 && b3 >= 0x80 && c1 >= 0x80 && c2 >= 0x80 && c3
                >= 0x80) by (bit_vector)
                requires
                    b1 == 0xC0 | ((v >> 6) & 0x1F) as u8,
                    b2 == 0xE0 | ((v >> 12) & 0x0F) as u8,
                    b3 == 0xF0 | ((v >> 18) & 0x7) as u8,
                    c1 == 0x80 | (v & 0x3F) as u8,
                    c2 == 0x80 | ((v >> 6) & 0x3F) as u8,
                    c3 == 0x80 | ((v >> 12) & 0x3F) as u8,
            ;
        }
    }
}

/// The encoding of a nonempty character sequence: the first character's bytes, then the rest.
proof fn lemma_encode_first(s: Seq<char>)
    requires
        s.len() > 0,
    ensures
        encode_utf8(s) == encode_scalar(s[0] as u32) + encode_utf8(s.skip(1)),
{
    assert(s.drop_first() =~= s.skip(1));
}

/// Bytes without `\r` pass through the `\r\n` replacement unchanged.
proof fn lemma_crlf_prefix(x: Seq<u8>, y: Seq<u8>)
    requires
        forall|k: int| 0 <= k < x.len() ==> x[k] != 13,
    ensures
        crlf_to_lf_bytes(x + y) == x + crlf_to_lf_bytes(y),
    decreases x.len(),
{
    if x.len() == 0 {
        assert(x + y =~= y);
    } else {
        assert((x + y).skip(1) =~= x.skip(1) + y);
        lemma_crlf_prefix(x.skip(1), y);
        assert(x + crlf_to_lf_bytes(y) =~= seq![x[0]] + (x.skip(1) + crlf_to_lf_bytes(y)));
    }
}

/// Replacing on the bytes is replacing on the characters.
pub proof fn lemma_crlf_to_lf_encode(s: Seq<char>)
    ensures
        crlf_to_lf_bytes(encode_utf8(s)) == encode_utf8(crlf_to_lf_chars(s)),
    decreases s.len(),
{
    if s.len() == 0 {
    } else {
        lemma_encode_first(s);
        lemma_encode_ascii(s[0], '\r');
        assert(('\r' as u32) as u8 == 13u8);
        assert(('\n' as u32) as u8 == 10u8);
        let rest = encode_utf8(s.skip(1));
        if s.len() >= 2 && s[0] == '\r' && s[1] == '\n' {
            lemma_encode_first(s.skip(1));
            lemma_encode_ascii(s[1], '\n');
            assert(s.skip(1)[0] == s[1]);
            assert(s.skip(1).skip(1) =~= s.skip(2));
            let t = encode_utf8(s);
            assert(t =~= seq![13u8, 10u8] + encode_utf8(s.skip(2)));
            assert(t.skip(2) =~= encode_utf8(s.skip(2)));
            lemma_crlf_to_lf_encode(s.skip(2));
            lemma_encode_concat(seq!['\n'], crlf_to_lf_chars(s.skip(2)));
            lemma_encode_first(seq!['\n']);
            lemma_encode_ascii('\n', '\n');
            assert(seq!['\n'].skip(1) =~= Seq::<char>::empty());
        } else {
            lemma_crlf_to_lf_encode(s.skip(1));
            lemma_encode_concat(seq![s[0]], crlf_to_lf_chars(s.skip(1)));
            lemma_encode_first(seq![s[0]]);
            assert(seq![s[0]].skip(1) =~= Seq::<char>::empty());
            assert(encode_scalar(s[0] as u32) + encode_utf8(Seq::<char>::empty()) =~= encode_scalar(
                s[0] as u32,
            ));
            if s[0] == '\r' {
                let t = encode_utf8(s);
                assert(t =~= seq![13u8] + rest);
                if s.len() >= 2 {
                    lemma_encode_first(s.skip(1));
                    lemma_encode_ascii(s[1], '\n');
                    assert(s.skip(1)[0] == s[1]);
                    assert(rest[0] != 10);
                } else {
                    assert(s.skip(1) =~= Seq::<char>::empty());
                }
                assert(t.skip(1) =~= rest);
            } else {
                lemma_crlf_prefix(encode_scalar(s[0] as u32), rest);
            }
        }
    }
}

/// The `\n` replacement distributes over concatenation.
proof fn lemma_lf_concat(x: Seq<u8>, y: Seq<u8>)
    ensures
        lf_to_crlf_bytes(x + y) == lf_to_crlf_bytes(x) + lf_to_crlf_bytes(y),
    decreases x.len(),
{
    if x.len() == 0 {
        assert(x + y =~= y);
        assert(lf_to_crlf_bytes(x) + lf_to_crlf_bytes(y) =~= lf_to_crlf_bytes(y));
    } else {
        assert((x + y).skip(1) =~= x.skip(1) + y);
        lemma_lf_concat(x.skip(1), y);
        if x[0] == 10 {
            assert(seq![13u8, 10u8] + (lf_to_crlf_bytes(x.skip(1)) + lf_to_crlf_bytes(y)) =~= (seq![
                13u8,
                10u8,
            ] + lf_to_crlf_bytes(x.skip(1))) + lf_to_crlf_bytes(y));
        } else {
            assert(seq![x[0]] + (lf_to_crlf_bytes(x.skip(1)) + lf_to_crlf_bytes(y)) =~= (seq![x[0]]
                + lf_to_crlf_bytes(x.skip(1))) + lf_to_crlf_bytes(y));
        }
    }
}

/// Bytes without `\n` pass through the `\n` replacement unchanged.
proof fn lemma_lf_none(x: Seq<u8>)
    requires
        forall|k: int| 0 <= k < x.len() ==> x[k] != 10,
    ensures
        lf_to_crlf_bytes(x) == x,
    decreases x.len(),
{
    if x.len() > 0 {
        lemma_lf_none(x.skip(1));
        assert(seq![x[0]] + x.skip(1) =~= x);
    }
}

/// Replacing on the bytes is replacing on the characters.
pub proof fn lemma_lf_to_crlf_encode(s: Seq<char>)
    ensures
        lf_to_crlf_bytes(encode_utf8(s)) == encode_utf8(lf_to_crlf_chars(s)),
    decreases s.len(),
{
    if s.len() > 0 {
        lemma_encode_first(s);
        lemma_encode_ascii(s[0], '\n');
        assert(('\n' as u32) as u8 == 10u8);
        let e = encode_scalar(s[0] as u32);
        lemma_lf_concat(e, encode_utf8(s.skip(1)));
        lemma_lf_to_crlf_encode(s.skip(1));
        if s[0] == '\n' {
            assert(e =~= seq![10u8]);
            assert(seq![10u8].skip(1) =~= Seq::<u8>::empty());
            assert(lf_to_crlf_bytes(Seq::<u8>::empty()) =~= Seq::<u8>::empty());
            assert(lf_to_crlf_bytes(e) =~= seq![13u8, 10u8] + Seq::<u8>::empty());
            lemma_encode_concat(seq!['\r', '\n'], lf_to_crlf_chars(s.skip(1)));
            lemma_encode_first(seq!['\r', '\n']);
            lemma_encode_first(seq!['\r', '\n'].skip(1));
            lemma_encode_ascii('\r', '\r');
            lemma_encode_ascii('\n', '\n');
            assert(seq!['\r', '\n'].skip(1)[0] == '\n');
            assert(seq!['\r', '\n'].skip(1).skip(1) =~= Seq::<char>::empty());
            assert(encode_utf8(seq!['\r', '\n']) =~= seq![13u8, 10u8]);
        } else {
            lemma_lf_none(e);
            lemma_encode_concat(seq![s[0]], lf_to_crlf_chars(s.skip(1)));
            lemma_encode_first(seq![s[0]]);
            assert(seq![s[0]].skip(1) =~= Seq::<char>::empty());
            assert(e + encode_utf8(Seq::<char>::empty()) =~= e);
        }
    }
}

/// What reading a file's text gives: with its `\r\n` turned into `\n` when its line
/// ending is `\r\n`, and as it is otherwise.
pub open spec fn read_chars(s: Seq<char>) -> Seq<char> {
    match spec_line_ending(encode_utf8(s)) {
        LineEnding::CRLF => crlf_to_lf_chars(s),
        LineEnding::LF => s,
    }
}

/// Turning `\n` into `\r\n` and then `\r\n` into `\n` gives back the text, whatever
/// `\r` and `\n` it held.
pub proof fn lemma_crlf_undoes_lf(s: Seq<char>)
    ensures
        crlf_to_lf_chars(lf_to_crlf_chars(s)) == s,
    decreases s.len(),
{
    if s.len() > 0 {
        let rest = s.skip(1);
        let l = lf_to_crlf_chars(rest);
        lemma_crlf_undoes_lf(rest);
        if rest.len() > 0 {
            assert(l.len() > 0 && l[0] != '\n');
        }
        if s[0] == '\n' {
            let w = seq!['\r', '\n'] + l;
            assert(w.skip(2) =~= l);
            assert(seq!['\n'] + rest =~= s);
        } else {
            let w = seq![s[0]] + l;
            assert(w.skip(1) =~= l);
            assert(seq![s[0]] + rest =~= s);
        }
    }
}

/// The last line break is a line break of the text.
proof fn lemma_last_newline_bound(x: Seq<u8>)
    ensures
        last_newline(x) matches Some(i) ==> 0 <= i < x.len() && x[i] == 10,
    decreases x.len(),
{
    if x.len() > 0 && x.last() != 10 {
        lemma_last_newline_bound(x.drop_last());
    }
}

/// The last line break of `x` followed by a byte that is not a line break is still the
/// last, and the line ending is unchanged.
proof fn lemma_ending_push(x: Seq<u8>, b: u8)
    requires
        b != 10,
    ensures
        last_newline(x.push(b)) == last_newline(x),
        spec_line_ending(x.push(b)) == spec_line_ending(x),
{
    assert(x.push(b).drop_last() =~= x);
    lemma_last_newline_bound(x);
}

/// Writing a text with `\r\n` for its line breaks: a text without line breaks is
/// written as it is, and one with a line break is read back as `\r\n`.
pub proof fn lemma_lf_to_crlf_ending(t: Seq<u8>)
    ensures
        last_newline(t) is None ==> lf_to_crlf_bytes(t) == t,
        last_newline(t) is Some ==> spec_line_ending(lf_to_crlf_bytes(t)) == LineEnding::CRLF,
    decreases t.len(),
{
    if t.len() > 0 {
        let d = t.drop_last();
        let b = t.last();
        lemma_lf_to_crlf_ending(d);
        assert(d + seq![b] =~= t);
        lemma_lf_concat(d, seq![b]);
        assert(seq![b].skip(1) =~= Seq::<u8>::empty());
        assert(lf_to_crlf_bytes(Seq::<u8>::empty()) =~= Seq::<u8>::empty());
        if b == 10 {
            assert(lf_to_crlf_bytes(seq![b]) =~= seq![13u8, 10u8]);
            let w = lf_to_crlf_bytes(d) + seq![13u8, 10u8];
            assert(w.last() == 10);
            assert(w[w.len() - 2] == 13);
            assert(last_newline(w) == Some(w.len() - 1));
        } else {
            assert(lf_to_crlf_bytes(seq![b]) =~= seq![b]);
            assert(lf_to_crlf_bytes(d) + seq![b] =~= lf_to_crlf_bytes(d).push(b));
            lemma_ending_push(lf_to_crlf_bytes(d), b);
            assert(t.drop_last() =~= d);
        }
    }
}

} // verus!
