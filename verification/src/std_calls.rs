//! Calls into the standard library for which `vstd` states nothing; each
//! function makes one call and states what the library's documentation promises.
use std::rc::Rc;
use vstd::prelude::*;
use vstd::utf8::*;

use crate::utf8::{char_at_spec, width_at};

verus! {

/// `Rc::<str>::from(&str)`: a new shared string slice holding the same characters.
#[verifier::external_body]
pub(crate) fn rc_str_from(s: &str) -> (res: Rc<str>)
    ensures
        (*res)@ == s@,
{
    Rc::from(s)
}

/// `Rc::clone`: another pointer to the same allocation, so the pointed-to value is the same.
#[verifier::external_body]
pub(crate) fn rc_clone<T: ?Sized>(r: &Rc<T>) -> (res: Rc<T>)
    ensures
        res == *r,
{
    Rc::clone(r)
}

/// `char::len_utf8`: the number of bytes of the character's UTF-8 encoding.
#[verifier::external_body]
pub(crate) fn char_len_utf8(c: char) -> (res: usize)
    ensures
        res == encode_scalar(c as u32).len(),
{
    c.len_utf8()
}

/// `char::to_string`: a string holding just the character.
#[verifier::external_body]
pub(crate) fn char_to_string(c: char) -> (res: String)
    ensures
        res@ == seq![c],
{
    c.to_string()
}

/// What `char::is_alphanumeric` answers for a character: whether Unicode gives it
/// the Alphabetic property or a numeric general category.
pub uninterp spec fn char_is_alphanumeric(c: char) -> bool;

/// `char::is_alphanumeric`; its answer rests on Unicode's tables, named above.
#[verifier::external_body]
pub(crate) fn is_alphanumeric(c: char) -> (res: bool)
    ensures
        res == char_is_alphanumeric(c),
{
    c.is_alphanumeric()
}

/// `String::insert`: puts `c` into the string at byte index `idx`, which must be a
/// character boundary; the string must stay within the size an allocation can have.
#[verifier::external_body]
pub(crate) fn string_insert(s: &mut String, idx: usize, c: char)
    requires
        is_char_boundary(encode_utf8(old(s)@), idx as int),
        encode_utf8(old(s)@).len() + 4 <= isize::MAX,
    ensures
        encode_utf8(final(s)@) == encode_utf8(old(s)@).take(idx as int) + encode_scalar(c as u32)
            + encode_utf8(old(s)@).skip(idx as int),
{
    s.insert(idx, c)
}

/// `String::remove`: takes the character that starts at byte index `idx` out of the
/// string and returns it; `idx` must be a character boundary before the end.
#[verifier::external_body]
pub(crate) fn string_remove(s: &mut String, idx: usize) -> (res: char)
    requires
        idx < encode_utf8(old(s)@).len(),
        is_char_boundary(encode_utf8(old(s)@), idx as int),
    ensures
        char_at_spec(encode_utf8(old(s)@), idx as int) == Some(res),
        encode_utf8(final(s)@) == encode_utf8(old(s)@).take(idx as int) + encode_utf8(
            old(s)@,
        ).skip(idx + width_at(encode_utf8(old(s)@), idx as int)),
{
    s.remove(idx)
}

/// `std::str::from_utf8`: the bytes as a string slice when they are valid UTF-8.
#[verifier::external_body]
pub(crate) fn str_from_utf8(b: &[u8]) -> (res: Option<&str>)
    ensures
        res is Some <==> valid_utf8(b@),
        res matches Some(s) ==> s@ == decode_utf8(b@),
{
    std::str::from_utf8(b).ok()
}

} // verus!
