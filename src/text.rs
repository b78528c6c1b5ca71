//! Calls into std for text, each with the contract that its documentation gives.
use vstd::prelude::*;
use vstd::utf8::{decode_utf8, is_scalar, valid_utf8};

verus! {

/// Relies on `std::str::from_utf8`: it accepts exactly the well-formed UTF-8
/// byte sequences and yields the characters that they encode.
#[verifier::external_body]
pub(crate) fn decode_span(s: &[u8], start: usize, end: usize) -> (r: Option<String>)
    requires
        start <= end <= s@.len(),
    ensures
        r is Some <==> valid_utf8(s@.subrange(start as int, end as int)),
        r matches Some(t) ==> t@ == decode_utf8(s@.subrange(start as int, end as int)),
{
    std::str::from_utf8(&s[start..end]).ok().map(|t| t.to_string())
}

/// Relies on `char::from_u32`: `Some` exactly for Unicode scalar values, holding
/// the character with that code.
#[verifier::external_body]
pub(crate) fn char_of(code: u32) -> (r: Option<char>)
    ensures
        r is Some <==> is_scalar(code),
        r matches Some(c) ==> c as u32 == code,
{
    char::from_u32(code)
}

/// Relies on `String::push`: appends one character.
#[verifier::external_body]
pub(crate) fn push_char(t: &mut String, c: char)
    ensures
        final(t)@ == old(t)@.push(c),
{
    t.push(c)
}

} // verus!
