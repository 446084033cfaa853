use vstd::prelude::*;

use vstd::utf8::{decode_utf8, valid_utf8};

verus! {

/// What `String::from_utf16` decodes a sequence of UTF-16 code units to: a
/// function of the units alone, `None` where they are not valid UTF-16.
pub uninterp spec fn utf16_chars(units: Seq<u16>) -> Option<Seq<char>>;

/// Relies on `String::from_utf8`: it succeeds exactly on valid UTF-8 and
/// returns the string those bytes encode.
#[verifier::external_body]
pub fn utf8_to_string(b: Vec<u8>) -> (r: Option<String>)
    ensures
        r is Some <==> valid_utf8(b@),
        r matches Some(s) ==> s@ == decode_utf8(b@),
{
    String::from_utf8(b).ok()
}

/// Relies on `String::from_utf16`: the result depends on the code units
/// alone, and it fails exactly where they are not valid UTF-16.
#[verifier::external_body]
pub fn utf16_to_string(u: &Vec<u16>) -> (r: Option<String>)
    ensures
        match utf16_chars(u@) {
            Some(cs) => r matches Some(s) && s@ == cs,
            None => r is None,
        },
{
    String::from_utf16(u.as_slice()).ok()
}

} // verus!
