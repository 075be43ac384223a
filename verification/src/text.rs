//! The one string conversion the standard library is trusted for.

use vstd::prelude::*;

verus! {

/// Relies on String::from_utf8: it accepts exactly the valid UTF-8 byte
/// strings and returns the string those bytes spell.
#[verifier::external_body]
pub(crate) fn string_from_utf8(b: &Vec<u8>) -> (r: Option<String>)
    ensures
        match r {
            Some(s) => vstd::utf8::valid_utf8(b@) && s@ == vstd::utf8::decode_utf8(b@),
            None => !vstd::utf8::valid_utf8(b@),
        },
{
    String::from_utf8(b.clone()).ok()
}

} // verus!
