//! Bytes as text.

use vstd::prelude::*;
use vstd::utf8::{decode_utf8, valid_utf8};

verus! {

/// Decodes `bytes` as UTF-8 by `String::from_utf8`.
///
/// Believed of the standard library, not proved: the call succeeds exactly
/// on well-formed UTF-8, and the string it then returns holds the characters
/// that the bytes encode.
#[verifier::external_body]
pub(crate) fn decode_text(bytes: Vec<u8>) -> (r: Option<String>)
    ensures
        r is Some <==> valid_utf8(bytes@),
        r matches Some(text) ==> text@ == decode_utf8(bytes@),
{
    match String::from_utf8(bytes) {
        Ok(text) => Some(text),
        Err(_) => None,
    }
}

} // verus!
