//! UTF-8 checks and conversions taken from the standard library.

use vstd::prelude::*;
use vstd::utf8::*;

verus! {

/// Whether `bytes` is valid UTF-8.
///
/// Calls `core::str::from_utf8`; its documentation says it fails exactly on
/// bytes that are not valid UTF-8, which is what `valid_utf8` of vstd states.
#[verifier::external_body]
pub(crate) fn utf8_valid(bytes: &[u8]) -> (r: bool)
    ensures
        r == valid_utf8(bytes@),
{
    core::str::from_utf8(bytes).is_ok()
}

/// The text that `bytes` encode, when they are valid UTF-8.
///
/// Calls `String::from_utf8`; its documentation says it returns the string
/// whose bytes are `bytes` when they are valid UTF-8 and an error otherwise.
/// The contract states the decoded characters with vstd's `decode_utf8`.
#[verifier::external_body]
pub(crate) fn string_from_utf8(bytes: Vec<u8>) -> (r: Option<String>)
    ensures
        r is Some <==> valid_utf8(bytes@),
        r matches Some(s) ==> s@ == decode_utf8(bytes@),
{
    String::from_utf8(bytes).ok()
}

} // verus!
