//! Reading bytes as text.
use vstd::prelude::*;
use vstd::string::StringSliceAdditionalSpecFns;
use vstd::utf8::valid_utf8;

verus! {

/// The bytes as a string slice, where they are valid UTF-8.
///
/// Calls `core::str::from_utf8` and is believed, not proved: the call
/// succeeds exactly on well-formed UTF-8, and the string slice it yields
/// covers the very bytes it was given.
#[verifier::external_body]
pub(crate) fn text_of(bytes: &[u8]) -> (text: Option<&str>)
    ensures
        text is Some <==> valid_utf8(bytes@),
        text matches Some(s) ==> s.spec_bytes() == bytes@,
{
    match core::str::from_utf8(bytes) {
        Ok(s) => Some(s),
        Err(_) => None,
    }
}

} // verus!
