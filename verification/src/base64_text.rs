//! Base64 text, through the `base64` crate.

use vstd::prelude::*;

verus! {

/// The bytes that the standard base64 alphabet with padding decodes a text
/// to, or `None` for a text that is not base64.
pub uninterp spec fn base64_decoded(text: Seq<char>) -> Option<Seq<u8>>;

/// Calls `decode` of the `base64` crate's `general_purpose::STANDARD`
/// engine. The result depends on the text alone.
#[verifier::external_body]
pub(crate) fn base64_decode(text: &str) -> (out: Option<Vec<u8>>)
    ensures
        out matches Some(bytes) ==> base64_decoded(text@) == Some(bytes@),
        out is None ==> base64_decoded(text@) is None,
{
    match base64::Engine::decode(&base64::engine::general_purpose::STANDARD, text) {
        Ok(bytes) => Some(bytes),
        Err(_) => None,
    }
}

} // verus!
