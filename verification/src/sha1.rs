//! SHA-1 digests, computed by the `sha1` crate.

use vstd::prelude::*;

verus! {

/// The SHA-1 digest of a byte string, as the `sha1` crate computes it.
pub uninterp spec fn sha1_digest(bytes: Seq<u8>) -> Seq<u8>;

/// Calls `sha1::Sha1::digest` (the `Digest` trait's one-shot function) on
/// `bytes` and copies the 20 bytes it returns into an array. Trusted: the
/// result is the digest of exactly these bytes, and the same bytes always
/// give the same digest.
#[verifier::external_body]
pub fn hash(bytes: &[u8]) -> (digest: [u8; 20])
    ensures
        digest@ == sha1_digest(bytes@),
{
    <::sha1::Sha1 as ::sha1::Digest>::digest(bytes).into()
}

} // verus!
