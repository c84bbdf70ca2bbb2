//! SHA-256.
use vstd::prelude::*;

verus! {

/// What `sha2::Sha256::digest` gives for bytes.
pub uninterp spec fn digest_of(b: Seq<u8>) -> [u8; 32];

/// The SHA-256 digest of bytes.
pub open spec fn sha256(b: Seq<u8>) -> Seq<u8> {
    digest_of(b)@
}

/// `sha2::Sha256::digest`: the 32 bytes of the digest, under the name
/// [`digest_of`].
#[verifier::external_body]
pub(crate) fn digest(b: &[u8]) -> (r: [u8; 32])
    ensures
        r == digest_of(b@),
{
    <sha2::Sha256 as sha2::Digest>::digest(b).into()
}

/// SHA-256 of bytes.
#[must_use]
pub fn sha256_32(bytes: &[u8]) -> (r: [u8; 32])
    ensures
        r@ == sha256(bytes@),
{
    digest(bytes)
}

} // verus!
