//! SHA-256, as computed by the `sha2` crate.

use vstd::prelude::*;

verus! {

/// The SHA-256 digest of `data`, as `sha2::Sha256` computes it.
pub uninterp spec fn sha256_spec(data: Seq<u8>) -> Seq<u8>;

/// SHA-256 of `data` (`sha2::Sha256::digest`). Claimed: the 32 bytes are
/// `sha256_spec` of the input bytes; nothing further is stated of the hash.
#[verifier::external_body]
pub(crate) fn sha256(data: &[u8]) -> (res: [u8; 32])
    ensures
        res@ == sha256_spec(data@),
        res@.len() == 32,
{
    <sha2::Sha256 as sha2::Digest>::digest(data).into()
}

} // verus!
