//! SHA-256 digests and the 32-bit checksums taken from them.
use crate::bytes::{le_value, read_le};
use vstd::prelude::*;

verus! {

/// The SHA-256 digest of a byte sequence.
pub uninterp spec fn spec_sha256(data: Seq<u8>) -> Seq<u8>;

/// `sha2::Sha256::digest`: the 32-byte SHA-256 digest of `data`.
#[verifier::external_body]
pub(crate) fn sha256(data: &[u8]) -> (r: Vec<u8>)
    ensures
        r@ == spec_sha256(data@),
        r@.len() == 32,
{
    <sha2::Sha256 as sha2::Digest>::digest(data).to_vec()
}

/// The checksum of a segment or frame: the first four digest bytes read as a
/// little-endian `u32`.
pub open spec fn spec_checksum32(data: Seq<u8>) -> u32 {
    le_value(spec_sha256(data).subrange(0, 4)) as u32
}

/// Computes the 32-bit checksum of `data`.
pub fn checksum32(data: &[u8]) -> (r: u32)
    ensures
        r == spec_checksum32(data@),
{
    let d = sha256(data);
    let v = read_le(d.as_slice(), 0, 4);
    proof {
        crate::bytes::lemma_le_value_bound(d@.subrange(0, 4));
        crate::bytes::lemma_pow256_values();
    }
    v as u32
}

} // verus!
