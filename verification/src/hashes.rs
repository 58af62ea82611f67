//! Digests of ROM data: SHA-1 and CRC-32, computed by outside crates.
use vstd::prelude::*;
use sha1::{Digest, Sha1};

verus! {

/// The SHA-1 digest of a byte string.
pub uninterp spec fn sha1_of(data: Seq<u8>) -> Seq<u8>;

/// Calls `sha1::Sha1::digest`: the 20-byte SHA-1 digest of `data`, a function of the bytes alone.
#[verifier::external_body]
pub(crate) fn sha1_digest(data: &[u8]) -> (r: Vec<u8>)
    ensures
        r@ == sha1_of(data@),
        r@.len() == 20,
{
    Sha1::digest(data).to_vec()
}

/// The CRC-32 (IEEE) checksum of a byte string.
pub uninterp spec fn crc32_of(data: Seq<u8>) -> u32;

/// Calls `crc32fast::hash`: the CRC-32 of `data`, a function of the bytes alone.
#[verifier::external_body]
pub(crate) fn crc32(data: &[u8]) -> (r: u32)
    ensures
        r == crc32_of(data@),
{
    crc32fast::hash(data)
}

} // verus!
