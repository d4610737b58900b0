//! The two checksums that an archive records of every body: CRC-32 and
//! SHA-256.

use sha2::Digest;
use vstd::prelude::*;
use crate::bytes::bytes_equal;

verus! {

/// The CRC-32 (IEEE) of `data`, as `crc32fast::hash` computes it.
pub uninterp spec fn crc32_of(data: Seq<u8>) -> u32;

/// The SHA-256 digest of `data`, as `sha2::Sha256::digest` computes it.
pub uninterp spec fn sha256_of(data: Seq<u8>) -> Seq<u8>;

/// Calls `crc32fast::hash`. Claimed of it: the result is a function of the
/// bytes alone.
#[verifier::external_body]
fn crc32fast_hash(data: &[u8]) -> (r: u32)
    ensures
        r == crc32_of(data@),
{
    crc32fast::hash(data)
}

/// Calls `sha2::Sha256::digest` and copies the digest into a vector. Claimed of
/// it: the result is a function of the bytes alone.
#[verifier::external_body]
fn sha256_digest(data: &[u8]) -> (r: Vec<u8>)
    ensures
        r@ == sha256_of(data@),
{
    sha2::Sha256::digest(data).to_vec()
}

/// The two checksums of one sequence of bytes.
#[derive(Clone, Debug, PartialEq, Eq)]
pub struct Checksums {
    pub crc32: u32,
    pub sha256: Vec<u8>,
}

impl Checksums {
    /// These are the checksums of `data`.
    pub open spec fn of(&self, data: Seq<u8>) -> bool {
        &&& self.crc32 == crc32_of(data)
        &&& self.sha256@ == sha256_of(data)
    }
}

/// The CRC-32 and the SHA-256 of `data`.
pub fn checksums(data: &[u8]) -> (r: Checksums)
    ensures
        r.of(data@),
{
    Checksums { crc32: crc32fast_hash(data), sha256: sha256_digest(data) }
}

/// Whether `data` has the checksums `crc32` and `sha256`.
pub fn matches_checksums(data: &[u8], crc32: u32, sha256: &Vec<u8>) -> (b: bool)
    ensures
        b == (crc32 == crc32_of(data@) && sha256@ == sha256_of(data@)),
{
    let found = checksums(data);
    found.crc32 == crc32 && bytes_equal(found.sha256.as_slice(), sha256.as_slice())
}

} // verus!
