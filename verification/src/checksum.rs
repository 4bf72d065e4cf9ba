//! The CRC-32 checksum that protects segment and manifest files.

use vstd::prelude::*;

verus! {

/// The CRC-32 (IEEE polynomial) checksum of `bytes`, as `crc32fast::hash`
/// computes it.
pub uninterp spec fn crc32(bytes: Seq<u8>) -> u32;

/// Computes the checksum of `bytes` with `crc32fast::hash`. The contract
/// claims only that the result is the checksum of exactly these bytes; the
/// checksum algorithm itself is not stated here.
#[verifier::external_body]
pub(crate) fn checksum(bytes: &[u8]) -> (value: u32)
    ensures
        value == crc32(bytes@),
{
    crc32fast::hash(bytes)
}

} // verus!
