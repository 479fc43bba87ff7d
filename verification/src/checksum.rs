//! CRC-32 checksums, computed by the `crc32fast` crate.

use vstd::prelude::*;

verus! {

/// The CRC-32 (IEEE) checksum of a byte string, as `crc32fast::hash` computes it.
pub uninterp spec fn crc32_ieee(bytes: Seq<u8>) -> u32;

/// Calls `crc32fast::hash`. Trusted: the result is the CRC-32 (IEEE) checksum of
/// `bytes`, a function of the bytes alone.
#[verifier::external_body]
pub(crate) fn crc32(bytes: &[u8]) -> (checksum: u32)
    ensures
        checksum == crc32_ieee(bytes@),
{
    crc32fast::hash(bytes)
}

} // verus!
