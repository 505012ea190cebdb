//! Integrity checksums, computed by an outside crate.

use vstd::prelude::*;

verus! {

/// The CRC-32 checksum of a byte sequence, as `crc32fast::hash` computes it.
/// The checksum is a function of the bytes alone.
pub uninterp spec fn crc32_of(data: Seq<u8>) -> u32;

/// Relies on `crc32fast::hash`: the checksum depends on the input bytes
/// alone.
#[verifier::external_body]
pub(crate) fn crc32_hash(data: &[u8]) -> (r: u32)
    ensures
        r == crc32_of(data@),
{
    crc32fast::hash(data)
}

} // verus!
