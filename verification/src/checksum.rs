//! The checksum that guards every record on disk.

use vstd::prelude::*;

verus! {

/// The CRC-32 (IEEE) checksum of `data`.
pub uninterp spec fn crc32(data: Seq<u8>) -> u32;

/// `crc32fast::hash` computes the CRC-32 checksum of a byte slice; the claim is that it depends
/// on the bytes alone. Nothing else of the checksum is stated.
pub assume_specification[ crc32fast::hash ](buf: &[u8]) -> (r: u32)
    ensures
        r == crc32(buf@),
;

} // verus!
