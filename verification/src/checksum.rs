//! The checksum that guards each record.

use crc::{Crc, CRC_32_ISO_HDLC};
use vstd::prelude::*;

verus! {

/// The CRC-32/ISO-HDLC checksum of `data`, as the `crc` crate computes it.
pub uninterp spec fn crc32(data: Seq<u8>) -> u32;

/// Calls `crc::Crc::<u32>::checksum` with the `CRC_32_ISO_HDLC` algorithm.
/// The result depends on the bytes alone and is given the name `crc32`.
#[verifier::external_body]
pub(crate) fn checksum(data: &[u8]) -> (sum: u32)
    ensures
        sum == crc32(data@),
{
    Crc::<u32>::new(&CRC_32_ISO_HDLC).checksum(data)
}

} // verus!
