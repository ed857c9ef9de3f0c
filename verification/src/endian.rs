//! Little-endian encoding of the 32-bit integer fields of a record.

use byteorder::{ByteOrder, LittleEndian};
use vstd::prelude::*;

verus! {

/// The number that the first four bytes of `bytes` spell in little-endian
/// order: the first byte is the least significant.
pub open spec fn u32_from_le(bytes: Seq<u8>) -> u32
    recommends
        bytes.len() >= 4,
{
    (bytes[0] as int + 0x100 * (bytes[1] as int) + 0x1_0000 * (bytes[2] as int) + 0x100_0000 * (
    bytes[3] as int)) as u32
}

/// The four bytes that spell `n` in little-endian order.
pub open spec fn u32_to_le(n: u32) -> Seq<u8> {
    seq![
        (n % 0x100) as u8,
        (n / 0x100 % 0x100) as u8,
        (n / 0x1_0000 % 0x100) as u8,
        (n / 0x100_0000) as u8,
    ]
}

/// Writing a number and reading the four bytes back gives the number again.
pub proof fn lemma_u32_le_round_trip(n: u32)
    ensures
        u32_to_le(n).len() == 4,
        u32_from_le(u32_to_le(n)) == n,
{
}

/// Reading four bytes and writing the number back gives the same four bytes.
pub proof fn lemma_u32_le_bytes_round_trip(bytes: Seq<u8>)
    requires
        bytes.len() >= 4,
    ensures
        u32_to_le(u32_from_le(bytes)) == bytes.subrange(0, 4),
{
    assert(u32_to_le(u32_from_le(bytes)) =~= bytes.subrange(0, 4));
}

/// Calls `byteorder::LittleEndian::read_u32`, which panics on fewer than four
/// bytes and otherwise returns the little-endian value of the first four.
#[verifier::external_body]
pub(crate) fn read_u32_le(bytes: &[u8]) -> (n: u32)
    requires
        bytes@.len() >= 4,
    ensures
        n == u32_from_le(bytes@),
{
    LittleEndian::read_u32(bytes)
}

/// Calls `byteorder::LittleEndian::write_u32` on a four-byte buffer, which it
/// fills with the little-endian bytes of `n`.
#[verifier::external_body]
pub(crate) fn write_u32_le(n: u32) -> (bytes: [u8; 4])
    ensures
        bytes@ == u32_to_le(n),
{
    let mut bytes: [u8; 4] = [0u8; 4];
    LittleEndian::write_u32(&mut bytes, n);
    bytes
}

} // verus!
