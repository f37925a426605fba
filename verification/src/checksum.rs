//! The checksum over meta pages and log records.

use vstd::prelude::*;

verus! {

/// One bit of a CRC-32C: the polynomial of Castagnoli, lowest bit first.
pub open spec fn crc_bit(c: u32) -> u32 {
    if c & 1 == 1 {
        (c >> 1) ^ 0x82F6_3B78
    } else {
        c >> 1
    }
}

/// Eight bits of a CRC-32C.
pub open spec fn crc_byte(c: u32) -> u32 {
    crc_bit(crc_bit(crc_bit(crc_bit(crc_bit(crc_bit(crc_bit(crc_bit(c))))))))
}

/// The remainder after the bytes of `data`, from that of no bytes on.
pub open spec fn crc_remainder(data: Seq<u8>) -> u32
    decreases data.len(),
{
    if data.len() == 0 {
        u32::MAX
    } else {
        crc_byte(crc_remainder(data.drop_last()) ^ data.last() as u32)
    }
}

/// The CRC-32C of a byte string.
#[verifier::opaque]
pub open spec fn crc32c_of(data: Seq<u8>) -> u32 {
    !crc_remainder(data)
}

/// Calls `crc32c::crc32c`, which gives the CRC-32C of the bytes: the remainder
/// that starts with all bits set, takes the bytes one after the other, lowest
/// bit first, and is inverted at the end.
#[verifier::external_body]
pub(crate) fn crc32c(data: &[u8]) -> (r: u32)
    ensures
        r == crc32c_of(data@),
{
    crc32c::crc32c(data)
}

} // verus!
