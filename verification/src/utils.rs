//! Big-endian integer reads used throughout the codec.

use vstd::prelude::*;

verus! {

/// The 16-bit big-endian value formed by two bytes.
pub open spec fn spec_u16_be(hi: u8, lo: u8) -> u16 {
    (hi * 256 + lo) as u16
}

/// The 32-bit value formed by four big-endian bytes, reinterpreted as `i32`.
pub open spec fn spec_i32_be(b0: u8, b1: u8, b2: u8, b3: u8) -> i32 {
    ((b0 * 0x1000000 + b1 * 0x10000 + b2 * 0x100 + b3) as u32) as i32
}

/// Reads the 16-bit big-endian integer at position `i` of `bytes`.
pub fn double_u8_to_u16(bytes: &[u8], i: usize) -> (r: u16)
    requires
        i + 1 < bytes@.len(),
    ensures
        r == spec_u16_be(bytes@[i as int], bytes@[i + 1]),
{
    bytes[i] as u16 * 256 + bytes[i + 1] as u16
}

/// Reads the 32-bit big-endian integer at position `i` of `bytes` as an `i32`.
pub fn bytes_to_i32(bytes: &[u8], i: usize) -> (r: i32)
    requires
        i + 3 < bytes@.len(),
    ensures
        r == spec_i32_be(bytes@[i as int], bytes@[i + 1], bytes@[i + 2], bytes@[i + 3]),
{
    let b0 = bytes[i];
    let b1 = bytes[i + 1];
    let b2 = bytes[i + 2];
    let b3 = bytes[i + 3];
    let v: u32 = b0 as u32 * 0x1000000 + b1 as u32 * 0x10000 + b2 as u32 * 0x100 + b3 as u32;
    v as i32
}

} // verus!
