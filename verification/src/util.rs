//! One byte's worth of polynomial division for each register width: eight
//! explicit division steps, the semantic reference for every lookup table
//! and for the no-table update strategy.
use vstd::prelude::*;

verus! {

/// Eight polynomial-division steps over a 8-bit register. `poly` is
/// already in register form (reflected or shifted to the top); in the
/// natural direction the value is first moved to the top byte.
pub fn crc8(poly: u8, reflect: bool, value: u8) -> (r: u8)
    ensures
        r == crate::crc8::crc8_spec(poly, reflect, value),
{
    if reflect {
        let mut v = value;
        v = if v & 1 == 1 { (v >> 1) ^ poly } else { v >> 1 };
        v = if v & 1 == 1 { (v >> 1) ^ poly } else { v >> 1 };
        v = if v & 1 == 1 { (v >> 1) ^ poly } else { v >> 1 };
        v = if v & 1 == 1 { (v >> 1) ^ poly } else { v >> 1 };
        v = if v & 1 == 1 { (v >> 1) ^ poly } else { v >> 1 };
        v = if v & 1 == 1 { (v >> 1) ^ poly } else { v >> 1 };
        v = if v & 1 == 1 { (v >> 1) ^ poly } else { v >> 1 };
        v = if v & 1 == 1 { (v >> 1) ^ poly } else { v >> 1 };
        v
    } else {
        let mut v = value;
        v = if (v >> 7) & 1 == 1 { (v << 1) ^ poly } else { v << 1 };
        v = if (v >> 7) & 1 == 1 { (v << 1) ^ poly } else { v << 1 };
        v = if (v >> 7) & 1 == 1 { (v << 1) ^ poly } else { v << 1 };
        v = if (v >> 7) & 1 == 1 { (v << 1) ^ poly } else { v << 1 };
        v = if (v >> 7) & 1 == 1 { (v << 1) ^ poly } else { v << 1 };
        v = if (v >> 7) & 1 == 1 { (v << 1) ^ poly } else { v << 1 };
        v = if (v >> 7) & 1 == 1 { (v << 1) ^ poly } else { v << 1 };
        v = if (v >> 7) & 1 == 1 { (v << 1) ^ poly } else { v << 1 };
        v
    }
}

/// Eight polynomial-division steps over a 16-bit register. `poly` is
/// already in register form (reflected or shifted to the top); in the
/// natural direction the value is first moved to the top byte.
pub fn crc16(poly: u16, reflect: bool, value: u16) -> (r: u16)
    ensures
        r == crate::crc16::crc16_spec(poly, reflect, value),
{
    if reflect {
        let mut v = value;
        v = if v & 1 == 1 { (v >> 1) ^ poly } else { v >> 1 };
        v = if v & 1 == 1 { (v >> 1) ^ poly } else { v >> 1 };
        v = if v & 1 == 1 { (v >> 1) ^ poly } else { v >> 1 };
        v = if v & 1 == 1 { (v >> 1) ^ poly } else { v >> 1 };
        v = if v & 1 == 1 { (v >> 1) ^ poly } else { v >> 1 };
        v = if v & 1 == 1 { (v >> 1) ^ poly } else { v >> 1 };
        v = if v & 1 == 1 { (v >> 1) ^ poly } else { v >> 1 };
        v = if v & 1 == 1 { (v >> 1) ^ poly } else { v >> 1 };
        v
    } else {
        let mut v = value << 8;
        v = if (v >> 15) & 1 == 1 { (v << 1) ^ poly } else { v << 1 };
        v = if (v >> 15) & 1 == 1 { (v << 1) ^ poly } else { v << 1 };
        v = if (v >> 15) & 1 == 1 { (v << 1) ^ poly } else { v << 1 };
        v = if (v >> 15) & 1 == 1 { (v << 1) ^ poly } else { v << 1 };
        v = if (v >> 15) & 1 == 1 { (v << 1) ^ poly } else { v << 1 };
        v = if (v >> 15) & 1 == 1 { (v << 1) ^ poly } else { v << 1 };
        v = if (v >> 15) & 1 == 1 { (v << 1) ^ poly } else { v << 1 };
        v = if (v >> 15) & 1 == 1 { (v << 1) ^ poly } else { v << 1 };
        v
    }
}

/// Eight polynomial-division steps over a 32-bit register. `poly` is
/// already in register form (reflected or shifted to the top); in the
/// natural direction the value is first moved to the top byte.
pub fn crc32(poly: u32, reflect: bool, value: u32) -> (r: u32)
    ensures
        r == crate::crc32::crc32_spec(poly, reflect, value),
{
    if reflect {
        let mut v = value;
        v = if v & 1 == 1 { (v >> 1) ^ poly } else { v >> 1 };
        v = if v & 1 == 1 { (v >> 1) ^ poly } else { v >> 1 };
        v = if v & 1 == 1 { (v >> 1) ^ poly } else { v >> 1 };
        v = if v & 1 == 1 { (v >> 1) ^ poly } else { v >> 1 };
        v = if v & 1 == 1 { (v >> 1) ^ poly } else { v >> 1 };
        v = if v & 1 == 1 { (v >> 1) ^ poly } else { v >> 1 };
        v = if v & 1 == 1 { (v >> 1) ^ poly } else { v >> 1 };
        v = if v & 1 == 1 { (v >> 1) ^ poly } else { v >> 1 };
        v
    } else {
        let mut v = value << 24;
        v = if (v >> 31) & 1 == 1 { (v << 1) ^ poly } else { v << 1 };
        v = if (v >> 31) & 1 == 1 { (v << 1) ^ poly } else { v << 1 };
        v = if (v >> 31) & 1 == 1 { (v << 1) ^ poly } else { v << 1 };
        v = if (v >> 31) & 1 == 1 { (v << 1) ^ poly } else { v << 1 };
        v = if (v >> 31) & 1 == 1 { (v << 1) ^ poly } else { v << 1 };
        v = if (v >> 31) & 1 == 1 { (v << 1) ^ poly } else { v << 1 };
        v = if (v >> 31) & 1 == 1 { (v << 1) ^ poly } else { v << 1 };
        v = if (v >> 31) & 1 == 1 { (v << 1) ^ poly } else { v << 1 };
        v
    }
}

/// Eight polynomial-division steps over a 64-bit register. `poly` is
/// already in register form (reflected or shifted to the top); in the
/// natural direction the value is first moved to the top byte.
pub fn crc64(poly: u64, reflect: bool, value: u64) -> (r: u64)
    ensures
        r == crate::crc64::crc64_spec(poly, reflect, value),
{
    if reflect {
        let mut v = value;
        v = if v & 1 == 1 { (v >> 1) ^ poly } else { v >> 1 };
        v = if v & 1 == 1 { (v >> 1) ^ poly } else { v >> 1 };
        v = if v & 1 == 1 { (v >> 1) ^ poly } else { v >> 1 };
        v = if v & 1 == 1 { (v >> 1) ^ poly } else { v >> 1 };
        v = if v & 1 == 1 { (v >> 1) ^ poly } else { v >> 1 };
        v = if v & 1 == 1 { (v >> 1) ^ poly } else { v >> 1 };
        v = if v & 1 == 1 { (v >> 1) ^ poly } else { v >> 1 };
        v = if v & 1 == 1 { (v >> 1) ^ poly } else { v >> 1 };
        v
    } else {
        let mut v = value << 56;
        v = if (v >> 63) & 1 == 1 { (v << 1) ^ poly } else { v << 1 };
        v = if (v >> 63) & 1 == 1 { (v << 1) ^ poly } else { v << 1 };
        v = if (v >> 63) & 1 == 1 { (v << 1) ^ poly } else { v << 1 };
        v = if (v >> 63) & 1 == 1 { (v << 1) ^ poly } else { v << 1 };
        v = if (v >> 63) & 1 == 1 { (v << 1) ^ poly } else { v << 1 };
        v = if (v >> 63) & 1 == 1 { (v << 1) ^ poly } else { v << 1 };
        v = if (v >> 63) & 1 == 1 { (v << 1) ^ poly } else { v << 1 };
        v = if (v >> 63) & 1 == 1 { (v << 1) ^ poly } else { v << 1 };
        v
    }
}

/// Eight polynomial-division steps over a 128-bit register. `poly` is
/// already in register form (reflected or shifted to the top); in the
/// natural direction the value is first moved to the top byte.
pub fn crc128(poly: u128, reflect: bool, value: u128) -> (r: u128)
    ensures
        r == crate::crc128::crc128_spec(poly, reflect, value),
{
    if reflect {
        let mut v = value;
        v = if v & 1 == 1 { (v >> 1) ^ poly } else { v >> 1 };
        v = if v & 1 == 1 { (v >> 1) ^ poly } else { v >> 1 };
        v = if v & 1 == 1 { (v >> 1) ^ poly } else { v >> 1 };
        v = if v & 1 == 1 { (v >> 1) ^ poly } else { v >> 1 };
        v = if v & 1 == 1 { (v >> 1) ^ poly } else { v >> 1 };
        v = if v & 1 == 1 { (v >> 1) ^ poly } else { v >> 1 };
        v = if v & 1 == 1 { (v >> 1) ^ poly } else { v >> 1 };
        v = if v & 1 == 1 { (v >> 1) ^ poly } else { v >> 1 };
        v
    } else {
        let mut v = value << 120;
        v = if (v >> 127) & 1 == 1 { (v << 1) ^ poly } else { v << 1 };
        v = if (v >> 127) & 1 == 1 { (v << 1) ^ poly } else { v << 1 };
        v = if (v >> 127) & 1 == 1 { (v << 1) ^ poly } else { v << 1 };
        v = if (v >> 127) & 1 == 1 { (v << 1) ^ poly } else { v << 1 };
        v = if (v >> 127) & 1 == 1 { (v << 1) ^ poly } else { v << 1 };
        v = if (v >> 127) & 1 == 1 { (v << 1) ^ poly } else { v << 1 };
        v = if (v >> 127) & 1 == 1 { (v << 1) ^ poly } else { v << 1 };
        v = if (v >> 127) & 1 == 1 { (v << 1) ^ poly } else { v << 1 };
        v
    }
}

} // verus!
