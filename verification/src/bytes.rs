//! Little-endian integers in a run of bytes.
use vstd::prelude::*;

verus! {

/// The 16-bit integer at `at`.
pub open spec fn le_u16(bytes: Seq<u8>, at: int) -> u16 {
    (bytes[at] + 0x100 * bytes[at + 1]) as u16
}

/// The 32-bit integer at `at`.
pub open spec fn le_u32(bytes: Seq<u8>, at: int) -> u32 {
    (le_u16(bytes, at) + 0x1_0000 * le_u16(bytes, at + 2)) as u32
}

/// The 64-bit integer at `at`.
pub open spec fn le_u64(bytes: Seq<u8>, at: int) -> u64 {
    (le_u32(bytes, at) + 0x1_0000_0000 * le_u32(bytes, at + 4)) as u64
}

/// The two's complement reading of 32 bits.
pub open spec fn as_signed(raw: u32) -> i32 {
    if raw < 0x8000_0000 {
        raw as i32
    } else {
        (raw - 0x1_0000_0000) as i32
    }
}

/// Reads the 16-bit integer at `at`.
pub fn read_le_u16(bytes: &Vec<u8>, at: usize) -> (value: u16)
    requires
        at + 2 <= bytes.len(),
    ensures
        value == le_u16(bytes@, at as int),
{
    bytes[at] as u16 + 0x100 * bytes[at + 1] as u16
}

/// Reads the 32-bit integer at `at`.
pub fn read_le_u32(bytes: &Vec<u8>, at: usize) -> (value: u32)
    requires
        at + 4 <= bytes.len(),
    ensures
        value == le_u32(bytes@, at as int),
{
    read_le_u16(bytes, at) as u32 + 0x1_0000 * read_le_u16(bytes, at + 2) as u32
}

/// Reads the 64-bit integer at `at`.
pub fn read_le_u64(bytes: &Vec<u8>, at: usize) -> (value: u64)
    requires
        at + 8 <= bytes.len(),
    ensures
        value == le_u64(bytes@, at as int),
{
    read_le_u32(bytes, at) as u64 + 0x1_0000_0000 * read_le_u32(bytes, at + 4) as u64
}

/// Reads 32 bits as a two's complement integer.
pub fn to_signed(raw: u32) -> (value: i32)
    ensures
        value == as_signed(raw),
{
    if raw < 0x8000_0000 {
        raw as i32
    } else {
        (raw as i64 - 0x1_0000_0000) as i32
    }
}

} // verus!
