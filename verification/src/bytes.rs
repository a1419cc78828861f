//! Little-endian integers read out of raw system buffers.
use vstd::prelude::*;

verus! {

/// Little-endian `u16` at byte offset `o`.
pub open spec fn le_u16(b: Seq<u8>, o: int) -> nat {
    (b[o] + b[o + 1] * 0x100) as nat
}

/// Little-endian `u32` at byte offset `o`.
pub open spec fn le_u32(b: Seq<u8>, o: int) -> nat {
    (b[o] + b[o + 1] * 0x100 + b[o + 2] * 0x10000 + b[o + 3] * 0x1000000) as nat
}

/// Little-endian `u64` at byte offset `o`.
pub open spec fn le_u64(b: Seq<u8>, o: int) -> nat {
    le_u32(b, o) + le_u32(b, o + 4) * 0x1_0000_0000
}

pub fn read_le_u16(b: &[u8], o: usize) -> (res: u16)
    requires
        o + 2 <= b.len(),
    ensures
        res as nat == le_u16(b@, o as int),
{
    b[o] as u16 + (b[o + 1] as u16) * 0x100
}

pub fn read_le_u32(b: &[u8], o: usize) -> (res: u32)
    requires
        o + 4 <= b.len(),
    ensures
        res as nat == le_u32(b@, o as int),
{
    b[o] as u32 + (b[o + 1] as u32) * 0x100 + (b[o + 2] as u32) * 0x10000 + (b[o + 3] as u32)
        * 0x1000000
}

pub fn read_le_u64(b: &[u8], o: usize) -> (res: u64)
    requires
        o + 8 <= b.len(),
    ensures
        res as nat == le_u64(b@, o as int),
{
    let lo = read_le_u32(b, o) as u64;
    let hi = read_le_u32(b, o + 4) as u64;
    lo + hi * 0x1_0000_0000
}

} // verus!
