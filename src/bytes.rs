use vstd::prelude::*;

verus! {

/// The little-endian `u16` stored at `b[o..o + 2]`.
pub open spec fn u16_le(b: Seq<u8>, o: int) -> u16 {
    (b[o] as u16) | ((b[o + 1] as u16) << 8u16)
}

/// The little-endian `u32` stored at `b[o..o + 4]`.
pub open spec fn u32_le(b: Seq<u8>, o: int) -> u32 {
    (b[o] as u32) | ((b[o + 1] as u32) << 8u32) | ((b[o + 2] as u32) << 16u32) | ((
    b[o + 3] as u32) << 24u32)
}

/// The little-endian `u64` stored at `b[o..o + 8]`.
pub open spec fn u64_le(b: Seq<u8>, o: int) -> u64 {
    (b[o] as u64) | ((b[o + 1] as u64) << 8u64) | ((b[o + 2] as u64) << 16u64) | ((
    b[o + 3] as u64) << 24u64) | ((b[o + 4] as u64) << 32u64) | ((b[o + 5] as u64) << 40u64)
        | ((b[o + 6] as u64) << 48u64) | ((b[o + 7] as u64) << 56u64)
}

pub fn read_u16_le(b: &[u8], o: usize) -> (r: u16)
    requires
        o + 2 <= b@.len(),
    ensures
        r == u16_le(b@, o as int),
{
    (b[o] as u16) | ((b[o + 1] as u16) << 8u16)
}

pub fn read_u32_le(b: &[u8], o: usize) -> (r: u32)
    requires
        o + 4 <= b@.len(),
    ensures
        r == u32_le(b@, o as int),
{
    (b[o] as u32) | ((b[o + 1] as u32) << 8u32) | ((b[o + 2] as u32) << 16u32) | ((
    b[o + 3] as u32) << 24u32)
}

pub fn read_u64_le(b: &[u8], o: usize) -> (r: u64)
    requires
        o + 8 <= b@.len(),
    ensures
        r == u64_le(b@, o as int),
{
    (b[o] as u64) | ((b[o + 1] as u64) << 8u64) | ((b[o + 2] as u64) << 16u64) | ((
    b[o + 3] as u64) << 24u64) | ((b[o + 4] as u64) << 32u64) | ((b[o + 5] as u64) << 40u64)
        | ((b[o + 6] as u64) << 48u64) | ((b[o + 7] as u64) << 56u64)
}

} // verus!
