use vstd::prelude::*;

verus! {

/// The little-endian 16-bit number in bytes `o` and `o + 1` of `b`.
pub open spec fn le_u16(b: Seq<u8>, o: int) -> int {
    b[o] + 256 * b[o + 1]
}

/// The little-endian 32-bit number in bytes `o` to `o + 3` of `b`.
pub open spec fn le_u32(b: Seq<u8>, o: int) -> int {
    le_u16(b, o) + 65536 * le_u16(b, o + 2)
}

/// Reads the little-endian 16-bit number at `o`.
pub fn read_u16(b: &[u8], o: usize) -> (r: u16)
    requires
        o + 2 <= b@.len(),
    ensures
        r == le_u16(b@, o as int),
{
    (b[o] as u16) + (b[o + 1] as u16) * 256
}

/// Reads the little-endian 32-bit number at `o`.
pub fn read_u32(b: &[u8], o: usize) -> (r: u32)
    requires
        o + 4 <= b@.len(),
    ensures
        r == le_u32(b@, o as int),
{
    let _len = b.len();
    (read_u16(b, o) as u32) + (read_u16(b, o + 2) as u32) * 65536
}

} // verus!
