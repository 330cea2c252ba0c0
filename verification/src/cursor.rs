//! Little-endian primitive reads and writes over byte buffers.

use vstd::prelude::*;

verus! {

/// The value of two bytes read as a little-endian 16-bit integer.
pub open spec fn spec_u16_le(b0: u8, b1: u8) -> u16 {
    (b0 + b1 * 256) as u16
}

/// The value of four bytes read as a little-endian 32-bit integer.
pub open spec fn spec_u32_le(b0: u8, b1: u8, b2: u8, b3: u8) -> u32 {
    (b0 + b1 * 0x100 + b2 * 0x1_0000 + b3 * 0x100_0000) as u32
}

/// Reads the little-endian `u16` stored at `offset`.
pub fn read_u16_le(data: &[u8], offset: usize) -> (r: u16)
    requires
        offset + 2 <= data@.len(),
    ensures
        r == spec_u16_le(data@[offset as int], data@[offset + 1]),
{
    let b0 = data[offset];
    let b1 = data[offset + 1];
    assert(b0 + b1 * 256 <= 0xffff);
    b0 as u16 + (b1 as u16) * 256
}

/// Reads the little-endian `u32` stored at `offset`.
pub fn read_u32_le(data: &[u8], offset: usize) -> (r: u32)
    requires
        offset + 4 <= data@.len(),
    ensures
        r == spec_u32_le(
            data@[offset as int],
            data@[offset + 1],
            data@[offset + 2],
            data@[offset + 3],
        ),
{
    let b0 = data[offset] as u32;
    let b1 = data[offset + 1] as u32;
    let b2 = data[offset + 2] as u32;
    let b3 = data[offset + 3] as u32;
    b0 + b1 * 0x100 + b2 * 0x1_0000 + b3 * 0x100_0000
}

/// The two bytes of `x` in little-endian order.
pub open spec fn spec_le16(x: u16) -> Seq<u8> {
    seq![(x % 256) as u8, (x / 256) as u8]
}

/// Appends `x` to `out` as two little-endian bytes.
pub fn push_u16_le(out: &mut Vec<u8>, x: u16)
    ensures
        final(out)@ == old(out)@ + spec_le16(x),
{
    out.push((x % 256) as u8);
    out.push((x / 256) as u8);
    assert(out@ =~= old(out)@ + spec_le16(x));
}

/// Reassembling the two little-endian bytes of a value gives the value back.
pub proof fn lemma_le16_round_trip(x: u16)
    ensures
        spec_u16_le(spec_le16(x)[0], spec_le16(x)[1]) == x,
{
}

} // verus!
