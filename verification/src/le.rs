//! Little-endian integer access on byte sequences.

use vstd::prelude::*;

verus! {

/// The unsigned 16-bit little-endian value stored at `off`.
pub open spec fn le_u16(s: Seq<u8>, off: int) -> int {
    s[off] + 256 * s[off + 1]
}

/// The unsigned 32-bit little-endian value stored at `off`.
pub open spec fn le_u32(s: Seq<u8>, off: int) -> int {
    s[off] + 256 * s[off + 1] + 65536 * s[off + 2] + 16777216 * s[off + 3]
}

/// The two little-endian bytes of `v`.
pub open spec fn le_bytes_u16(v: u16) -> Seq<u8> {
    seq![(v % 256) as u8, (v / 256) as u8]
}

/// The four little-endian bytes of `v`.
pub open spec fn le_bytes_u32(v: u32) -> Seq<u8> {
    seq![(v % 256) as u8, ((v / 256) % 256) as u8, ((v / 65536) % 256) as u8, (v / 16777216) as u8]
}

/// Reads a little-endian `u16` at `offset`, or `None` when the two bytes are
/// not all inside `bytes`.
pub fn read_u16(bytes: &[u8], offset: usize) -> (r: Option<u16>)
    ensures
        match r {
            Some(v) => offset + 2 <= bytes@.len() && v == le_u16(bytes@, offset as int),
            None => offset + 2 > bytes@.len(),
        },
{
    if offset < bytes.len() && bytes.len() - offset >= 2 {
        let low = bytes[offset] as u16;
        let high = bytes[offset + 1] as u16;
        Some(low + 256 * high)
    } else {
        None
    }
}

/// Reads a little-endian `u32` at `offset`, or `None` when the four bytes
/// are not all inside `bytes`.
pub fn read_u32(bytes: &[u8], offset: usize) -> (r: Option<u32>)
    ensures
        match r {
            Some(v) => offset + 4 <= bytes@.len() && v == le_u32(bytes@, offset as int),
            None => offset + 4 > bytes@.len(),
        },
{
    if offset < bytes.len() && bytes.len() - offset >= 4 {
        let b0 = bytes[offset] as u32;
        let b1 = bytes[offset + 1] as u32;
        let b2 = bytes[offset + 2] as u32;
        let b3 = bytes[offset + 3] as u32;
        Some(b0 + 256 * b1 + 65536 * b2 + 16777216 * b3)
    } else {
        None
    }
}

/// Reads the byte at `offset`, or `None` past the end.
pub fn read_u8(bytes: &[u8], offset: usize) -> (r: Option<u8>)
    ensures
        match r {
            Some(v) => offset < bytes@.len() && v == bytes@[offset as int],
            None => offset >= bytes@.len(),
        },
{
    if offset < bytes.len() {
        Some(bytes[offset])
    } else {
        None
    }
}

/// Appends the little-endian bytes of `v`.
pub fn push_u16(out: &mut Vec<u8>, v: u16)
    ensures
        final(out)@ == old(out)@ + le_bytes_u16(v),
{
    out.push((v % 256) as u8);
    out.push((v / 256) as u8);
}

/// Appends the little-endian bytes of `v`.
pub fn push_u32(out: &mut Vec<u8>, v: u32)
    ensures
        final(out)@ == old(out)@ + le_bytes_u32(v),
{
    out.push((v % 256) as u8);
    out.push(((v / 256) % 256) as u8);
    out.push(((v / 65536) % 256) as u8);
    out.push((v / 16777216) as u8);
}

/// Reading back the bytes written for a `u16` gives the value again.
pub proof fn lemma_le_u16_roundtrip(s: Seq<u8>, off: int, v: u16)
    requires
        0 <= off,
        off + 2 <= s.len(),
        s.subrange(off, off + 2) == le_bytes_u16(v),
    ensures
        le_u16(s, off) == v,
{
    assert(s[off] == le_bytes_u16(v)[0]);
    assert(s[off + 1] == le_bytes_u16(v)[1]);
}

/// Reading back the bytes written for a `u32` gives the value again.
pub proof fn lemma_le_u32_roundtrip(s: Seq<u8>, off: int, v: u32)
    requires
        0 <= off,
        off + 4 <= s.len(),
        s.subrange(off, off + 4) == le_bytes_u32(v),
    ensures
        le_u32(s, off) == v,
{
    assert(s[off] == le_bytes_u32(v)[0]);
    assert(s[off + 1] == le_bytes_u32(v)[1]);
    assert(s[off + 2] == le_bytes_u32(v)[2]);
    assert(s[off + 3] == le_bytes_u32(v)[3]);
}

} // verus!
