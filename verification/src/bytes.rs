//! Little-endian field access on byte buffers.
use vstd::prelude::*;

verus! {

/// The little-endian value of the two bytes at `off`.
pub open spec fn le16(b: Seq<u8>, off: int) -> int {
    b[off] + b[off + 1] * 256
}

/// The little-endian value of the four bytes at `off`.
pub open spec fn le32(b: Seq<u8>, off: int) -> int {
    le16(b, off) + le16(b, off + 2) * 65536
}

/// The little-endian value of the eight bytes at `off`.
pub open spec fn le64(b: Seq<u8>, off: int) -> int {
    le32(b, off) + le32(b, off + 4) * 4294967296
}

/// The buffer `b` with the two bytes at `off` replaced by the little-endian
/// encoding of `v`.
pub open spec fn put16(b: Seq<u8>, off: int, v: u16) -> Seq<u8> {
    b.update(off, (v % 256) as u8).update(off + 1, (v / 256) as u8)
}

/// Whether `len` bytes starting at `offset` lie inside `data` (computed
/// without overflow).
pub fn has_range(data: &[u8], offset: usize, len: usize) -> (r: bool)
    ensures
        r == (offset + len <= data.len()),
{
    match offset.checked_add(len) {
        Some(end) => end <= data.len(),
        None => false,
    }
}

/// Read a little-endian `u16` at `offset`.
pub fn read_u16(data: &[u8], offset: usize) -> (v: u16)
    requires
        offset + 2 <= data.len(),
    ensures
        v == le16(data@, offset as int),
{
    let lo = data[offset] as u16;
    let hi = data[offset + 1] as u16;
    lo + hi * 256
}

/// Read a little-endian `u32` at `offset`.
pub fn read_u32(data: &[u8], offset: usize) -> (v: u32)
    requires
        offset + 4 <= data.len(),
    ensures
        v == le32(data@, offset as int),
{
    let lo = read_u16(data, offset) as u32;
    let hi = read_u16(data, offset + 2) as u32;
    lo + hi * 65536
}

/// Read a little-endian `u64` at `offset`.
pub fn read_u64(data: &[u8], offset: usize) -> (v: u64)
    requires
        offset + 8 <= data.len(),
    ensures
        v == le64(data@, offset as int),
{
    let lo = read_u32(data, offset) as u64;
    let hi = read_u32(data, offset + 4) as u64;
    lo + hi * 4294967296
}

/// Write `value` as a little-endian `u16` at `offset`.
pub fn write_u16(data: &mut [u8], offset: usize, value: u16)
    requires
        offset + 2 <= old(data).len(),
    ensures
        final(data)@ == put16(old(data)@, offset as int, value),
{
    data[offset] = (value % 256) as u8;
    data[offset + 1] = (value / 256) as u8;
}

/// Reading back a freshly written `u16` gives the written value.
pub proof fn lemma_read_after_write(b: Seq<u8>, off: int, v: u16)
    requires
        0 <= off,
        off + 2 <= b.len(),
    ensures
        le16(put16(b, off, v), off) == v,
        put16(b, off, v).len() == b.len(),
{
}

/// Writing a `u16` leaves every byte outside its two positions unchanged.
pub proof fn lemma_write_frame(b: Seq<u8>, off: int, v: u16, i: int)
    requires
        0 <= off,
        off + 2 <= b.len(),
        0 <= i < b.len(),
        i != off,
        i != off + 1,
    ensures
        put16(b, off, v)[i] == b[i],
{
}

} // verus!
