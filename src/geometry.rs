//! Sector-aligned geometry of direct reads.
use vstd::prelude::*;

verus! {

/// Size of a device sector: direct I/O offsets, lengths and buffers are
/// multiples of it.
pub const SECTOR: u64 = 512;

/// Largest multiple of `SECTOR` that is not above `x`.
pub open spec fn floor_to_sector(x: int) -> int {
    x - x % (SECTOR as int)
}

/// Smallest multiple of `SECTOR` that is not below `x`.
pub open spec fn ceil_to_sector(x: int) -> int {
    if x % (SECTOR as int) == 0 {
        x
    } else {
        x - x % (SECTOR as int) + SECTOR as int
    }
}

/// The aligned read that covers the byte range `[offset, offset + len)`.
#[derive(Clone, Copy, Debug, PartialEq, Eq, Structural)]
pub struct ReadGeometry {
    /// Where the aligned read starts: `offset` rounded down to a sector.
    pub aligned_offset: u64,
    /// How many bytes of the aligned read come before the requested range.
    pub pad_left: u64,
    /// How many bytes the aligned read covers: at least one sector.
    pub aligned_len: u64,
    /// How many bytes were requested.
    pub len: u64,
}

impl ReadGeometry {
    /// The geometry that `aligned_read(offset, len)` computes.
    pub open spec fn covers(self, offset: u64, len: u64) -> bool {
        &&& self.aligned_offset == floor_to_sector(offset as int)
        &&& self.pad_left == offset - self.aligned_offset
        &&& self.aligned_len == if ceil_to_sector(self.pad_left + len) < SECTOR {
            SECTOR as int
        } else {
            ceil_to_sector(self.pad_left + len)
        }
        &&& self.len == len
    }

    /// What a direct read demands: offset and length on sector boundaries,
    /// a length of at least one sector.
    pub open spec fn is_aligned(self) -> bool {
        &&& self.aligned_offset % SECTOR == 0
        &&& self.aligned_len % SECTOR == 0
        &&& self.aligned_len >= SECTOR
    }

    /// The requested range lies within the aligned read.
    pub open spec fn contains_request(self) -> bool {
        &&& self.pad_left < SECTOR
        &&& self.pad_left + self.len <= self.aligned_len
    }
}

/// Computes the sector-aligned read that covers `len` bytes at `offset`.
pub fn aligned_read(offset: u64, len: u16) -> (g: ReadGeometry)
    ensures
        g.covers(offset, len as u64),
        g.is_aligned(),
        g.contains_request(),
{
    let aligned_offset = offset - offset % SECTOR;
    let pad_left = offset - aligned_offset;
    let padded = pad_left + len as u64;
    let rem = padded % SECTOR;
    let rounded = if rem == 0 {
        padded
    } else {
        padded - rem + SECTOR
    };
    let aligned_len = if rounded < SECTOR {
        SECTOR
    } else {
        rounded
    };
    ReadGeometry { aligned_offset, pad_left, aligned_len, len: len as u64 }
}

/// The bytes that answer the request out of the buffer that the aligned read
/// filled: `buf[pad_left .. pad_left + len]`, or nothing when the read came
/// back short of the requested range.
pub fn request_slice(g: &ReadGeometry, buf: &[u8]) -> (r: Vec<u8>)
    ensures
        g.pad_left + g.len <= buf@.len() ==> r@ == buf@.subrange(
            g.pad_left as int,
            g.pad_left + g.len,
        ),
        g.pad_left + g.len > buf@.len() ==> r@.len() == 0,
{
    let mut r: Vec<u8> = Vec::new();
    if g.pad_left > buf.len() as u64 || g.len > buf.len() as u64 - g.pad_left {
        return r;
    }
    let start = g.pad_left as usize;
    let end = start + g.len as usize;
    let mut i: usize = start;
    while i < end
        invariant
            start <= i <= end,
            end <= buf@.len(),
            r@ == buf@.subrange(start as int, i as int),
        decreases end - i,
    {
        r.push(buf[i]);
        i = i + 1;
    }
    r
}

} // verus!
