//! The inside of a GOB: the hardware byte interleave, the enumeration of
//! its 16-byte lines, and the flat byte-copy primitives.
//!
//! A 64x8-byte GOB holds 512 bytes as 16 sectors of 16x2 bytes. The byte
//! at GOB-local position `(x, y)` lives at the offset given by the bit
//! interleave `b8..b0 = x5 y2 y1 x4 y0 x3 x2 x1 x0`.

use vstd::prelude::*;

verus! {

pub const SECTOR_WIDTH_B: u32 = 16;
pub const SECTOR_HEIGHT: u32 = 2;
pub const SECTOR_SIZE_B: u32 = SECTOR_WIDTH_B * SECTOR_HEIGHT;

pub const GOB_SIZE_B: u32 = 512;

/// Byte offset inside a 64x8 GOB of the byte at `(x, y)`, following the
/// hardware bit interleave `b8..b0 = x5 y2 y1 x4 y0 x3 x2 x1 x0`.
pub open spec fn gob_addr(x: u32, y: u32) -> u32 {
    (x & 15) | ((y & 1) << 4u32) | ((x & 16) << 1u32) | ((y & 6) << 5u32) | ((x & 32) << 3u32)
}

/// The x coordinate of the 16-byte line that starts at GOB offset `off`.
pub open spec fn line_x_of(off: u32) -> u32 {
    (off & 0x20) >> 1u32 | (off & 0x100) >> 3u32
}

/// The y coordinate of the 16-byte line that starts at GOB offset `off`.
pub open spec fn line_y_of(off: u32) -> u32 {
    (off & 0x10) >> 4u32 | (off & 0xc0) >> 5u32
}

/// The interleave is invertible: every in-range `(x, y)` maps below 512
/// and is recovered from its offset, and 16-byte-aligned lines land on
/// 16-byte-aligned offsets.
pub proof fn lemma_gob_addr_inverse(x: u32, y: u32)
    requires
        x < 64,
        y < 8,
    ensures
        gob_addr(x, y) < 512,
        x % 16 == 0 ==> gob_addr(x, y) % 16 == 0,
        x % 16 == 0 ==> line_x_of(gob_addr(x, y)) == x,
        x % 16 == 0 ==> line_y_of(gob_addr(x, y)) == y,
{
    assert(gob_addr(x, y) < 512
        && (x % 16 == 0 ==> gob_addr(x, y) % 16 == 0)
        && (x % 16 == 0 ==> line_x_of(gob_addr(x, y)) == x)
        && (x % 16 == 0 ==> line_y_of(gob_addr(x, y)) == y)) by (bit_vector)
        requires x < 64 && y < 8;
}

/// Bytes of one 16-byte line sit at consecutive offsets.
pub proof fn lemma_gob_addr_line(x: u32, b: u32, y: u32)
    requires
        x < 64,
        x % 16 == 0,
        b < 16,
        y < 8,
    ensures
        gob_addr((x + b) as u32, y) == gob_addr(x, y) + b,
{
    assert(gob_addr((x + b) as u32, y) == gob_addr(x, y) + b) by (bit_vector)
        requires x < 64 && x % 16 == 0 && b < 16 && y < 8;
}

/// The interleave is injective on whole bytes.
pub proof fn lemma_gob_addr_inj(x1: u32, y1: u32, x2: u32, y2: u32)
    requires
        x1 < 64, y1 < 8,
        x2 < 64, y2 < 8,
        gob_addr(x1, y1) == gob_addr(x2, y2),
    ensures
        x1 == x2,
        y1 == y2,
{
    assert(gob_addr(x1, y1) == gob_addr(x2, y2) ==> x1 == x2 && y1 == y2) by (bit_vector)
        requires x1 < 64 && y1 < 8 && x2 < 64 && y2 < 8;
}

/// Enumerate the 32 16-byte lines of a GOB in offset order. Entry `j`
/// gives `(offset, x, y)` with `offset == 16 * j`; together the entries
/// visit every line position `(x, y)` with `x` a multiple of 16 below 64
/// and `y` below 8 exactly once.
pub fn gob2d_for_each_16b() -> (lines: Vec<(u32, u32, u32)>)
    ensures
        lines@.len() == 32,
        forall|j: int| 0 <= j < 32 ==> {
            let l = #[trigger] lines@[j];
            &&& l.0 == 16 * j
            &&& l.1 == line_x_of(l.0)
            &&& l.2 == line_y_of(l.0)
            &&& l.1 < 64
            &&& l.1 % 16 == 0
            &&& l.2 < 8
            &&& gob_addr(l.1, l.2) == l.0
        },
{
    let mut lines: Vec<(u32, u32, u32)> = Vec::new();
    let mut j: u32 = 0;
    while j < 32
        invariant
            j <= 32,
            lines@.len() == j,
            forall|i: int| 0 <= i < j ==> {
                let l = #[trigger] lines@[i];
                &&& l.0 == 16 * i
                &&& l.1 == line_x_of(l.0)
                &&& l.2 == line_y_of(l.0)
                &&& l.1 < 64
                &&& l.1 % 16 == 0
                &&& l.2 < 8
                &&& gob_addr(l.1, l.2) == l.0
            },
        decreases 32 - j,
    {
        let off = 16 * j;
        let x = (off & 0x20) >> 1 | (off & 0x100) >> 3;
        let y = (off & 0x10) >> 4 | (off & 0xc0) >> 5;
        proof {
            assert(line_x_of(off) < 64 && line_x_of(off) % 16 == 0 && line_y_of(off) < 8
                && gob_addr(line_x_of(off), line_y_of(off)) == off) by (bit_vector)
                requires off == 16 * j && j < 32;
        }
        lines.push((off, x, y));
        j = j + 1;
    }
    lines
}

/// Copy `n` bytes from `src` at `s` to `dst` at `d`; everything else in
/// `dst` keeps its value.
pub fn copy_bytes(dst: &mut Vec<u8>, d: usize, src: &Vec<u8>, s: usize, n: usize)
    requires
        d + n <= old(dst).len(),
        s + n <= src.len(),
    ensures
        final(dst).len() == old(dst).len(),
        forall|i: int| d <= i < d + n ==> #[trigger] final(dst)@[i] == src@[i - d + s],
        forall|i: int| 0 <= i < final(dst).len() && !(d <= i < d + n)
            ==> #[trigger] final(dst)@[i] == old(dst)@[i],
{
    let mut m: usize = 0;
    while m < n
        invariant
            m <= n,
            d + n <= dst.len(),
            s + n <= src.len(),
            dst.len() == old(dst).len(),
            forall|i: int| d <= i < d + m ==> #[trigger] dst@[i] == src@[i - d + s],
            forall|i: int| 0 <= i < dst.len() && !(d <= i < d + n)
                ==> #[trigger] dst@[i] == old(dst)@[i],
        decreases n - m,
    {
        let v = src[s + m];
        dst[d + m] = v;
        m = m + 1;
    }
}

/// Stencil-only copy into packed depth-stencil storage: of each 4-byte
/// destination pixel, byte 3 receives the next source byte; destination
/// bytes 0, 1 and 2 of every pixel are untouched.
pub fn copy_x24s8_to_tiled(
    tiled: &mut Vec<u8>, t: usize, linear: &Vec<u8>, l: usize, bytes: usize,
)
    requires
        bytes + 3 <= usize::MAX,
        t + bytes <= old(tiled).len(),
        l + bytes / 4 <= linear.len(),
    ensures
        final(tiled).len() == old(tiled).len(),
        forall|i: int| t <= i < t + bytes && (i - t) % 4 == 3
            ==> #[trigger] final(tiled)@[i] == linear@[l + (i - t) / 4],
        forall|i: int| 0 <= i < final(tiled).len() && !(t <= i < t + bytes && (i - t) % 4 == 3)
            ==> #[trigger] final(tiled)@[i] == old(tiled)@[i],
{
    let mut k: usize = 0;
    while 4 * k + 3 < bytes
        invariant
            4 * k <= bytes,
            bytes + 3 <= usize::MAX,
            t + bytes <= tiled.len(),
            l + bytes / 4 <= linear.len(),
            tiled.len() == old(tiled).len(),
            forall|i: int| t <= i < t + 4 * k && (i - t) % 4 == 3
                ==> #[trigger] tiled@[i] == linear@[l + (i - t) / 4],
            forall|i: int| 0 <= i < tiled.len() && !(t <= i < t + bytes && (i - t) % 4 == 3)
                ==> #[trigger] tiled@[i] == old(tiled)@[i],
        decreases bytes - 4 * k,
    {
        proof {
            assert(k < bytes / 4);
        }
        let v = linear[l + k];
        tiled[t + 4 * k + 3] = v;
        k = k + 1;
    }
}

/// Depth-only copy into packed depth-stencil storage: of each 4-byte
/// pixel, bytes 0, 1 and 2 are copied and the destination's byte 3 is
/// untouched.
pub fn copy_z24x8_to_tiled(
    tiled: &mut Vec<u8>, t: usize, linear: &Vec<u8>, l: usize, bytes: usize,
)
    requires
        bytes % 4 == 0,
        t + bytes <= old(tiled).len(),
        l + bytes <= linear.len(),
    ensures
        final(tiled).len() == old(tiled).len(),
        forall|i: int| t <= i < t + bytes && (i - t) % 4 != 3
            ==> #[trigger] final(tiled)@[i] == linear@[l + (i - t)],
        forall|i: int| 0 <= i < final(tiled).len() && !(t <= i < t + bytes && (i - t) % 4 != 3)
            ==> #[trigger] final(tiled)@[i] == old(tiled)@[i],
{
    let mut k: usize = 0;
    while 4 * k < bytes
        invariant
            bytes % 4 == 0,
            4 * k <= bytes,
            t + bytes <= tiled.len(),
            l + bytes <= linear.len(),
            tiled.len() == old(tiled).len(),
            forall|i: int| t <= i < t + 4 * k && (i - t) % 4 != 3
                ==> #[trigger] tiled@[i] == linear@[l + (i - t)],
            forall|i: int| 0 <= i < tiled.len() && !(t <= i < t + bytes && (i - t) % 4 != 3)
                ==> #[trigger] tiled@[i] == old(tiled)@[i],
        decreases bytes - 4 * k,
    {
        proof {
            assert(4 * k + 4 <= bytes);
        }
        let b0 = linear[l + 4 * k];
        tiled[t + 4 * k] = b0;
        let b1 = linear[l + 4 * k + 1];
        tiled[t + 4 * k + 1] = b1;
        let b2 = linear[l + 4 * k + 2];
        tiled[t + 4 * k + 2] = b2;
        k = k + 1;
    }
}

} // verus!
