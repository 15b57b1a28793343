//! The partitioner, the GOB line walker, the sector primitives and the
//! two byte-offset cursors.

use nil_copy::extent::{Extent4D, Offset4D};
use nil_copy::gob::{
    copy_bytes, copy_x24s8_to_tiled, copy_z24x8_to_tiled, gob2d_for_each_16b,
};
use nil_copy::partition::{aligned_range, chunk_range, for_each_extent4d, for_each_extent4d_aligned};
use nil_copy::pointer::{BlockPointer, LinearPointer};

fn gob_offset(x: u32, y: u32) -> u32 {
    (x & 15) | ((y & 1) << 4) | ((x & 16) << 1) | ((y & 6) << 5) | ((x & 32) << 3)
}

#[test]
fn sector_enumeration_is_exhaustive() {
    // The 32 16-byte lines are exactly the interleave of every
    // (x, y) with x in {0,16,32,48} and y below 8, each once.
    let lines = gob2d_for_each_16b();
    assert_eq!(lines.len(), 32);
    let mut seen = [false; 32];
    for (j, &(off, x, y)) in lines.iter().enumerate() {
        assert_eq!(off, 16 * j as u32);
        assert_eq!(x % 16, 0);
        assert!(x < 64 && y < 8);
        assert_eq!(gob_offset(x, y), off);
        let slot = (x / 16 * 8 + y) as usize;
        assert!(!seen[slot], "line ({x},{y}) repeated");
        seen[slot] = true;
    }
    assert!(seen.iter().all(|s| *s));
}

#[test]
fn partitioner_covers_every_point_once() {
    let start = Offset4D::new(3, 5, 1, 0);
    let end = Offset4D::new(21, 13, 4, 1);
    let chunk = Extent4D::new(8, 4, 2, 1);
    let chunks = for_each_extent4d(start, end, chunk);
    let mut hits = vec![0u32; 32 * 16 * 8];
    for c in &chunks {
        assert_eq!(c.origin.x % chunk.width, 0);
        assert_eq!(c.origin.y % chunk.height, 0);
        assert_eq!(c.origin.z % chunk.depth, 0);
        assert!(c.start.x < c.end.x && c.end.x <= chunk.width);
        assert!(c.start.y < c.end.y && c.end.y <= chunk.height);
        assert!(c.start.z < c.end.z && c.end.z <= chunk.depth);
        for z in c.start.z..c.end.z {
            for y in c.start.y..c.end.y {
                for x in c.start.x..c.end.x {
                    let (gx, gy, gz) = (c.origin.x + x, c.origin.y + y, c.origin.z + z);
                    assert!(gx >= start.x && gx < end.x);
                    assert!(gy >= start.y && gy < end.y);
                    assert!(gz >= start.z && gz < end.z);
                    hits[(gz * 32 * 16 + gy * 32 + gx) as usize] += 1;
                }
            }
        }
    }
    for z in 0..8u32 {
        for y in 0..16u32 {
            for x in 0..32u32 {
                let inside = x >= start.x && x < end.x && y >= start.y && y < end.y
                    && z >= start.z && z < end.z;
                let n = hits[(z * 32 * 16 + y * 32 + x) as usize];
                assert_eq!(n, if inside { 1 } else { 0 }, "point ({x},{y},{z})");
            }
        }
    }
}

#[test]
fn aligned_partitioner_lists_every_cell() {
    let start = Offset4D::new(8, 0, 0, 0);
    let end = Offset4D::new(24, 8, 4, 1);
    let chunk = Extent4D::new(8, 4, 2, 1);
    let cells = for_each_extent4d_aligned(start, end, chunk);
    let mut got: Vec<(u32, u32, u32)> = cells.iter().map(|o| (o.x, o.y, o.z)).collect();
    got.sort();
    let mut want = Vec::new();
    for z in [0, 2] {
        for y in [0, 4] {
            for x in [8, 16] {
                want.push((x, y, z));
            }
        }
    }
    want.sort();
    assert_eq!(got, want);
}

#[test]
fn range_helpers() {
    assert_eq!(aligned_range(5, 21, 8), (0, 24));
    assert_eq!(aligned_range(8, 16, 8), (8, 16));
    assert_eq!(aligned_range(0, 1, 4), (0, 4));
    // Clip of [10, 20) against the chunk starting at 8 of length 16.
    assert_eq!(chunk_range((10, 20), 8, 16), (2, 12));
    // Chunk entirely inside.
    assert_eq!(chunk_range((0, 64), 16, 16), (0, 16));
    // Box ends inside the chunk.
    assert_eq!(chunk_range((0, 20), 16, 16), (0, 4));
}

#[test]
fn cursors_compute_strided_offsets() {
    let lp = LinearPointer::new(1000, 1, 64, 512);
    assert_eq!(lp.x_divisor(), 1);
    assert_eq!(lp.at(Offset4D::new(3, 2, 1, 0)), 1000 + 512 + 128 + 3);
    let moved = lp.offset(Offset4D::new(8, 1, 0, 0));
    assert_eq!(moved.at(Offset4D::new(0, 0, 0, 0)), 1000 + 64 + 8);
    let back = moved.reverse(Offset4D::new(8, 1, 0, 0));
    assert_eq!(back.at(Offset4D::new(0, 0, 0, 0)), 1000);

    // A divisor of 4 models the stencil-only view: four tile bytes per
    // linear byte.
    let sp = LinearPointer::new(0, 4, 16, 256);
    assert_eq!(sp.x_divisor(), 4);
    assert_eq!(sp.at(Offset4D::new(8, 1, 0, 0)), 16 + 2);

    // Block cursor over a grid of 64x8x1 blocks in a 128x16x1 region.
    let bp = BlockPointer::new(0, Extent4D::new(64, 8, 1, 1), Extent4D::new(128, 16, 1, 1));
    assert_eq!(bp.at(Offset4D::new(0, 0, 0, 0)), 0);
    assert_eq!(bp.at(Offset4D::new(64, 0, 0, 0)), 64 * 8);
    assert_eq!(bp.at(Offset4D::new(0, 8, 0, 0)), 128 * 8);
}

#[test]
fn copy_bytes_moves_exactly_the_range() {
    let src = vec![1u8, 2, 3, 4, 5, 6, 7, 8];
    let mut dst = vec![0u8; 8];
    copy_bytes(&mut dst, 2, &src, 4, 3);
    assert_eq!(dst, [0, 0, 5, 6, 7, 0, 0, 0]);
}

#[test]
fn stencil_swizzle_writes_only_byte_three() {
    // Writing linear stencil bytes s0, s1, ... puts sk at tiled
    // position 4k + 3 and leaves positions 4k, 4k+1, 4k+2 untouched.
    let linear = vec![0x11u8, 0x22, 0x33, 0x44];
    let mut tiled = vec![0xEEu8; 16];
    copy_x24s8_to_tiled(&mut tiled, 0, &linear, 0, 16);
    for k in 0..4 {
        assert_eq!(tiled[4 * k + 3], linear[k]);
        assert_eq!(tiled[4 * k], 0xEE);
        assert_eq!(tiled[4 * k + 1], 0xEE);
        assert_eq!(tiled[4 * k + 2], 0xEE);
    }
    // A clipped count still touches only whole pixels' byte three.
    let mut tiled = vec![0xEEu8; 16];
    copy_x24s8_to_tiled(&mut tiled, 0, &linear, 0, 6);
    assert_eq!(tiled[3], 0x11);
    assert!(tiled.iter().enumerate().all(|(i, b)| i == 3 || *b == 0xEE));
}

#[test]
fn depth_swizzle_preserves_byte_three() {
    let linear: Vec<u8> = (1..=8).collect();
    let mut tiled = vec![0xEEu8; 8];
    copy_z24x8_to_tiled(&mut tiled, 0, &linear, 0, 8);
    assert_eq!(tiled, [1, 2, 3, 0xEE, 5, 6, 7, 0xEE]);
}
