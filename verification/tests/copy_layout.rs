//! The copy entry points against the documented block-linear layout,
//! checked byte for byte with an independently written address formula.

use nil_copy::copy::{nil_copy_linear_to_tiled, nil_copy_tiled_to_linear, CopySwizzle};
use nil_copy::extent::{Extent4D, Offset4D};
use nil_copy::tiling::Tiling;

/// Byte offset inside a 64x8 GOB per the hardware bit interleave
/// b8..b0 = x5 y2 y1 x4 y0 x3 x2 x1 x0.
fn gob_offset(x: u32, y: u32) -> u32 {
    (x & 15) | ((y & 1) << 4) | ((x & 16) << 1) | ((y & 6) << 5) | ((x & 32) << 3)
}

struct Layout {
    tiling: Tiling,
    level: (u32, u32, u32),
}

impl Layout {
    fn tile_dims(&self) -> (u32, u32, u32) {
        (
            64u32 << self.tiling.x_log2,
            8u32 << self.tiling.y_log2,
            1u32 << self.tiling.z_log2,
        )
    }

    fn tiles(&self) -> (u32, u32, u32) {
        let (tw, th, td) = self.tile_dims();
        (
            (self.level.0 + tw - 1) / tw,
            (self.level.1 + th - 1) / th,
            (self.level.2 + td - 1) / td,
        )
    }

    fn total(&self) -> usize {
        let (tw, th, td) = self.tile_dims();
        let (nx, ny, nz) = self.tiles();
        (nx * ny * nz) as usize * (tw * th * td) as usize
    }

    /// The documented wire format: raster-order tiles, block-linear
    /// GOBs inside a tile, interleaved bytes inside a GOB.
    fn addr(&self, x: u32, y: u32, z: u32) -> usize {
        let (tw, th, td) = self.tile_dims();
        let (nx, ny, _) = self.tiles();
        let ts = tw * th * td;
        let tile = x / tw + (y / th) * nx + (z / td) * nx * ny;
        let (lx, ly, lz) = (x % tw, y % th, z % td);
        let gx = 1u32 << self.tiling.x_log2;
        let gy = 1u32 << self.tiling.y_log2;
        let gob = lx / 64 + (ly / 8) * gx + lz * gx * gy;
        (tile * ts) as usize + (gob * 512) as usize + gob_offset(lx % 64, ly % 8) as usize
    }
}

/// Runs linear-to-tiled over the rectangle and checks every byte of
/// the result: rectangle bytes land at the reference address, and no
/// other tiled byte changes.
fn check_linear_to_tiled(
    layout: &Layout,
    off: (u32, u32, u32),
    ext: (u32, u32, u32),
    rs: usize,
    ps: usize,
) -> Vec<u8> {
    let lin_len = (ext.2 as usize - 1) * ps + (ext.1 as usize - 1) * rs + ext.0 as usize;
    let mut linear = vec![0u8; lin_len];
    for (i, b) in linear.iter_mut().enumerate() {
        *b = (i as u64 * 131 + 17) as u8;
    }
    let mut tiled = vec![0xAAu8; layout.total()];
    nil_copy_linear_to_tiled(
        &mut tiled,
        Extent4D::new(layout.level.0, layout.level.1, layout.level.2, 1),
        &linear,
        rs,
        ps,
        Offset4D::new(off.0, off.1, off.2, 0),
        Extent4D::new(ext.0, ext.1, ext.2, 1),
        CopySwizzle::_None,
        &layout.tiling,
    );
    let mut written = vec![false; layout.total()];
    for z in 0..ext.2 {
        for y in 0..ext.1 {
            for x in 0..ext.0 {
                let t = layout.addr(off.0 + x, off.1 + y, off.2 + z);
                let l = z as usize * ps + y as usize * rs + x as usize;
                assert_eq!(tiled[t], linear[l], "byte ({x},{y},{z})");
                assert!(!written[t], "address {t} written twice");
                written[t] = true;
            }
        }
    }
    for (t, w) in written.iter().enumerate() {
        if !w {
            assert_eq!(tiled[t], 0xAA, "address {t} touched outside the rectangle");
        }
    }
    tiled
}

#[test]
fn whole_gob_interleave() {
    // A single whole GOB: 512 tiled bytes equal to 8 rows of 64
    // linear bytes, interleaved per the hardware formula.
    let layout = Layout {
        tiling: Tiling { gob_height_is_8: true, x_log2: 0, y_log2: 3, z_log2: 0 },
        level: (64, 8, 1),
    };
    let tiled = check_linear_to_tiled(&layout, (0, 0, 0), (64, 8, 1), 64, 512);
    // Spot-check the interleave directly.
    assert_eq!(layout.addr(0, 0, 0), 0);
    assert_eq!(layout.addr(0, 1, 0), 0x10);
    assert_eq!(layout.addr(16, 0, 0), 0x20);
    assert_eq!(layout.addr(0, 2, 0), 0x40);
    assert_eq!(layout.addr(0, 4, 0), 0x80);
    assert_eq!(layout.addr(32, 0, 0), 0x100);
    assert_eq!(layout.addr(48, 6, 0), 0x120 + 0xc0);
    // Tiled byte at the interleaved position of (5, 3) is linear row 3,
    // column 5.
    let lin_val = (3u64 * 64 + 5) * 131 + 17;
    assert_eq!(tiled[layout.addr(5, 3, 0)], lin_val as u8);
}

#[test]
fn sub_sector_partial() {
    // A rectangle smaller than a sector, unaligned on both axes:
    // exercises the clipped sector path.
    let layout = Layout {
        tiling: Tiling { gob_height_is_8: true, x_log2: 0, y_log2: 3, z_log2: 0 },
        level: (64, 8, 1),
    };
    check_linear_to_tiled(&layout, (3, 1, 0), (5, 3, 1), 16, 64);
}

#[test]
fn exactly_one_tile() {
    // offset (0,0,0), extent (128,16,1) on x_log2 = 1, y_log2 = 1:
    // exactly one tile of 2x2 GOBs, whole-tile path only.
    let layout = Layout {
        tiling: Tiling { gob_height_is_8: true, x_log2: 1, y_log2: 1, z_log2: 0 },
        level: (128, 16, 1),
    };
    check_linear_to_tiled(&layout, (0, 0, 0), (128, 16, 1), 128, 2048);
}

#[test]
fn crosses_gob_corners() {
    // offset (48,6,0), extent (32,4,1): crosses GOB boundaries in x
    // and y at once, partial GOBs and partial sectors on every side.
    let layout = Layout {
        tiling: Tiling { gob_height_is_8: true, x_log2: 0, y_log2: 3, z_log2: 0 },
        level: (128, 64, 1),
    };
    check_linear_to_tiled(&layout, (48, 6, 0), (32, 4, 1), 32, 128);
}

#[test]
fn whole_gobs_inside_partial_clip() {
    // An unaligned rectangle that still contains whole GOBs in its
    // interior: both the clipped and the unclipped GOB paths run.
    let layout = Layout {
        tiling: Tiling { gob_height_is_8: true, x_log2: 0, y_log2: 3, z_log2: 0 },
        level: (128, 64, 1),
    };
    check_linear_to_tiled(&layout, (3, 2, 0), (125, 14, 1), 128, 2048);
}

#[test]
fn three_dimensional_rectangle() {
    // A depth-tiled layout with a rectangle crossing tiles in all
    // three dimensions.
    let layout = Layout {
        tiling: Tiling { gob_height_is_8: true, x_log2: 1, y_log2: 1, z_log2: 1 },
        level: (200, 30, 3),
    };
    check_linear_to_tiled(&layout, (100, 10, 0), (60, 17, 3), 64, 2048);
}

#[test]
fn tiled_to_linear_reads_the_layout() {
    // Place a pattern at the reference addresses of every level byte,
    // read a rectangle out, and check the strided destination: the
    // rectangle arrives, the rest of the destination stays put.
    let layout = Layout {
        tiling: Tiling { gob_height_is_8: true, x_log2: 1, y_log2: 1, z_log2: 0 },
        level: (128, 16, 1),
    };
    let mut tiled = vec![0u8; layout.total()];
    for y in 0..layout.level.1 {
        for x in 0..layout.level.0 {
            tiled[layout.addr(x, y, 0)] = (x as u64 * 7 + y as u64 * 31 + 5) as u8;
        }
    }
    let (off, ext) = ((5u32, 3u32, 0u32), (40u32, 9u32, 1u32));
    let (rs, ps) = (64usize, 1024usize);
    let lin_len = (ext.1 as usize - 1) * rs + ext.0 as usize;
    let mut linear = vec![0x77u8; lin_len];
    nil_copy_tiled_to_linear(
        &mut linear, rs, ps,
        &tiled,
        Extent4D::new(layout.level.0, layout.level.1, layout.level.2, 1),
        Offset4D::new(off.0, off.1, off.2, 0),
        Extent4D::new(ext.0, ext.1, ext.2, 1),
        CopySwizzle::_None,
        &layout.tiling,
    );
    let mut in_rect = vec![false; lin_len];
    for y in 0..ext.1 {
        for x in 0..ext.0 {
            let l = y as usize * rs + x as usize;
            let want = ((off.0 + x) as u64 * 7 + (off.1 + y) as u64 * 31 + 5) as u8;
            assert_eq!(linear[l], want, "byte ({x},{y})");
            in_rect[l] = true;
        }
    }
    for (l, inside) in in_rect.iter().enumerate() {
        if !inside {
            assert_eq!(linear[l], 0x77, "linear byte {l} touched outside the rectangle");
        }
    }
}

#[test]
fn round_trip_restores_the_rectangle() {
    // Write a rectangle linear-to-tiled, read it back tiled-to-linear:
    // the rectangle bytes return unchanged and the rest of the
    // destination keeps its prior fill.
    let layout = Layout {
        tiling: Tiling { gob_height_is_8: true, x_log2: 1, y_log2: 2, z_log2: 0 },
        level: (150, 50, 2),
    };
    let (off, ext) = ((37u32, 11u32, 0u32), (75u32, 23u32, 2u32));
    let (rs, ps) = (80usize, 2000usize);
    let lin_len = (ext.2 as usize - 1) * ps + (ext.1 as usize - 1) * rs + ext.0 as usize;
    let mut linear = vec![0u8; lin_len];
    for (i, b) in linear.iter_mut().enumerate() {
        *b = (i as u64 * 197 + 43) as u8;
    }
    let mut tiled = vec![0u8; layout.total()];
    let level = Extent4D::new(layout.level.0, layout.level.1, layout.level.2, 1);
    let offset = Offset4D::new(off.0, off.1, off.2, 0);
    let extent = Extent4D::new(ext.0, ext.1, ext.2, 1);
    nil_copy_linear_to_tiled(
        &mut tiled, level, &linear, rs, ps, offset, extent,
        CopySwizzle::_None, &layout.tiling,
    );
    let mut back = vec![0x55u8; lin_len];
    nil_copy_tiled_to_linear(
        &mut back, rs, ps, &tiled, level, offset, extent,
        CopySwizzle::_None, &layout.tiling,
    );
    let mut in_rect = vec![false; lin_len];
    for z in 0..ext.2 as usize {
        for y in 0..ext.1 as usize {
            for x in 0..ext.0 as usize {
                let l = z * ps + y * rs + x;
                assert_eq!(back[l], linear[l], "byte ({x},{y},{z})");
                in_rect[l] = true;
            }
        }
    }
    for (l, inside) in in_rect.iter().enumerate() {
        if !inside {
            assert_eq!(back[l], 0x55, "linear byte {l} touched outside the rectangle");
        }
    }
}

#[test]
fn tiled_address_is_injective() {
    // Exhaustively enumerate one tile per tiling and check that the
    // address mapping visits every byte of the tile exactly once.
    for (xl, yl, zl) in [(0u8, 0u8, 0u8), (0, 3, 0), (1, 1, 0), (1, 1, 1), (2, 0, 1)] {
        let layout = Layout {
            tiling: Tiling { gob_height_is_8: true, x_log2: xl, y_log2: yl, z_log2: zl },
            level: (64u32 << xl, 8u32 << yl, 1u32 << zl),
        };
        let (tw, th, td) = layout.tile_dims();
        let mut seen = vec![false; layout.total()];
        for z in 0..td {
            for y in 0..th {
                for x in 0..tw {
                    let a = layout.addr(x, y, z);
                    assert!(a < layout.total());
                    assert!(!seen[a], "address {a} hit twice");
                    seen[a] = true;
                }
            }
        }
        assert!(seen.iter().all(|s| *s));
    }
}
