//! Copies between a strided linear buffer and a block-linear tiled
//! buffer.
//!
//! The tiled byte address of `(x, y, z)` is built in three tiers: the
//! raster-order tile of the aligned level grid, the block-linear GOB
//! inside the tile, and the hardware byte interleave inside the GOB.
//! `nil_copy_linear_to_tiled` and `nil_copy_tiled_to_linear` move an
//! arbitrary byte rectangle between the two layouts; their contracts
//! state the destination byte at every address, and that every byte
//! outside the written image keeps its value.

use vstd::prelude::*;
use vstd::arithmetic::div_mod::{
    lemma_fundamental_div_mod, lemma_mod_pos_bound, lemma_mod_multiples_basic,
};
use vstd::arithmetic::mul::{
    lemma_mul_inequality, lemma_mul_nonnegative, lemma_mul_is_commutative,
};
use crate::arith::{
    lemma_div_mod_aligned, lemma_add_small_block, lemma_split_unique,
    lemma_radix3_unique, lemma_radix3_bound, lemma_div_range,
};
use crate::extent::{Extent4D, Offset4D, in_box};
use crate::gob::{
    gob_addr, lemma_gob_addr_inverse, lemma_gob_addr_inj, lemma_gob_addr_line,
    gob2d_for_each_16b, copy_bytes,
};
use crate::partition::{
    Chunk4D, chunk_wf, chunk_contains, covered, covered_cell, cell_of,
    for_each_extent4d, for_each_extent4d_aligned, lemma_chunk_region,
};
use crate::pointer::{BlockPointer, LinearPointer};
use crate::tiling::{Tiling, lemma_tiling_bounds, spec_gob_height};

verus! {

/// Which way the bytes flow between the tiled and the linear buffer.
#[derive(Clone, Copy, Debug, PartialEq, Eq, Structural)]
pub enum CopyDir {
    ToTiled,
    ToLinear,
}

/// Pixel-format swizzle selector for a copy. The active copy path moves
/// raw bytes for every variant; the depth/stencil channel splitters are
/// exposed separately as sector primitives.
#[derive(Clone, Debug, Copy, PartialEq, Default)]
#[allow(non_camel_case_types)]
pub enum CopySwizzle {
    #[default]
    _None,
    _Z24X8,
    _X24S8,
    _Z32_X32,
    _X32_X24S8,
}

/// Byte offset of the GOB-local byte `(lx, ly, lz)` from its tile's
/// base: the GOB's block-linear index times 512, plus the hardware
/// interleave inside the GOB.
pub open spec fn tile_rel_addr(t: Tiling, lx: int, ly: int, lz: int) -> int {
    (lx / 64 + (ly / 8) * t.gobs_x() + lz * (t.gobs_x() * t.gobs_y())) * 512
        + gob_addr((lx % 64) as u32, (ly % 8) as u32)
}

/// Byte address of `(x, y, z)` in a tiled level of `ntx` by `nty` (by
/// any number of) tiles: the raster-order tile index times the tile
/// size, plus the offset inside the tile.
pub open spec fn tiled_addr(t: Tiling, ntx: int, nty: int, x: int, y: int, z: int) -> int {
    (x / t.tile_w() + (y / t.tile_h()) * ntx + (z / t.tile_d()) * (ntx * nty)) * t.tile_size()
        + tile_rel_addr(t, x % t.tile_w(), y % t.tile_h(), z % t.tile_d())
}

/// Everything a copy needs to turn a coordinate into its two buffer
/// addresses: direction, tile geometry, the aligned level size in
/// tiles, the rectangle being copied, and the linear strides.
#[derive(Clone, Copy, Debug)]
pub struct CopyParams {
    pub dir: CopyDir,
    pub tiling: Tiling,
    pub ntx: u32,
    pub nty: u32,
    pub ntz: u32,
    pub off: Offset4D,
    pub ext: Extent4D,
    pub row_stride_B: usize,
    pub plane_stride_B: usize,
}

impl CopyParams {
    /// Width in bytes of the tile-aligned level.
    pub open spec fn lvl_w(self) -> int {
        self.ntx * self.tiling.tile_w()
    }

    pub open spec fn lvl_h(self) -> int {
        self.nty * self.tiling.tile_h()
    }

    pub open spec fn lvl_d(self) -> int {
        self.ntz * self.tiling.tile_d()
    }

    /// Size in bytes of the whole tiled level.
    pub open spec fn total(self) -> int {
        (self.ntx * self.nty * self.ntz) * self.tiling.tile_size()
    }

    /// Largest linear index the rectangle can reach, plus one.
    pub open spec fn lin_size(self) -> int {
        (self.ext.depth - 1) * self.plane_stride_B
            + (self.ext.height - 1) * self.row_stride_B + self.ext.width
    }

    /// Geometry and machine limits a copy relies on: a supported
    /// tiling, a non-empty rectangle inside the tile-aligned level,
    /// sizes that fit the index types, and, when writing the linear
    /// side, strides that keep distinct pixels at distinct addresses.
    pub open spec fn wf(self) -> bool {
        &&& self.tiling.wf()
        &&& self.tiling.gob_height_is_8
        &&& 1 <= self.ntx
        &&& 1 <= self.nty
        &&& 1 <= self.ntz
        &&& self.lvl_w() + self.tiling.tile_w() <= u32::MAX
        &&& self.lvl_h() + self.tiling.tile_h() <= u32::MAX
        &&& self.lvl_d() + self.tiling.tile_d() <= u32::MAX
        &&& self.total() <= usize::MAX
        &&& self.lin_size() <= usize::MAX
        &&& self.off.a == 0
        &&& self.ext.array_len == 1
        &&& 1 <= self.ext.width
        &&& 1 <= self.ext.height
        &&& 1 <= self.ext.depth
        &&& self.off.x + self.ext.width <= self.lvl_w()
        &&& self.off.y + self.ext.height <= self.lvl_h()
        &&& self.off.z + self.ext.depth <= self.lvl_d()
        &&& self.dir is ToLinear ==> {
            &&& self.row_stride_B >= self.ext.width
            &&& self.plane_stride_B >= self.ext.height * self.row_stride_B
        }
    }

    /// The rectangle being copied.
    pub open spec fn in_rect(self, x: int, y: int, z: int) -> bool {
        &&& self.off.x <= x < self.off.x + self.ext.width
        &&& self.off.y <= y < self.off.y + self.ext.height
        &&& self.off.z <= z < self.off.z + self.ext.depth
    }

    /// The tile-aligned level.
    pub open spec fn in_level(self, x: int, y: int, z: int) -> bool {
        &&& 0 <= x < self.lvl_w()
        &&& 0 <= y < self.lvl_h()
        &&& 0 <= z < self.lvl_d()
    }

    /// Tiled-buffer address of `(x, y, z)`.
    pub open spec fn taddr(self, x: int, y: int, z: int) -> int {
        tiled_addr(self.tiling, self.ntx as int, self.nty as int, x, y, z)
    }

    /// Linear-buffer address of `(x, y, z)`: the linear buffer starts
    /// at the rectangle's origin.
    pub open spec fn lidx(self, x: int, y: int, z: int) -> int {
        (z - self.off.z) * self.plane_stride_B + (y - self.off.y) * self.row_stride_B
            + (x - self.off.x)
    }

    /// Destination address of `(x, y, z)`.
    pub open spec fn widx(self, x: int, y: int, z: int) -> int {
        if self.dir is ToTiled {
            self.taddr(x, y, z)
        } else {
            self.lidx(x, y, z)
        }
    }

    /// Source address of `(x, y, z)`.
    pub open spec fn ridx(self, x: int, y: int, z: int) -> int {
        if self.dir is ToTiled {
            self.lidx(x, y, z)
        } else {
            self.taddr(x, y, z)
        }
    }

    /// The destination buffer covers everything the copy writes.
    pub open spec fn dst_ok(self, s: Seq<u8>) -> bool {
        if self.dir is ToTiled {
            s.len() >= self.total()
        } else {
            s.len() >= self.lin_size()
        }
    }

    /// The source buffer covers everything the copy reads.
    pub open spec fn src_ok(self, s: Seq<u8>) -> bool {
        if self.dir is ToTiled {
            s.len() >= self.lin_size()
        } else {
            s.len() >= self.total()
        }
    }
}

/// The offset inside a tile stays within the tile.
pub proof fn lemma_tile_rel_bound(t: Tiling, lx: int, ly: int, lz: int)
    requires
        t.wf(),
        t.gob_height_is_8,
        0 <= lx < t.tile_w(),
        0 <= ly < t.tile_h(),
        0 <= lz < t.tile_d(),
    ensures
        0 <= tile_rel_addr(t, lx, ly, lz) < t.tile_size(),
{
    lemma_tiling_bounds(t);
    let gx = t.gobs_x();
    let gy = t.gobs_y();
    let gz = t.gobs_z();
    lemma_mod_pos_bound(lx, 64);
    lemma_mod_pos_bound(ly, 8);
    lemma_gob_addr_inverse((lx % 64) as u32, (ly % 8) as u32);
    lemma_div_range(lx, 64, gx);
    lemma_div_range(ly, 8, gy);
    let gi = lx / 64 + (ly / 8) * gx + lz * (gx * gy);
    lemma_radix3_bound(lx / 64, ly / 8, lz, gx, gy, gz);
    assert(0 <= gi <= gx * gy * gz - 1);
    lemma_mul_inequality(gi, gx * gy * gz - 1, 512);
    assert(t.tile_size() == 512 * (gx * gy * gz)) by (nonlinear_arith)
        requires
            t.tile_size() == (64 * gx) * (spec_gob_height(t.gob_height_is_8) * gy) * gz,
            spec_gob_height(t.gob_height_is_8) == 8;
    lemma_mul_nonnegative(gi, 512);
}

/// The tiled address of a level point stays inside the level.
pub proof fn lemma_taddr_bound(p: CopyParams, x: int, y: int, z: int)
    requires
        p.wf(),
        p.in_level(x, y, z),
    ensures
        0 <= p.taddr(x, y, z) < p.total(),
{
    let t = p.tiling;
    lemma_tiling_bounds(t);
    let tw = t.tile_w();
    let th = t.tile_h();
    let td = t.tile_d();
    let ts = t.tile_size();
    lemma_mod_pos_bound(x, tw);
    lemma_mod_pos_bound(y, th);
    lemma_mod_pos_bound(z, td);
    lemma_tile_rel_bound(t, x % tw, y % th, z % td);
    assert(x < p.ntx * tw) by {
        lemma_mul_is_commutative(p.ntx as int, tw);
    }
    lemma_div_range(x, tw, p.ntx as int);
    lemma_div_range(y, th, p.nty as int);
    lemma_div_range(z, td, p.ntz as int);
    let ti = x / tw + (y / th) * (p.ntx as int) + (z / td) * ((p.ntx as int) * (p.nty as int));
    lemma_radix3_bound(x / tw, y / th, z / td, p.ntx as int, p.nty as int, p.ntz as int);
    let n = (p.ntx as int) * (p.nty as int) * (p.ntz as int);
    assert(0 <= ti <= n - 1);
    lemma_mul_inequality(ti, n - 1, ts);
    lemma_mul_nonnegative(ti, ts);
    assert((n - 1) * ts + ts == n * ts) by (nonlinear_arith);
    assert(p.total() == n * ts) by {
        lemma_mul_is_commutative(p.ntx as int, p.nty as int);
    }
}

/// Distinct points of the aligned level have distinct tiled addresses.
pub proof fn lemma_taddr_inj(p: CopyParams, x1: int, y1: int, z1: int, x2: int, y2: int, z2: int)
    requires
        p.wf(),
        p.in_level(x1, y1, z1),
        p.in_level(x2, y2, z2),
        p.taddr(x1, y1, z1) == p.taddr(x2, y2, z2),
    ensures
        x1 == x2,
        y1 == y2,
        z1 == z2,
{
    let t = p.tiling;
    lemma_tiling_bounds(t);
    let tw = t.tile_w();
    let th = t.tile_h();
    let td = t.tile_d();
    let ts = t.tile_size();
    let gx = t.gobs_x();
    let gy = t.gobs_y();
    let ntx = p.ntx as int;
    let nty = p.nty as int;
    lemma_mod_pos_bound(x1, tw);
    lemma_mod_pos_bound(y1, th);
    lemma_mod_pos_bound(z1, td);
    lemma_mod_pos_bound(x2, tw);
    lemma_mod_pos_bound(y2, th);
    lemma_mod_pos_bound(z2, td);
    lemma_tile_rel_bound(t, x1 % tw, y1 % th, z1 % td);
    lemma_tile_rel_bound(t, x2 % tw, y2 % th, z2 % td);
    let ti1 = x1 / tw + (y1 / th) * ntx + (z1 / td) * (ntx * nty);
    let ti2 = x2 / tw + (y2 / th) * ntx + (z2 / td) * (ntx * nty);
    let r1 = tile_rel_addr(t, x1 % tw, y1 % th, z1 % td);
    let r2 = tile_rel_addr(t, x2 % tw, y2 % th, z2 % td);
    // Split off the tile index.
    assert(x1 < ntx * tw) by { lemma_mul_is_commutative(ntx, tw); }
    assert(x2 < ntx * tw) by { lemma_mul_is_commutative(ntx, tw); }
    lemma_div_range(x1, tw, ntx);
    lemma_div_range(y1, th, nty);
    lemma_div_range(z1, td, p.ntz as int);
    lemma_div_range(x2, tw, ntx);
    lemma_div_range(y2, th, nty);
    lemma_div_range(z2, td, p.ntz as int);
    lemma_radix3_bound(x1 / tw, y1 / th, z1 / td, ntx, nty, p.ntz as int);
    lemma_radix3_bound(x2 / tw, y2 / th, z2 / td, ntx, nty, p.ntz as int);
    lemma_split_unique(ti1, r1, ti2, r2, ts);
    lemma_radix3_unique(
        x1 / tw, y1 / th, z1 / td,
        x2 / tw, y2 / th, z2 / td,
        ntx, nty,
    );
    // Split the offset inside the tile.
    let lx1 = x1 % tw;
    let ly1 = y1 % th;
    let lz1 = z1 % td;
    let lx2 = x2 % tw;
    let ly2 = y2 % th;
    let lz2 = z2 % td;
    let gi1 = lx1 / 64 + (ly1 / 8) * gx + lz1 * (gx * gy);
    let gi2 = lx2 / 64 + (ly2 / 8) * gx + lz2 * (gx * gy);
    lemma_mod_pos_bound(lx1, 64);
    lemma_mod_pos_bound(ly1, 8);
    lemma_mod_pos_bound(lx2, 64);
    lemma_mod_pos_bound(ly2, 8);
    lemma_gob_addr_inverse((lx1 % 64) as u32, (ly1 % 8) as u32);
    lemma_gob_addr_inverse((lx2 % 64) as u32, (ly2 % 8) as u32);
    lemma_div_range(lx1, 64, gx);
    lemma_div_range(ly1, 8, gy);
    lemma_div_range(lx2, 64, gx);
    lemma_div_range(ly2, 8, gy);
    lemma_radix3_bound(lx1 / 64, ly1 / 8, lz1, gx, gy, t.gobs_z());
    lemma_radix3_bound(lx2 / 64, ly2 / 8, lz2, gx, gy, t.gobs_z());
    lemma_split_unique(
        gi1, gob_addr((lx1 % 64) as u32, (ly1 % 8) as u32) as int,
        gi2, gob_addr((lx2 % 64) as u32, (ly2 % 8) as u32) as int,
        512,
    );
    lemma_radix3_unique(lx1 / 64, ly1 / 8, lz1, lx2 / 64, ly2 / 8, lz2, gx, gy);
    lemma_gob_addr_inj(
        (lx1 % 64) as u32, (ly1 % 8) as u32,
        (lx2 % 64) as u32, (ly2 % 8) as u32,
    );
    // Reassemble the coordinates from their digits.
    lemma_fundamental_div_mod(lx1, 64);
    lemma_fundamental_div_mod(lx2, 64);
    lemma_fundamental_div_mod(ly1, 8);
    lemma_fundamental_div_mod(ly2, 8);
    lemma_fundamental_div_mod(x1, tw);
    lemma_fundamental_div_mod(x2, tw);
    lemma_fundamental_div_mod(y1, th);
    lemma_fundamental_div_mod(y2, th);
    lemma_fundamental_div_mod(z1, td);
    lemma_fundamental_div_mod(z2, td);
}

/// The linear index of a rectangle point stays inside the linear view.
pub proof fn lemma_lidx_bound(p: CopyParams, x: int, y: int, z: int)
    requires
        p.wf(),
        p.in_rect(x, y, z),
    ensures
        0 <= p.lidx(x, y, z) < p.lin_size(),
{
    let ux = x - p.off.x;
    let uy = y - p.off.y;
    let uz = z - p.off.z;
    lemma_mul_nonnegative(uy, p.row_stride_B as int);
    lemma_mul_nonnegative(uz, p.plane_stride_B as int);
    lemma_mul_inequality(uy, p.ext.height - 1, p.row_stride_B as int);
    lemma_mul_inequality(uz, p.ext.depth - 1, p.plane_stride_B as int);
}

/// With sane strides, distinct rectangle points have distinct linear
/// indices.
pub proof fn lemma_lidx_inj(p: CopyParams, x1: int, y1: int, z1: int, x2: int, y2: int, z2: int)
    requires
        p.wf(),
        p.dir is ToLinear,
        p.in_rect(x1, y1, z1),
        p.in_rect(x2, y2, z2),
        p.lidx(x1, y1, z1) == p.lidx(x2, y2, z2),
    ensures
        x1 == x2,
        y1 == y2,
        z1 == z2,
{
    let rs = p.row_stride_B as int;
    let ps = p.plane_stride_B as int;
    let h = p.ext.height as int;
    let ux1 = x1 - p.off.x;
    let uy1 = y1 - p.off.y;
    let uz1 = z1 - p.off.z;
    let ux2 = x2 - p.off.x;
    let uy2 = y2 - p.off.y;
    let uz2 = z2 - p.off.z;
    let r1 = ux1 + uy1 * rs;
    let r2 = ux2 + uy2 * rs;
    assert(0 <= r1 < ps && 0 <= r2 < ps) by (nonlinear_arith)
        requires
            r1 == ux1 + uy1 * rs, r2 == ux2 + uy2 * rs,
            0 <= ux1 < rs, 0 <= ux2 < rs,
            0 <= uy1 < h, 0 <= uy2 < h,
            h * rs <= ps;
    assert(p.lidx(x1, y1, z1) == uz1 * ps + r1);
    assert(p.lidx(x2, y2, z2) == uz2 * ps + r2);
    lemma_split_unique(uz1, r1, uz2, r2, ps);
    lemma_split_unique(uy1, ux1, uy2, ux2, rs);
}

/// Both addresses of a rectangle point are in bounds.
pub proof fn lemma_rect_idx(p: CopyParams, x: int, y: int, z: int)
    requires
        p.wf(),
        p.in_rect(x, y, z),
    ensures
        0 <= p.taddr(x, y, z) < p.total(),
        0 <= p.lidx(x, y, z) < p.lin_size(),
{
    lemma_taddr_bound(p, x, y, z);
    lemma_lidx_bound(p, x, y, z);
}

/// A byte inside a GOB sits `gob_addr` bytes past the GOB's base.
pub proof fn lemma_taddr_gob(p: CopyParams, gx0: int, gy0: int, gz0: int, bx: int, by: int)
    requires
        p.wf(),
        0 <= gx0,
        0 <= gy0,
        0 <= gz0,
        gx0 % 64 == 0,
        gy0 % 8 == 0,
        0 <= bx < 64,
        0 <= by < 8,
    ensures
        p.taddr(gx0 + bx, gy0 + by, gz0)
            == p.taddr(gx0, gy0, gz0) + gob_addr(bx as u32, by as u32),
{
    let t = p.tiling;
    lemma_tiling_bounds(t);
    let tw = t.tile_w();
    let th = t.tile_h();
    // The byte stays inside its GOB, hence inside its tile.
    lemma_add_small_block(gx0, bx, 64, tw);
    lemma_add_small_block(gy0, by, 8, th);
    let lx0 = gx0 % tw;
    let ly0 = gy0 % th;
    lemma_mod_pos_bound(gx0, tw);
    lemma_mod_pos_bound(gy0, th);
    lemma_div_mod_aligned(lx0, bx, 64);
    lemma_div_mod_aligned(ly0, by, 8);
    assert(gob_addr(0, 0) == 0) by (bit_vector);
    assert(gob_addr(((lx0 + bx) % 64) as u32, ((ly0 + by) % 8) as u32)
        == gob_addr(bx as u32, by as u32));
}

/// A tile-aligned origin plus an offset inside the tile decomposes the
/// tiled address into the tile base and the offset's place in the tile.
pub proof fn lemma_taddr_tile(p: CopyParams, tox: int, toy: int, toz: int, lx: int, ly: int, lz: int)
    requires
        p.wf(),
        0 <= tox,
        0 <= toy,
        0 <= toz,
        tox % p.tiling.tile_w() == 0,
        toy % p.tiling.tile_h() == 0,
        toz % p.tiling.tile_d() == 0,
        0 <= lx < p.tiling.tile_w(),
        0 <= ly < p.tiling.tile_h(),
        0 <= lz < p.tiling.tile_d(),
    ensures
        p.taddr(tox + lx, toy + ly, toz + lz)
            == p.taddr(tox, toy, toz) + tile_rel_addr(p.tiling, lx, ly, lz),
{
    let t = p.tiling;
    lemma_tiling_bounds(t);
    lemma_div_mod_aligned(tox, lx, t.tile_w());
    lemma_div_mod_aligned(toy, ly, t.tile_h());
    lemma_div_mod_aligned(toz, lz, t.tile_d());
    assert(gob_addr(0, 0) == 0) by (bit_vector);
}

/// At a GOB-aligned offset inside the tile, the block-linear GOB layout
/// is plain multiplication: 8 bytes of GOB column per byte of x, one
/// GOB row per 8 bytes of y, one GOB slice per byte of z.
pub proof fn lemma_tile_rel_gob(t: Tiling, lx: int, ly: int, lz: int)
    requires
        t.wf(),
        t.gob_height_is_8,
        0 <= lx < t.tile_w(),
        lx % 64 == 0,
        0 <= ly < t.tile_h(),
        ly % 8 == 0,
        0 <= lz < t.tile_d(),
    ensures
        tile_rel_addr(t, lx, ly, lz)
            == lx * (8 * 1) + ly * (t.tile_w() * 1) + lz * (t.tile_w() * t.tile_h()),
{
    lemma_tiling_bounds(t);
    let gx = t.gobs_x();
    let gy = t.gobs_y();
    lemma_fundamental_div_mod(lx, 64);
    lemma_fundamental_div_mod(ly, 8);
    lemma_mod_pos_bound(lx, 64);
    lemma_mod_pos_bound(ly, 8);
    assert(gob_addr(0, 0) == 0) by (bit_vector);
    assert((lx / 64 + (ly / 8) * gx + lz * (gx * gy)) * 512
        == lx * 8 + ly * (64 * gx) + lz * ((64 * gx) * (8 * gy))) by (nonlinear_arith)
        requires
            lx == 64 * (lx / 64),
            ly == 8 * (ly / 8);
}

/// At a tile-aligned level position, the tiled address is plain
/// multiplication by the level's block strides.
pub proof fn lemma_taddr_tile_origin(p: CopyParams, x: int, y: int, z: int)
    requires
        p.wf(),
        0 <= x,
        0 <= y,
        0 <= z,
        x % p.tiling.tile_w() == 0,
        y % p.tiling.tile_h() == 0,
        z % p.tiling.tile_d() == 0,
    ensures
        p.taddr(x, y, z) == x * (p.tiling.tile_h() * p.tiling.tile_d())
            + y * (p.lvl_w() * p.tiling.tile_d())
            + z * (p.lvl_w() * p.lvl_h()),
{
    let t = p.tiling;
    lemma_tiling_bounds(t);
    let tw = t.tile_w();
    let th = t.tile_h();
    let td = t.tile_d();
    let ts = t.tile_size();
    let ntx = p.ntx as int;
    let nty = p.nty as int;
    lemma_fundamental_div_mod(x, tw);
    lemma_fundamental_div_mod(y, th);
    lemma_fundamental_div_mod(z, td);
    lemma_mod_pos_bound(x, tw);
    lemma_mod_pos_bound(y, th);
    lemma_mod_pos_bound(z, td);
    assert(gob_addr(0, 0) == 0) by (bit_vector);
    vstd::arithmetic::div_mod::lemma_div_of0(64);
    vstd::arithmetic::div_mod::lemma_div_of0(8);
    vstd::arithmetic::div_mod::lemma_small_mod(0, 64);
    vstd::arithmetic::div_mod::lemma_small_mod(0, 8);
    assert(tile_rel_addr(t, 0, 0, 0) == 0);
    let qx = x / tw;
    let qy = y / th;
    let qz = z / td;
    assert(qx * ts == x * (th * td)) by (nonlinear_arith)
        requires x == tw * qx, ts == tw * th * td;
    assert((qy * ntx) * ts == y * ((ntx * tw) * td)) by (nonlinear_arith)
        requires y == th * qy, ts == tw * th * td;
    assert((qz * (ntx * nty)) * ts == z * ((ntx * tw) * (nty * th))) by (nonlinear_arith)
        requires z == td * qz, ts == tw * th * td;
    assert((qx + qy * ntx + qz * (ntx * nty)) * ts
        == qx * ts + (qy * ntx) * ts + (qz * (ntx * nty)) * ts) by (nonlinear_arith);
}

/// The destination address map is injective on the rectangle.
pub proof fn lemma_widx_inj(p: CopyParams, x1: int, y1: int, z1: int, x2: int, y2: int, z2: int)
    requires
        p.wf(),
        p.in_rect(x1, y1, z1),
        p.in_rect(x2, y2, z2),
        p.widx(x1, y1, z1) == p.widx(x2, y2, z2),
    ensures
        x1 == x2,
        y1 == y2,
        z1 == z2,
{
    if p.dir is ToTiled {
        lemma_taddr_inj(p, x1, y1, z1, x2, y2, z2);
    } else {
        lemma_lidx_inj(p, x1, y1, z1, x2, y2, z2);
    }
}

/// The half-open box `[l, h)` in three dimensions.
pub open spec fn in_region(
    lx: int, ly: int, lz: int, hx: int, hy: int, hz: int, x: int, y: int, z: int,
) -> bool {
    &&& lx <= x < hx
    &&& ly <= y < hy
    &&& lz <= z < hz
}

/// Some point of the box writes the destination index `i`.
pub open spec fn region_writes(
    p: CopyParams, lx: int, ly: int, lz: int, hx: int, hy: int, hz: int, i: int,
) -> bool {
    exists|x: int, y: int, z: int|
        in_region(lx, ly, lz, hx, hy, hz, x, y, z) && #[trigger] p.widx(x, y, z) == i
}

/// The box has been copied: every point's destination byte equals its
/// source byte, and every destination index written by no box point
/// keeps its old value.
pub open spec fn region_copied(
    p: CopyParams, d0: Seq<u8>, d1: Seq<u8>, src: Seq<u8>,
    lx: int, ly: int, lz: int, hx: int, hy: int, hz: int,
) -> bool {
    &&& d1.len() == d0.len()
    &&& forall|x: int, y: int, z: int|
        in_region(lx, ly, lz, hx, hy, hz, x, y, z)
            ==> d1[#[trigger] p.widx(x, y, z)] == src[p.ridx(x, y, z)]
    &&& forall|i: int|
        0 <= i < d1.len() && !region_writes(p, lx, ly, lz, hx, hy, hz, i)
            ==> #[trigger] d1[i] == d0[i]
}

/// The point lies in the chunk's clip region translated by `to`.
pub open spec fn in_chunk_region(c: Chunk4D, to: Offset4D, x: int, y: int, z: int) -> bool {
    in_region(
        to.x + c.origin.x + c.start.x,
        to.y + c.origin.y + c.start.y,
        to.z + c.origin.z + c.start.z,
        to.x + c.origin.x + c.end.x,
        to.y + c.origin.y + c.end.y,
        to.z + c.origin.z + c.end.z,
        x, y, z,
    )
}

/// The point lies in one of the first `k` chunks' regions.
pub open spec fn covered_upto(cs: Seq<Chunk4D>, to: Offset4D, k: int, x: int, y: int, z: int) -> bool {
    exists|j: int| 0 <= j < k && #[trigger] in_chunk_region(cs[j], to, x, y, z)
}

/// Some point of the first `k` chunks' regions writes index `i`.
pub open spec fn writes_upto(
    p: CopyParams, cs: Seq<Chunk4D>, to: Offset4D, k: int, i: int,
) -> bool {
    exists|j: int, x: int, y: int, z: int|
        #![trigger in_chunk_region(cs[j], to, x, y, z), p.widx(x, y, z)]
        0 <= j < k && in_chunk_region(cs[j], to, x, y, z) && p.widx(x, y, z) == i
}

/// Every point covered by the first `k` chunks carries its source byte.
pub open spec fn values_ok(
    p: CopyParams, d: Seq<u8>, src: Seq<u8>, cs: Seq<Chunk4D>, to: Offset4D, k: int,
) -> bool {
    forall|x: int, y: int, z: int|
        covered_upto(cs, to, k, x, y, z)
            ==> d[#[trigger] p.widx(x, y, z)] == src[p.ridx(x, y, z)]
}

/// Every index not written by the first `k` chunks keeps its old value.
pub open spec fn untouched_ok(
    p: CopyParams, d0: Seq<u8>, d: Seq<u8>, cs: Seq<Chunk4D>, to: Offset4D, k: int,
) -> bool {
    forall|i: int|
        0 <= i < d.len() && !writes_upto(p, cs, to, k, i) ==> #[trigger] d[i] == d0[i]
}

/// A chunk list fit for the copy loops: well-formed clips of the local
/// box `[start, end)`, no repeated chunk, and the whole box inside the
/// copy rectangle once translated by `to`.
pub open spec fn chunks_ok(
    p: CopyParams, cs: Seq<Chunk4D>, to: Offset4D,
    start: Offset4D, end: Offset4D, chunk: Extent4D,
) -> bool {
    &&& 1 <= chunk.width
    &&& 1 <= chunk.height
    &&& 1 <= chunk.depth
    &&& forall|j: int| 0 <= j < cs.len() ==> chunk_wf(#[trigger] cs[j], start, end, chunk)
    &&& forall|j1: int, j2: int|
        0 <= j1 < cs.len() && 0 <= j2 < cs.len() && j1 != j2
            ==> (#[trigger] cs[j1]).origin != (#[trigger] cs[j2]).origin
    &&& forall|x: int, y: int, z: int|
        #[trigger] in_box(start, end, x, y, z)
            ==> p.in_rect(to.x + x, to.y + y, to.z + z)
}

/// After one more chunk's region has been copied, the loop facts carry
/// from `k` to `k + 1` chunks.
pub proof fn lemma_copy_step(
    p: CopyParams, d0: Seq<u8>, d1: Seq<u8>, d2: Seq<u8>, src: Seq<u8>,
    cs: Seq<Chunk4D>, to: Offset4D, start: Offset4D, end: Offset4D, chunk: Extent4D, k: int,
)
    requires
        p.wf(),
        p.dst_ok(d0),
        chunks_ok(p, cs, to, start, end, chunk),
        0 <= k < cs.len(),
        d1.len() == d0.len(),
        values_ok(p, d1, src, cs, to, k),
        untouched_ok(p, d0, d1, cs, to, k),
        region_copied(
            p, d1, d2, src,
            to.x + cs[k].origin.x + cs[k].start.x,
            to.y + cs[k].origin.y + cs[k].start.y,
            to.z + cs[k].origin.z + cs[k].start.z,
            to.x + cs[k].origin.x + cs[k].end.x,
            to.y + cs[k].origin.y + cs[k].end.y,
            to.z + cs[k].origin.z + cs[k].end.z,
        ),
    ensures
        d2.len() == d0.len(),
        values_ok(p, d2, src, cs, to, k + 1),
        untouched_ok(p, d0, d2, cs, to, k + 1),
{
    let c = cs[k];
    let rlx = to.x + c.origin.x + c.start.x;
    let rly = to.y + c.origin.y + c.start.y;
    let rlz = to.z + c.origin.z + c.start.z;
    let rhx = to.x + c.origin.x + c.end.x;
    let rhy = to.y + c.origin.y + c.end.y;
    let rhz = to.z + c.origin.z + c.end.z;
    assert forall|x: int, y: int, z: int| covered_upto(cs, to, k + 1, x, y, z)
        implies d2[#[trigger] p.widx(x, y, z)] == src[p.ridx(x, y, z)]
    by {
        let j = choose|j: int| 0 <= j < k + 1 && #[trigger] in_chunk_region(cs[j], to, x, y, z);
        lemma_chunk_region(cs[j], start, end, chunk, x - to.x, y - to.y, z - to.z);
        assert(in_box(start, end, x - to.x, y - to.y, z - to.z));
        assert(p.in_rect(x, y, z));
        if j == k {
            assert(in_region(rlx, rly, rlz, rhx, rhy, rhz, x, y, z));
        } else {
            assert(covered_upto(cs, to, k, x, y, z));
            assert(d1[p.widx(x, y, z)] == src[p.ridx(x, y, z)]);
            lemma_rect_idx(p, x, y, z);
            assert(0 <= p.widx(x, y, z) < d1.len());
            if region_writes(p, rlx, rly, rlz, rhx, rhy, rhz, p.widx(x, y, z)) {
                let (x2, y2, z2) = choose|x2: int, y2: int, z2: int|
                    in_region(rlx, rly, rlz, rhx, rhy, rhz, x2, y2, z2)
                        && #[trigger] p.widx(x2, y2, z2) == p.widx(x, y, z);
                lemma_chunk_region(cs[k], start, end, chunk, x2 - to.x, y2 - to.y, z2 - to.z);
                assert(p.in_rect(x2, y2, z2));
                lemma_widx_inj(p, x, y, z, x2, y2, z2);
                // The point would lie in two different chunks' cells.
                assert(cs[j].origin == cs[k].origin);
                assert(false);
            }
            assert(d2[p.widx(x, y, z)] == d1[p.widx(x, y, z)]);
        }
    };
    assert forall|i: int| 0 <= i < d2.len() && !writes_upto(p, cs, to, k + 1, i)
        implies #[trigger] d2[i] == d0[i]
    by {
        assert(!writes_upto(p, cs, to, k, i)) by {
            if writes_upto(p, cs, to, k, i) {
                let (j, x, y, z) = choose|j: int, x: int, y: int, z: int|
                    #![trigger in_chunk_region(cs[j], to, x, y, z), p.widx(x, y, z)]
                    0 <= j < k && in_chunk_region(cs[j], to, x, y, z) && p.widx(x, y, z) == i;
                assert(0 <= j < k + 1 && in_chunk_region(cs[j], to, x, y, z)
                    && p.widx(x, y, z) == i);
            }
        }
        assert(!region_writes(p, rlx, rly, rlz, rhx, rhy, rhz, i)) by {
            if region_writes(p, rlx, rly, rlz, rhx, rhy, rhz, i) {
                let (x, y, z) = choose|x: int, y: int, z: int|
                    in_region(rlx, rly, rlz, rhx, rhy, rhz, x, y, z)
                        && #[trigger] p.widx(x, y, z) == i;
                assert(in_chunk_region(cs[k], to, x, y, z) && p.widx(x, y, z) == i);
                assert(writes_upto(p, cs, to, k + 1, i));
            }
        }
        assert(d2[i] == d1[i]);
    };
}

/// When every chunk of a complete partition has been copied, the whole
/// clip box has been copied.
pub proof fn lemma_copy_finish(
    p: CopyParams, d0: Seq<u8>, d: Seq<u8>, src: Seq<u8>,
    cs: Seq<Chunk4D>, to: Offset4D, start: Offset4D, end: Offset4D, chunk: Extent4D,
)
    requires
        p.wf(),
        chunks_ok(p, cs, to, start, end, chunk),
        forall|x: int, y: int, z: int|
            #[trigger] in_box(start, end, x, y, z) ==> covered(cs, x, y, z),
        d.len() == d0.len(),
        values_ok(p, d, src, cs, to, cs.len() as int),
        untouched_ok(p, d0, d, cs, to, cs.len() as int),
    ensures
        region_copied(
            p, d0, d, src,
            to.x + start.x, to.y + start.y, to.z + start.z,
            to.x + end.x, to.y + end.y, to.z + end.z,
        ),
{
    let n = cs.len() as int;
    assert forall|x: int, y: int, z: int|
        in_region(
            to.x + start.x, to.y + start.y, to.z + start.z,
            to.x + end.x, to.y + end.y, to.z + end.z, x, y, z)
        implies d[#[trigger] p.widx(x, y, z)] == src[p.ridx(x, y, z)]
    by {
        assert(in_box(start, end, x - to.x, y - to.y, z - to.z));
        assert(covered(cs, x - to.x, y - to.y, z - to.z));
        let j = choose|j: int|
            0 <= j < cs.len() && #[trigger] chunk_contains(cs[j], x - to.x, y - to.y, z - to.z);
        assert(in_chunk_region(cs[j], to, x, y, z));
        assert(covered_upto(cs, to, n, x, y, z));
    };
    assert forall|i: int|
        0 <= i < d.len() && !region_writes(
            p, to.x + start.x, to.y + start.y, to.z + start.z,
            to.x + end.x, to.y + end.y, to.z + end.z, i)
        implies #[trigger] d[i] == d0[i]
    by {
        assert(!writes_upto(p, cs, to, n, i)) by {
            if writes_upto(p, cs, to, n, i) {
                let (j, x, y, z) = choose|j: int, x: int, y: int, z: int|
                    #![trigger in_chunk_region(cs[j], to, x, y, z), p.widx(x, y, z)]
                    0 <= j < n && in_chunk_region(cs[j], to, x, y, z) && p.widx(x, y, z) == i;
                lemma_chunk_region(cs[j], start, end, chunk, x - to.x, y - to.y, z - to.z);
                assert(in_box(start, end, x - to.x, y - to.y, z - to.z));
                assert(in_region(
                    to.x + start.x, to.y + start.y, to.z + start.z,
                    to.x + end.x, to.y + end.y, to.z + end.z, x, y, z));
                assert(region_writes(
                    p, to.x + start.x, to.y + start.y, to.z + start.z,
                    to.x + end.x, to.y + end.y, to.z + end.z, i));
            }
        }
    };
}

/// The coordinate requirements of a GOB copy: `go` is the GOB's global
/// origin, `[start, end)` the clip inside the GOB, and the clipped
/// region lies inside the copy rectangle.
pub open spec fn gob_clip_ok(p: CopyParams, go: Offset4D, start: Offset4D, end: Offset4D) -> bool {
    &&& go.a == 0
    &&& go.x % 64 == 0
    &&& go.y % 8 == 0
    &&& start.x < end.x <= 64
    &&& start.y < end.y <= 8
    &&& start.z == 0
    &&& end.z == 1
    &&& p.in_rect(go.x + start.x, go.y + start.y, go.z as int)
    &&& p.in_rect(go.x + end.x - 1, go.y + end.y - 1, go.z as int)
}

/// What `gob2d_for_each_16b` returns.
pub open spec fn lines_ok(ls: Seq<(u32, u32, u32)>) -> bool {
    &&& ls.len() == 32
    &&& forall|j: int| 0 <= j < 32 ==> {
        let l = #[trigger] ls[j];
        &&& l.0 == 16 * j
        &&& l.1 < 64
        &&& l.1 % 16 == 0
        &&& l.2 < 8
        &&& gob_addr(l.1, l.2) == l.0
    }
}

pub open spec fn line_lx(l: (u32, u32, u32), go: Offset4D, start: Offset4D) -> int {
    go.x + if l.1 < start.x { start.x as int } else { l.1 as int }
}

pub open spec fn line_hx(l: (u32, u32, u32), go: Offset4D, end: Offset4D) -> int {
    go.x + if l.1 + 16 < end.x { (l.1 + 16) as int } else { end.x as int }
}

pub open spec fn line_ly(l: (u32, u32, u32), go: Offset4D, start: Offset4D) -> int {
    go.y + if l.2 < start.y { start.y as int } else { l.2 as int }
}

pub open spec fn line_hy(l: (u32, u32, u32), go: Offset4D, end: Offset4D) -> int {
    go.y + if l.2 + 1 < end.y { (l.2 + 1) as int } else { end.y as int }
}

/// The part of the clip region belonging to one 16-byte line.
pub open spec fn in_line_region(
    l: (u32, u32, u32), go: Offset4D, start: Offset4D, end: Offset4D,
    x: int, y: int, z: int,
) -> bool {
    in_region(
        line_lx(l, go, start), line_ly(l, go, start), go.z as int,
        line_hx(l, go, end), line_hy(l, go, end), go.z + 1,
        x, y, z,
    )
}

/// The point lies in one of the first `k` lines' regions.
pub open spec fn line_covered_upto(
    ls: Seq<(u32, u32, u32)>, go: Offset4D, start: Offset4D, end: Offset4D,
    k: int, x: int, y: int, z: int,
) -> bool {
    exists|j: int| 0 <= j < k && #[trigger] in_line_region(ls[j], go, start, end, x, y, z)
}

/// Some point of the first `k` lines' regions writes index `i`.
pub open spec fn line_writes_upto(
    p: CopyParams, ls: Seq<(u32, u32, u32)>, go: Offset4D, start: Offset4D, end: Offset4D,
    k: int, i: int,
) -> bool {
    exists|j: int, x: int, y: int, z: int|
        #![trigger in_line_region(ls[j], go, start, end, x, y, z), p.widx(x, y, z)]
        0 <= j < k && in_line_region(ls[j], go, start, end, x, y, z) && p.widx(x, y, z) == i
}

pub open spec fn line_values_ok(
    p: CopyParams, d: Seq<u8>, src: Seq<u8>,
    ls: Seq<(u32, u32, u32)>, go: Offset4D, start: Offset4D, end: Offset4D, k: int,
) -> bool {
    forall|x: int, y: int, z: int|
        line_covered_upto(ls, go, start, end, k, x, y, z)
            ==> d[#[trigger] p.widx(x, y, z)] == src[p.ridx(x, y, z)]
}

pub open spec fn line_untouched_ok(
    p: CopyParams, d0: Seq<u8>, d: Seq<u8>,
    ls: Seq<(u32, u32, u32)>, go: Offset4D, start: Offset4D, end: Offset4D, k: int,
) -> bool {
    forall|i: int|
        0 <= i < d.len() && !line_writes_upto(p, ls, go, start, end, k, i)
            ==> #[trigger] d[i] == d0[i]
}

/// A point of a line's region is a byte of the GOB and of the copy
/// rectangle, and its two addresses are offsets from the line's start.
proof fn lemma_line_point(
    p: CopyParams, l: (u32, u32, u32), go: Offset4D, start: Offset4D, end: Offset4D,
    x: int, y: int, z: int,
)
    requires
        p.wf(),
        gob_clip_ok(p, go, start, end),
        l.1 < 64,
        l.1 % 16 == 0,
        l.2 < 8,
        in_line_region(l, go, start, end, x, y, z),
    ensures
        p.in_rect(x, y, z),
        y - go.y == l.2,
        l.1 <= x - go.x < l.1 + 16,
        start.x <= x - go.x < end.x,
        start.y <= y - go.y < end.y,
        z == go.z,
        p.taddr(x, y, z) == p.taddr(go.x as int, go.y as int, go.z as int)
            + gob_addr(l.1, l.2) + (x - go.x - l.1),
{
    let bx = x - go.x;
    let by = y - go.y;
    lemma_taddr_gob(p, go.x as int, go.y as int, go.z as int, bx, by);
    lemma_gob_addr_line(l.1, (bx - l.1) as u32, l.2);
    assert(gob_addr(bx as u32, by as u32) == gob_addr(l.1, l.2) + (bx - l.1));
}

/// Turns the flat byte-copy facts for one line into `region_copied`
/// over that line's region.
proof fn lemma_line_copied(
    p: CopyParams, d1: Seq<u8>, d2: Seq<u8>, src: Seq<u8>,
    ls: Seq<(u32, u32, u32)>, go: Offset4D, start: Offset4D, end: Offset4D, k: int,
    w: int, r: int, n: int,
)
    requires
        p.wf(),
        gob_clip_ok(p, go, start, end),
        lines_ok(ls),
        0 <= k < 32,
        line_lx(ls[k], go, start) < line_hx(ls[k], go, end),
        line_ly(ls[k], go, start) < line_hy(ls[k], go, end),
        w == p.widx(line_lx(ls[k], go, start), line_ly(ls[k], go, start), go.z as int),
        r == p.ridx(line_lx(ls[k], go, start), line_ly(ls[k], go, start), go.z as int),
        n == line_hx(ls[k], go, end) - line_lx(ls[k], go, start),
        d2.len() == d1.len(),
        forall|i: int| w <= i < w + n ==> #[trigger] d2[i] == src[i - w + r],
        forall|i: int| 0 <= i < d2.len() && !(w <= i < w + n) ==> #[trigger] d2[i] == d1[i],
    ensures
        region_copied(
            p, d1, d2, src,
            line_lx(ls[k], go, start), line_ly(ls[k], go, start), go.z as int,
            line_hx(ls[k], go, end), line_hy(ls[k], go, end), go.z + 1,
        ),
{
    let l = ls[k];
    let lx = line_lx(l, go, start);
    let ly = line_ly(l, go, start);
    let hx = line_hx(l, go, end);
    let hy = line_hy(l, go, end);
    let z0 = go.z as int;
    // Every point of the line region writes w + its x distance and
    // reads r + the same distance.
    assert forall|x: int, y: int, z: int|
        in_region(lx, ly, z0, hx, hy, go.z + 1, x, y, z)
        implies p.widx(x, y, z) == w + (x - lx) && p.ridx(x, y, z) == r + (x - lx)
            && p.in_rect(x, y, z)
    by {
        lemma_line_point(p, l, go, start, end, x, y, z);
        lemma_line_point(p, l, go, start, end, lx, ly, z0);
    };
    assert forall|x: int, y: int, z: int|
        in_region(lx, ly, z0, hx, hy, go.z + 1, x, y, z)
        implies d2[#[trigger] p.widx(x, y, z)] == src[p.ridx(x, y, z)]
    by {
        assert(p.widx(x, y, z) == w + (x - lx));
        assert(0 <= x - lx < n);
    };
    assert forall|i: int|
        0 <= i < d2.len() && !region_writes(p, lx, ly, z0, hx, hy, go.z + 1, i)
        implies #[trigger] d2[i] == d1[i]
    by {
        if w <= i < w + n {
            let x = lx + (i - w);
            assert(in_region(lx, ly, z0, hx, hy, go.z + 1, x, ly, z0));
            assert(p.widx(x, ly, z0) == w + (x - lx) == i);
            assert(region_writes(p, lx, ly, z0, hx, hy, go.z + 1, i));
        }
    };
}

/// After one more line has been copied, the loop facts carry from `k`
/// to `k + 1` lines.
proof fn lemma_line_step(
    p: CopyParams, d0: Seq<u8>, d1: Seq<u8>, d2: Seq<u8>, src: Seq<u8>,
    ls: Seq<(u32, u32, u32)>, go: Offset4D, start: Offset4D, end: Offset4D, k: int,
)
    requires
        p.wf(),
        p.dst_ok(d0),
        gob_clip_ok(p, go, start, end),
        lines_ok(ls),
        0 <= k < 32,
        d1.len() == d0.len(),
        line_values_ok(p, d1, src, ls, go, start, end, k),
        line_untouched_ok(p, d0, d1, ls, go, start, end, k),
        region_copied(
            p, d1, d2, src,
            line_lx(ls[k], go, start), line_ly(ls[k], go, start), go.z as int,
            line_hx(ls[k], go, end), line_hy(ls[k], go, end), go.z + 1,
        ),
    ensures
        d2.len() == d0.len(),
        line_values_ok(p, d2, src, ls, go, start, end, k + 1),
        line_untouched_ok(p, d0, d2, ls, go, start, end, k + 1),
{
    let lx = line_lx(ls[k], go, start);
    let ly = line_ly(ls[k], go, start);
    let hx = line_hx(ls[k], go, end);
    let hy = line_hy(ls[k], go, end);
    let z0 = go.z as int;
    assert forall|x: int, y: int, z: int| line_covered_upto(ls, go, start, end, k + 1, x, y, z)
        implies d2[#[trigger] p.widx(x, y, z)] == src[p.ridx(x, y, z)]
    by {
        let j = choose|j: int|
            0 <= j < k + 1 && #[trigger] in_line_region(ls[j], go, start, end, x, y, z);
        lemma_line_point(p, ls[j], go, start, end, x, y, z);
        if j == k {
            assert(in_region(lx, ly, z0, hx, hy, go.z + 1, x, y, z));
        } else {
            assert(line_covered_upto(ls, go, start, end, k, x, y, z));
            assert(d1[p.widx(x, y, z)] == src[p.ridx(x, y, z)]);
            lemma_rect_idx(p, x, y, z);
            if region_writes(p, lx, ly, z0, hx, hy, go.z + 1, p.widx(x, y, z)) {
                let (x2, y2, z2) = choose|x2: int, y2: int, z2: int|
                    in_region(lx, ly, z0, hx, hy, go.z + 1, x2, y2, z2)
                        && #[trigger] p.widx(x2, y2, z2) == p.widx(x, y, z);
                lemma_line_point(p, ls[k], go, start, end, x2, y2, z2);
                lemma_widx_inj(p, x, y, z, x2, y2, z2);
                // The byte would belong to two different lines.
                assert(ls[j].2 == ls[k].2);
                lemma_align_down_16(x - go.x, ls[j].1 as int);
                lemma_align_down_16(x - go.x, ls[k].1 as int);
                assert(ls[j].1 == ls[k].1);
                assert(ls[j].0 == ls[k].0);
                assert(false);
            }
            assert(d2[p.widx(x, y, z)] == d1[p.widx(x, y, z)]);
        }
    };
    assert forall|i: int| 0 <= i < d2.len() && !line_writes_upto(p, ls, go, start, end, k + 1, i)
        implies #[trigger] d2[i] == d0[i]
    by {
        assert(!line_writes_upto(p, ls, go, start, end, k, i)) by {
            if line_writes_upto(p, ls, go, start, end, k, i) {
                let (j, x, y, z) = choose|j: int, x: int, y: int, z: int|
                    #![trigger in_line_region(ls[j], go, start, end, x, y, z), p.widx(x, y, z)]
                    0 <= j < k && in_line_region(ls[j], go, start, end, x, y, z)
                        && p.widx(x, y, z) == i;
                assert(0 <= j < k + 1 && in_line_region(ls[j], go, start, end, x, y, z)
                    && p.widx(x, y, z) == i);
            }
        }
        assert(!region_writes(p, lx, ly, z0, hx, hy, go.z + 1, i)) by {
            if region_writes(p, lx, ly, z0, hx, hy, go.z + 1, i) {
                let (x, y, z) = choose|x: int, y: int, z: int|
                    in_region(lx, ly, z0, hx, hy, go.z + 1, x, y, z)
                        && #[trigger] p.widx(x, y, z) == i;
                assert(in_line_region(ls[k], go, start, end, x, y, z));
                assert(line_writes_upto(p, ls, go, start, end, k + 1, i));
            }
        }
        assert(d2[i] == d1[i]);
    };
}

/// A byte with `a <= b < a + 16` and 16-aligned `a` determines `a`.
proof fn lemma_align_down_16(b: int, a: int)
    requires
        0 <= a,
        a % 16 == 0,
        a <= b < a + 16,
    ensures
        a == b - b % 16,
{
    lemma_div_mod_aligned(a, b - a, 16);
}

/// The linear-buffer index of a rectangle point.
fn linear_index(p: CopyParams, x: u32, y: u32, z: u32) -> (i: usize)
    requires
        p.wf(),
        p.in_rect(x as int, y as int, z as int),
    ensures
        i == p.lidx(x as int, y as int, z as int),
{
    proof {
        reveal(vstd::arithmetic::power2::is_pow2);
    }
    let lp = LinearPointer::new(0, 1, p.row_stride_B, p.plane_stride_B);
    let o = Offset4D::new(x - p.off.x, y - p.off.y, z - p.off.z, 0);
    proof {
        lemma_lidx_bound(p, x as int, y as int, z as int);
        vstd::arithmetic::div_mod::lemma_div_basics(o.x as int);
    }
    lp.at(o)
}

/// Copy the clip `[start, end)` of the GOB at global origin `go` and
/// tiled base `gob_base`, 16-byte line by 16-byte line, clipping each
/// line against the rectangle.
#[verifier::loop_isolation(false)]
pub fn copy_gob(
    p: CopyParams, dst: &mut Vec<u8>, src: &Vec<u8>,
    gob_base: usize, go: Offset4D, start: Offset4D, end: Offset4D,
)
    requires
        p.wf(),
        p.dst_ok(old(dst)@),
        p.src_ok(src@),
        gob_clip_ok(p, go, start, end),
        gob_base == p.taddr(go.x as int, go.y as int, go.z as int),
    ensures
        final(dst).len() == old(dst).len(),
        region_copied(
            p, old(dst)@, final(dst)@, src@,
            go.x + start.x, go.y + start.y, go.z as int,
            go.x + end.x, go.y + end.y, go.z + 1,
        ),
{
    let lines = gob2d_for_each_16b();
    proof {
        assert(lines_ok(lines@));
    }
    let mut k: usize = 0;
    while k < 32
        invariant
            k <= 32,
            dst.len() == old(dst).len(),
            line_values_ok(p, dst@, src@, lines@, go, start, end, k as int),
            line_untouched_ok(p, old(dst)@, dst@, lines@, go, start, end, k as int),
        decreases 32 - k,
    {
        let line = lines[k];
        let off = line.0;
        let lx = line.1;
        let ly = line.2;
        let lo = if lx < start.x { start.x } else { lx };
        let hi = if lx + 16 < end.x { lx + 16 } else { end.x };
        let ghost d_prev = dst@;
        if start.y <= ly && ly < end.y && lo < hi {
            let gx0 = go.x + lo;
            let gy0 = go.y + ly;
            proof {
                assert(line == lines@[k as int]);
                assert(gx0 == line_lx(line, go, start) && gy0 == line_ly(line, go, start));
                lemma_line_point(p, line, go, start, end, gx0 as int, gy0 as int, go.z as int);
                lemma_line_point(p, line, go, start, end,
                    go.x + hi - 1, gy0 as int, go.z as int);
                lemma_rect_idx(p, gx0 as int, gy0 as int, go.z as int);
                lemma_rect_idx(p, go.x + hi - 1, gy0 as int, go.z as int);
            }
            let ti = gob_base + (off as usize) + ((lo - lx) as usize);
            let n = (hi - lo) as usize;
            let li = linear_index(p, gx0, gy0, go.z);
            proof {
                assert(ti == p.taddr(gx0 as int, gy0 as int, go.z as int));
                assert(ti + n - 1 == p.taddr(go.x + hi - 1, gy0 as int, go.z as int));
                assert(li + n - 1 == p.lidx(go.x + hi - 1, gy0 as int, go.z as int));
            }
            match p.dir {
                CopyDir::ToTiled => copy_bytes(dst, ti, src, li, n),
                CopyDir::ToLinear => copy_bytes(dst, li, src, ti, n),
            }
            proof {
                let w = if p.dir is ToTiled { ti as int } else { li as int };
                let r = if p.dir is ToTiled { li as int } else { ti as int };
                lemma_line_copied(
                    p, d_prev, dst@, src@, lines@, go, start, end, k as int,
                    w, r, n as int,
                );
                lemma_line_step(
                    p, old(dst)@, d_prev, dst@, src@, lines@, go, start, end, k as int,
                );
            }
        } else {
            proof {
                let l = lines@[k as int];
                assert forall|x: int, y: int, z: int|
                    !in_line_region(l, go, start, end, x, y, z)
                by {
                    if in_line_region(l, go, start, end, x, y, z) {
                        assert(line_ly(l, go, start) <= y < line_hy(l, go, end));
                        assert(line_lx(l, go, start) <= x < line_hx(l, go, end));
                        assert(start.y <= ly && ly < end.y && lo < hi);
                    }
                };
                assert forall|x: int, y: int, z: int|
                    line_covered_upto(lines@, go, start, end, k + 1, x, y, z)
                    implies dst@[#[trigger] p.widx(x, y, z)] == src@[p.ridx(x, y, z)]
                by {
                    let j = choose|j: int|
                        0 <= j < k + 1
                            && #[trigger] in_line_region(lines@[j], go, start, end, x, y, z);
                    assert(j < k);
                    assert(line_covered_upto(lines@, go, start, end, k as int, x, y, z));
                };
                assert forall|i: int|
                    0 <= i < dst@.len()
                        && !line_writes_upto(p, lines@, go, start, end, k + 1, i)
                    implies #[trigger] dst@[i] == old(dst)@[i]
                by {
                    assert(!line_writes_upto(p, lines@, go, start, end, k as int, i)) by {
                        if line_writes_upto(p, lines@, go, start, end, k as int, i) {
                            let (j, x, y, z) = choose|j: int, x: int, y: int, z: int|
                                #![trigger in_line_region(lines@[j], go, start, end, x, y, z),
                                    p.widx(x, y, z)]
                                0 <= j < k
                                    && in_line_region(lines@[j], go, start, end, x, y, z)
                                    && p.widx(x, y, z) == i;
                            assert(0 <= j < k + 1
                                && in_line_region(lines@[j], go, start, end, x, y, z)
                                && p.widx(x, y, z) == i);
                        }
                    }
                };
            }
        }
        k = k + 1;
    }
    proof {
        let glx = go.x + start.x;
        let gly = go.y + start.y;
        let glz = go.z as int;
        let ghx = go.x + end.x;
        let ghy = go.y + end.y;
        let ghz = go.z + 1;
        assert forall|x: int, y: int, z: int| in_region(glx, gly, glz, ghx, ghy, ghz, x, y, z)
            implies dst@[#[trigger] p.widx(x, y, z)] == src@[p.ridx(x, y, z)]
        by {
            let bx = x - go.x;
            let by = y - go.y;
            crate::partition::lemma_align_down(bx, 16);
            let a = bx - bx % 16;
            lemma_gob_addr_inverse(a as u32, by as u32);
            let o = gob_addr(a as u32, by as u32);
            lemma_div_range(o as int, 16, 32);
            lemma_fundamental_div_mod(o as int, 16);
            let j = o as int / 16;
            assert(16 * j == o);
            let l = lines@[j];
            assert(l.0 == 16 * j && gob_addr(l.1, l.2) == l.0);
            lemma_gob_addr_inj(l.1, l.2, a as u32, by as u32);
            assert(l.1 == a && l.2 == by);
            assert(in_line_region(l, go, start, end, x, y, z));
            assert(line_covered_upto(lines@, go, start, end, 32, x, y, z));
        };
        assert forall|i: int|
            0 <= i < dst@.len() && !region_writes(p, glx, gly, glz, ghx, ghy, ghz, i)
            implies #[trigger] dst@[i] == old(dst)@[i]
        by {
            assert(!line_writes_upto(p, lines@, go, start, end, 32, i)) by {
                if line_writes_upto(p, lines@, go, start, end, 32, i) {
                    let (j, x, y, z) = choose|j: int, x: int, y: int, z: int|
                        #![trigger in_line_region(lines@[j], go, start, end, x, y, z),
                            p.widx(x, y, z)]
                        0 <= j < 32
                            && in_line_region(lines@[j], go, start, end, x, y, z)
                            && p.widx(x, y, z) == i;
                    lemma_line_point(p, lines@[j], go, start, end, x, y, z);
                    assert(in_region(glx, gly, glz, ghx, ghy, ghz, x, y, z));
                    assert(region_writes(p, glx, gly, glz, ghx, ghy, ghz, i));
                }
            }
        };
    }
}

/// Copy the clip `[start, end)` (tile-local) of the tile at global
/// origin `to` and tiled base `tile_base`: split the clip at GOB
/// granularity, taking the unclipped path for every whole GOB.
#[verifier::loop_isolation(false)]
pub fn copy_tile(
    p: CopyParams, dst: &mut Vec<u8>, src: &Vec<u8>,
    tile_base: usize, to: Offset4D, start: Offset4D, end: Offset4D,
)
    requires
        p.wf(),
        p.dst_ok(old(dst)@),
        p.src_ok(src@),
        to.a == 0,
        start.a == 0,
        (to.x as int) % p.tiling.tile_w() == 0,
        (to.y as int) % p.tiling.tile_h() == 0,
        (to.z as int) % p.tiling.tile_d() == 0,
        start.x < end.x <= p.tiling.tile_w(),
        start.y < end.y <= p.tiling.tile_h(),
        start.z < end.z <= p.tiling.tile_d(),
        p.in_rect(to.x + start.x, to.y + start.y, to.z + start.z),
        p.in_rect(to.x + end.x - 1, to.y + end.y - 1, to.z + end.z - 1),
        tile_base == p.taddr(to.x as int, to.y as int, to.z as int),
    ensures
        final(dst).len() == old(dst).len(),
        region_copied(
            p, old(dst)@, final(dst)@, src@,
            to.x + start.x, to.y + start.y, to.z + start.z,
            to.x + end.x, to.y + end.y, to.z + end.z,
        ),
{
    let ge = p.tiling.gob_extent_B();
    let te = p.tiling.extent_B();
    proof {
        lemma_tiling_bounds(p.tiling);
    }
    let bp = BlockPointer::new(tile_base, ge, te);
    proof {
        assert forall|x: int, y: int, z: int| #[trigger] in_box(start, end, x, y, z)
            implies p.in_rect(to.x + x, to.y + y, to.z + z)
        by {};
    }
    if start.x % ge.width == 0 && start.y % ge.height == 0 && start.z % ge.depth == 0
        && end.x % ge.width == 0 && end.y % ge.height == 0 && end.z % ge.depth == 0 {
        // The clip is GOB-aligned: walk whole GOBs without any bounds
        // checks in the inner loops.
        let os = for_each_extent4d_aligned(start, end, ge);
        let ghost cs = Seq::new(os@.len(), |j: int| Chunk4D {
            origin: os@[j],
            start: Offset4D { x: 0, y: 0, z: 0, a: start.a },
            end: Offset4D { x: ge.width, y: ge.height, z: ge.depth, a: end.a },
        });
        proof {
            assert forall|j: int| 0 <= j < cs.len()
                implies chunk_wf(#[trigger] cs[j], start, end, ge)
            by {
                assert(cs[j].origin == os@[j]);
            };
            assert(chunks_ok(p, cs, to, start, end, ge));
            // Every box point lies in some listed whole cell.
            assert forall|x: int, y: int, z: int| #[trigger] in_box(start, end, x, y, z)
                implies covered(cs, x, y, z)
            by {
                assert(covered_cell(os@, ge, x, y, z));
                let j = choose|j: int| 0 <= j < os@.len()
                    && #[trigger] cell_of(os@[j], ge, x, y, z);
                crate::partition::lemma_align_down(x, ge.width as int);
                crate::partition::lemma_align_down(y, ge.height as int);
                crate::partition::lemma_align_down(z, ge.depth as int);
                assert(chunk_contains(cs[j], x, y, z));
            };
        }
        let mut k: usize = 0;
        while k < os.len()
            invariant
                k <= os.len(),
                dst.len() == old(dst).len(),
                values_ok(p, dst@, src@, cs, to, k as int),
                untouched_ok(p, old(dst)@, dst@, cs, to, k as int),
            decreases os.len() - k,
        {
            let o = os[k];
            proof {
                assert(chunk_wf(cs[k as int], start, end, ge) && cs[k as int].origin == o);
                assert(p.in_rect(to.x + o.x, to.y + o.y, to.z + o.z));
                assert(p.in_rect(to.x + o.x + 63, to.y + o.y + 7, to.z + o.z));
            }
            let go = Offset4D::new(to.x + o.x, to.y + o.y, to.z + o.z, 0);
            proof {
                lemma_tile_rel_gob(p.tiling, o.x as int, o.y as int, o.z as int);
                lemma_taddr_tile(
                    p, to.x as int, to.y as int, to.z as int,
                    o.x as int, o.y as int, o.z as int,
                );
                assert(p.in_level(go.x as int, go.y as int, go.z as int));
                lemma_taddr_bound(p, go.x as int, go.y as int, go.z as int);
                crate::arith::lemma_mod_mod_zero(to.x as int, p.tiling.tile_w(), 64);
                crate::arith::lemma_mod_mod_zero(to.y as int, p.tiling.tile_h(), 8);
                vstd::arithmetic::div_mod::lemma_add_mod_noop(to.x as int, o.x as int, 64);
                vstd::arithmetic::div_mod::lemma_add_mod_noop(to.y as int, o.y as int, 8);
            }
            let gob_base = bp.at(o);
            proof {
                assert(gob_base == p.taddr(go.x as int, go.y as int, go.z as int));
            }
            let ghost d_prev = dst@;
            copy_whole_gob(p, dst, src, gob_base, go);
            proof {
                lemma_copy_step(
                    p, old(dst)@, d_prev, dst@, src@, cs, to, start, end, ge, k as int,
                );
            }
            k = k + 1;
        }
        proof {
            lemma_copy_finish(p, old(dst)@, dst@, src@, cs, to, start, end, ge);
        }
    } else {
        let chunks = for_each_extent4d(start, end, ge);
        proof {
            assert(chunks_ok(p, chunks@, to, start, end, ge));
        }
        let mut k: usize = 0;
        while k < chunks.len()
            invariant
                k <= chunks.len(),
                dst.len() == old(dst).len(),
                values_ok(p, dst@, src@, chunks@, to, k as int),
                untouched_ok(p, old(dst)@, dst@, chunks@, to, k as int),
            decreases chunks.len() - k,
        {
            let c = chunks[k];
            proof {
                assert(chunk_wf(c, start, end, ge));
                // The GOB origin stays inside the level.
                assert(c.origin.x < end.x && c.origin.y < end.y && c.origin.z < end.z);
                assert(p.in_rect(to.x + c.origin.x + c.start.x, to.y + c.origin.y + c.start.y,
                    to.z + c.origin.z + c.start.z));
            }
            let go = Offset4D::new(to.x + c.origin.x, to.y + c.origin.y, to.z + c.origin.z, 0);
            proof {
                lemma_tile_rel_gob(
                    p.tiling, c.origin.x as int, c.origin.y as int, c.origin.z as int);
                lemma_taddr_tile(
                    p, to.x as int, to.y as int, to.z as int,
                    c.origin.x as int, c.origin.y as int, c.origin.z as int,
                );
                assert(p.in_level(go.x as int, go.y as int, go.z as int));
                lemma_taddr_bound(p, go.x as int, go.y as int, go.z as int);
                // GOB alignment of the global origin.
                crate::arith::lemma_mod_mod_zero(to.x as int, p.tiling.tile_w(), 64);
                crate::arith::lemma_mod_mod_zero(to.y as int, p.tiling.tile_h(), 8);
                vstd::arithmetic::div_mod::lemma_add_mod_noop(to.x as int, c.origin.x as int, 64);
                vstd::arithmetic::div_mod::lemma_add_mod_noop(to.y as int, c.origin.y as int, 8);
            }
            let gob_base = bp.at(c.origin);
            proof {
                assert(gob_base == p.taddr(go.x as int, go.y as int, go.z as int));
            }
            let ghost d_prev = dst@;
            if c.start.x == 0 && c.start.y == 0 && c.start.z == 0
                && c.end.x == ge.width && c.end.y == ge.height && c.end.z == 1 {
                copy_whole_gob(p, dst, src, gob_base, go);
            } else {
                copy_gob(p, dst, src, gob_base, go, c.start, c.end);
            }
            proof {
                lemma_copy_step(
                    p, old(dst)@, d_prev, dst@, src@, chunks@, to, start, end, ge, k as int,
                );
            }
            k = k + 1;
        }
        proof {
            lemma_copy_finish(p, old(dst)@, dst@, src@, chunks@, to, start, end, ge);
        }
    }
}

/// Product bounds that tie the aligned level's block strides to the
/// level's total size.
proof fn lemma_level_products(p: CopyParams)
    requires
        p.wf(),
    ensures
        p.tiling.tile_h() * p.tiling.tile_d() <= p.total(),
        p.lvl_w() * p.tiling.tile_d() <= p.total(),
        p.lvl_w() * p.lvl_h() <= p.total(),
        p.total() == p.lvl_w() * p.lvl_h() * p.lvl_d(),
{
    lemma_tiling_bounds(p.tiling);
    let tw = p.tiling.tile_w();
    let th = p.tiling.tile_h();
    let td = p.tiling.tile_d();
    let nx = p.ntx as int;
    let ny = p.nty as int;
    let nz = p.ntz as int;
    assert(th * td <= (nx * ny * nz) * (tw * th * td)
        && (nx * tw) * td <= (nx * ny * nz) * (tw * th * td)
        && (nx * tw) * (ny * th) <= (nx * ny * nz) * (tw * th * td)
        && (nx * ny * nz) * (tw * th * td) == (nx * tw) * (ny * th) * (nz * td))
        by (nonlinear_arith)
        requires 1 <= nx && 1 <= ny && 1 <= nz && 64 <= tw && 4 <= th && 1 <= td;
}

/// Copy the byte rectangle `[start, end)` between the tiled and the
/// linear buffer: split it at tile granularity and copy each tile's
/// clip.
#[verifier::loop_isolation(false)]
pub fn copy_tiled(
    p: CopyParams, dst: &mut Vec<u8>, src: &Vec<u8>, start: Offset4D, end: Offset4D,
)
    requires
        p.wf(),
        p.dst_ok(old(dst)@),
        p.src_ok(src@),
        start == p.off,
        end.x == p.off.x + p.ext.width,
        end.y == p.off.y + p.ext.height,
        end.z == p.off.z + p.ext.depth,
    ensures
        final(dst).len() == old(dst).len(),
        region_copied(
            p, old(dst)@, final(dst)@, src@,
            p.off.x as int, p.off.y as int, p.off.z as int,
            p.off.x + p.ext.width, p.off.y + p.ext.height, p.off.z + p.ext.depth,
        ),
{
    let te = p.tiling.extent_B();
    proof {
        lemma_tiling_bounds(p.tiling);
        lemma_level_products(p);
    }
    let chunks = for_each_extent4d(start, end, te);
    let lvl = Extent4D::new(p.ntx * te.width, p.nty * te.height, p.ntz * te.depth, 1);
    proof {
        lemma_mod_multiples_basic(p.ntx as int, p.tiling.tile_w());
        lemma_mod_multiples_basic(p.nty as int, p.tiling.tile_h());
        lemma_mod_multiples_basic(p.ntz as int, p.tiling.tile_d());
        assert(lvl.width == p.lvl_w() && lvl.height == p.lvl_h() && lvl.depth == p.lvl_d());
    }
    let bp = BlockPointer::new(0, te, lvl);
    let ghost to0 = Offset4D { x: 0u32, y: 0u32, z: 0u32, a: 0u32 };
    proof {
        assert forall|x: int, y: int, z: int| #[trigger] in_box(start, end, x, y, z)
            implies p.in_rect(to0.x + x, to0.y + y, to0.z + z)
        by {};
        assert(chunks_ok(p, chunks@, to0, start, end, te));
    }
    let mut k: usize = 0;
    while k < chunks.len()
        invariant
            k <= chunks.len(),
            dst.len() == old(dst).len(),
            values_ok(p, dst@, src@, chunks@, to0, k as int),
            untouched_ok(p, old(dst)@, dst@, chunks@, to0, k as int),
        decreases chunks.len() - k,
    {
        let c = chunks[k];
        proof {
            assert(chunk_wf(c, start, end, te));
            assert(c.origin.x < end.x && c.origin.y < end.y && c.origin.z < end.z);
            assert(p.in_level(c.origin.x as int, c.origin.y as int, c.origin.z as int));
            lemma_taddr_tile_origin(p, c.origin.x as int, c.origin.y as int, c.origin.z as int);
            lemma_taddr_bound(p, c.origin.x as int, c.origin.y as int, c.origin.z as int);
        }
        let tile_base = bp.at(c.origin);
        proof {
            assert(tile_base == p.taddr(c.origin.x as int, c.origin.y as int, c.origin.z as int));
            assert(p.in_rect(c.origin.x + c.start.x, c.origin.y + c.start.y,
                c.origin.z + c.start.z));
            assert(p.in_rect(c.origin.x + c.end.x - 1, c.origin.y + c.end.y - 1,
                c.origin.z + c.end.z - 1));
        }
        let ghost d_prev = dst@;
        copy_tile(p, dst, src, tile_base, c.origin, c.start, c.end);
        proof {
            lemma_copy_step(
                p, old(dst)@, d_prev, dst@, src@, chunks@, to0, start, end, te, k as int,
            );
        }
        k = k + 1;
    }
    proof {
        lemma_copy_finish(p, old(dst)@, dst@, src@, chunks@, to0, start, end, te);
    }
}

/// Copy a whole GOB, every line unclipped.
pub fn copy_whole_gob(
    p: CopyParams, dst: &mut Vec<u8>, src: &Vec<u8>, gob_base: usize, go: Offset4D,
)
    requires
        p.wf(),
        p.dst_ok(old(dst)@),
        p.src_ok(src@),
        go.a == 0,
        go.x % 64 == 0,
        go.y % 8 == 0,
        p.in_rect(go.x as int, go.y as int, go.z as int),
        p.in_rect(go.x + 63, go.y + 7, go.z as int),
        gob_base == p.taddr(go.x as int, go.y as int, go.z as int),
    ensures
        final(dst).len() == old(dst).len(),
        region_copied(
            p, old(dst)@, final(dst)@, src@,
            go.x as int, go.y as int, go.z as int,
            go.x + 64, go.y + 8, go.z + 1,
        ),
{
    let start = Offset4D::new(0, 0, 0, 0);
    let end = Offset4D::new(64, 8, 1, 1);
    copy_gob(p, dst, src, gob_base, go, start, end);
}

/// Round trip: write a rectangle of a linear buffer `l` into a tiled
/// buffer, then read the same rectangle back into a linear buffer that
/// started as `l0`. Every rectangle byte of the result equals the
/// original source byte, and every byte outside the written image
/// keeps the value it had in `l0`.
pub proof fn lemma_round_trip(
    pt: CopyParams, pl: CopyParams,
    t0: Seq<u8>, t1: Seq<u8>, l: Seq<u8>, l0: Seq<u8>, l1: Seq<u8>,
)
    requires
        pt.wf(),
        pt.dir is ToTiled,
        pl.dir is ToLinear,
        pl.tiling == pt.tiling,
        pl.ntx == pt.ntx,
        pl.nty == pt.nty,
        pl.ntz == pt.ntz,
        pl.off == pt.off,
        pl.ext == pt.ext,
        pl.row_stride_B == pt.row_stride_B,
        pl.plane_stride_B == pt.plane_stride_B,
        region_copied(
            pt, t0, t1, l,
            pt.off.x as int, pt.off.y as int, pt.off.z as int,
            pt.off.x + pt.ext.width, pt.off.y + pt.ext.height, pt.off.z + pt.ext.depth,
        ),
        region_copied(
            pl, l0, l1, t1,
            pt.off.x as int, pt.off.y as int, pt.off.z as int,
            pt.off.x + pt.ext.width, pt.off.y + pt.ext.height, pt.off.z + pt.ext.depth,
        ),
    ensures
        forall|x: int, y: int, z: int|
            pt.in_rect(x, y, z) ==> l1[#[trigger] pt.lidx(x, y, z)] == l[pt.lidx(x, y, z)],
        forall|i: int|
            0 <= i < l1.len() && !region_writes(
                pl, pt.off.x as int, pt.off.y as int, pt.off.z as int,
                pt.off.x + pt.ext.width, pt.off.y + pt.ext.height,
                pt.off.z + pt.ext.depth, i)
                ==> l1[i] == l0[i],
{
    let lx = pt.off.x as int;
    let ly = pt.off.y as int;
    let lz = pt.off.z as int;
    let hx = pt.off.x + pt.ext.width;
    let hy = pt.off.y + pt.ext.height;
    let hz = pt.off.z + pt.ext.depth;
    assert forall|x: int, y: int, z: int| pt.in_rect(x, y, z)
        implies l1[#[trigger] pt.lidx(x, y, z)] == l[pt.lidx(x, y, z)]
    by {
        assert(in_region(lx, ly, lz, hx, hy, hz, x, y, z));
        assert(pl.widx(x, y, z) == pt.lidx(x, y, z));
        assert(pl.ridx(x, y, z) == pt.taddr(x, y, z));
        assert(l1[pl.widx(x, y, z)] == t1[pl.ridx(x, y, z)]);
        assert(t1[pt.widx(x, y, z)] == l[pt.ridx(x, y, z)]);
    };
}

/// Number of whole tiles covering `w` bytes: `w / t` rounded up.
pub open spec fn spec_ntiles(w: int, t: int) -> int {
    (w + t - 1) / t
}

/// The copy parameters the two entry points work with: the level
/// extent rounded up to whole tiles, and the caller's rectangle and
/// strides.
pub open spec fn copy_params(
    dir: CopyDir, tiling: Tiling, level_extent_B: Extent4D,
    row_stride_B: usize, plane_stride_B: usize, off: Offset4D, ext: Extent4D,
) -> CopyParams {
    CopyParams {
        dir,
        tiling,
        ntx: spec_ntiles(level_extent_B.width as int, tiling.tile_w()) as u32,
        nty: spec_ntiles(level_extent_B.height as int, tiling.tile_h()) as u32,
        ntz: spec_ntiles(level_extent_B.depth as int, tiling.tile_d()) as u32,
        off,
        ext,
        row_stride_B,
        plane_stride_B,
    }
}

fn ntiles(w: u32, t: u32) -> (n: u32)
    requires
        1 <= w,
        1 <= t,
    ensures
        n == spec_ntiles(w as int, t as int),
        1 <= n <= w,
{
    proof {
        vstd::arithmetic::div_mod::lemma_div_plus_one((w - 1) as int, t as int);
        vstd::arithmetic::div_mod::lemma_div_pos_is_pos((w - 1) as int, t as int);
        vstd::arithmetic::div_mod::lemma_div_nonincreasing((w - 1) as int, t as int);
    }
    (w - 1) / t + 1
}

fn make_copy_params(
    dir: CopyDir, tiling: Tiling, level_extent_B: Extent4D,
    row_stride_B: usize, plane_stride_B: usize, off: Offset4D, ext: Extent4D,
) -> (p: CopyParams)
    requires
        tiling.wf(),
        1 <= level_extent_B.width,
        1 <= level_extent_B.height,
        1 <= level_extent_B.depth,
    ensures
        p == copy_params(dir, tiling, level_extent_B, row_stride_B, plane_stride_B, off, ext),
{
    let te = tiling.extent_B();
    proof {
        lemma_tiling_bounds(tiling);
    }
    CopyParams {
        dir,
        tiling,
        ntx: ntiles(level_extent_B.width, te.width),
        nty: ntiles(level_extent_B.height, te.height),
        ntz: ntiles(level_extent_B.depth, te.depth),
        off,
        ext,
        row_stride_B,
        plane_stride_B,
    }
}

/// Copy the byte rectangle `(offset_B, extent_B)` of a level from a
/// strided linear buffer into its block-linear tiled buffer. The
/// active copy path moves raw bytes whatever `swizzle` says. Every
/// rectangle byte lands at its tiled address; every other tiled byte
/// keeps its value.
#[allow(unused_variables)]
pub fn nil_copy_linear_to_tiled(
    tiled_dst: &mut Vec<u8>,
    level_extent_B: Extent4D,
    linear_src: &Vec<u8>,
    linear_row_stride_B: usize,
    linear_plane_stride_B: usize,
    offset_B: Offset4D,
    extent_B: Extent4D,
    swizzle: CopySwizzle,
    tiling: &Tiling,
)
    requires
        1 <= level_extent_B.width,
        1 <= level_extent_B.height,
        1 <= level_extent_B.depth,
        offset_B.x + extent_B.width <= level_extent_B.width,
        offset_B.y + extent_B.height <= level_extent_B.height,
        offset_B.z + extent_B.depth <= level_extent_B.depth,
        copy_params(CopyDir::ToTiled, *tiling, level_extent_B, linear_row_stride_B,
            linear_plane_stride_B, offset_B, extent_B).wf(),
        copy_params(CopyDir::ToTiled, *tiling, level_extent_B, linear_row_stride_B,
            linear_plane_stride_B, offset_B, extent_B).dst_ok(old(tiled_dst)@),
        copy_params(CopyDir::ToTiled, *tiling, level_extent_B, linear_row_stride_B,
            linear_plane_stride_B, offset_B, extent_B).src_ok(linear_src@),
    ensures
        final(tiled_dst).len() == old(tiled_dst).len(),
        region_copied(
            copy_params(CopyDir::ToTiled, *tiling, level_extent_B, linear_row_stride_B,
                linear_plane_stride_B, offset_B, extent_B),
            old(tiled_dst)@, final(tiled_dst)@, linear_src@,
            offset_B.x as int, offset_B.y as int, offset_B.z as int,
            offset_B.x + extent_B.width, offset_B.y + extent_B.height,
            offset_B.z + extent_B.depth,
        ),
{
    let p = make_copy_params(
        CopyDir::ToTiled, *tiling, level_extent_B,
        linear_row_stride_B, linear_plane_stride_B, offset_B, extent_B,
    );
    let end_B = offset_B.plus_extent(extent_B);
    copy_tiled(p, tiled_dst, linear_src, offset_B, end_B);
}

/// Copy the byte rectangle `(offset_B, extent_B)` of a level from its
/// block-linear tiled buffer into a strided linear buffer. The active
/// copy path moves raw bytes whatever `swizzle` says. Every rectangle
/// byte is read from its tiled address; every linear byte outside the
/// written image keeps its value.
#[allow(unused_variables)]
pub fn nil_copy_tiled_to_linear(
    linear_dst: &mut Vec<u8>,
    linear_row_stride_B: usize,
    linear_plane_stride_B: usize,
    tiled_src: &Vec<u8>,
    level_extent_B: Extent4D,
    offset_B: Offset4D,
    extent_B: Extent4D,
    swizzle: CopySwizzle,
    tiling: &Tiling,
)
    requires
        1 <= level_extent_B.width,
        1 <= level_extent_B.height,
        1 <= level_extent_B.depth,
        offset_B.x + extent_B.width <= level_extent_B.width,
        offset_B.y + extent_B.height <= level_extent_B.height,
        offset_B.z + extent_B.depth <= level_extent_B.depth,
        copy_params(CopyDir::ToLinear, *tiling, level_extent_B, linear_row_stride_B,
            linear_plane_stride_B, offset_B, extent_B).wf(),
        copy_params(CopyDir::ToLinear, *tiling, level_extent_B, linear_row_stride_B,
            linear_plane_stride_B, offset_B, extent_B).dst_ok(old(linear_dst)@),
        copy_params(CopyDir::ToLinear, *tiling, level_extent_B, linear_row_stride_B,
            linear_plane_stride_B, offset_B, extent_B).src_ok(tiled_src@),
    ensures
        final(linear_dst).len() == old(linear_dst).len(),
        region_copied(
            copy_params(CopyDir::ToLinear, *tiling, level_extent_B, linear_row_stride_B,
                linear_plane_stride_B, offset_B, extent_B),
            old(linear_dst)@, final(linear_dst)@, tiled_src@,
            offset_B.x as int, offset_B.y as int, offset_B.z as int,
            offset_B.x + extent_B.width, offset_B.y + extent_B.height,
            offset_B.z + extent_B.depth,
        ),
{
    let p = make_copy_params(
        CopyDir::ToLinear, *tiling, level_extent_B,
        linear_row_stride_B, linear_plane_stride_B, offset_B, extent_B,
    );
    let end_B = offset_B.plus_extent(extent_B);
    copy_tiled(p, linear_dst, tiled_src, offset_B, end_B);
}

} // verus!
