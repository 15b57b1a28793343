//! Tile geometry for one mip level of a block-linear image.
//!
//! A tile contains `2^(x_log2 + y_log2 + z_log2)` GOBs arranged
//! block-linearly; a GOB is 64 bytes wide and either 8 or 4 rows tall.

use vstd::prelude::*;
use vstd::arithmetic::power2::{
    pow2, lemma2_to64, lemma_pow2_adds, lemma_pow2_strictly_increases,
};
use vstd::bits::lemma_u32_shl_is_mul;
use crate::extent::Extent4D;

verus! {

pub const GOB_WIDTH_B: u32 = 64;
pub const GOB_DEPTH: u32 = 1;

pub open spec fn spec_gob_height(gob_height_is_8: bool) -> int {
    if gob_height_is_8 { 8 } else { 4 }
}

/// Height in bytes of a GOB for the given generation flag.
pub fn gob_height(gob_height_is_8: bool) -> (h: u32)
    ensures
        h == spec_gob_height(gob_height_is_8),
{
    if gob_height_is_8 { 8 } else { 4 }
}

/// Immutable description of one level's tile geometry. The `_log2`
/// fields give the log base two of the tile's GOB count per axis.
#[derive(Clone, Copy, Debug, PartialEq, Eq, Structural)]
pub struct Tiling {
    pub gob_height_is_8: bool,
    pub x_log2: u8,
    pub y_log2: u8,
    pub z_log2: u8,
}

impl Tiling {
    /// Tile dimensions stay within the hardware's range.
    pub open spec fn wf(self) -> bool {
        &&& self.x_log2 <= 5
        &&& self.y_log2 <= 5
        &&& self.z_log2 <= 5
    }

    /// GOBs per tile along x.
    pub open spec fn gobs_x(self) -> int {
        pow2(self.x_log2 as nat) as int
    }

    /// GOBs per tile along y.
    pub open spec fn gobs_y(self) -> int {
        pow2(self.y_log2 as nat) as int
    }

    /// GOBs (depth slices) per tile along z.
    pub open spec fn gobs_z(self) -> int {
        pow2(self.z_log2 as nat) as int
    }

    /// Tile width in bytes.
    pub open spec fn tile_w(self) -> int {
        64 * self.gobs_x()
    }

    /// Tile height in bytes.
    pub open spec fn tile_h(self) -> int {
        spec_gob_height(self.gob_height_is_8) * self.gobs_y()
    }

    /// Tile depth in bytes (slices).
    pub open spec fn tile_d(self) -> int {
        self.gobs_z()
    }

    /// Whole tile size in bytes.
    pub open spec fn tile_size(self) -> int {
        self.tile_w() * self.tile_h() * self.tile_d()
    }

    /// Extent in bytes of one GOB.
    pub fn gob_extent_B(&self) -> (e: Extent4D)
        ensures
            e.width == 64,
            e.height == spec_gob_height(self.gob_height_is_8),
            e.depth == 1,
            e.array_len == 1,
    {
        Extent4D::new(GOB_WIDTH_B, gob_height(self.gob_height_is_8), GOB_DEPTH, 1)
    }

    /// Extent in bytes of one tile.
    pub fn extent_B(&self) -> (e: Extent4D)
        requires
            self.wf(),
        ensures
            e.width == self.tile_w(),
            e.height == self.tile_h(),
            e.depth == self.tile_d(),
            e.array_len == 1,
    {
        proof {
            lemma_small_pow2(self.x_log2 as nat);
            lemma_small_pow2(self.y_log2 as nat);
            lemma_small_pow2(self.z_log2 as nat);
            lemma_u32_shl_is_mul(64, self.x_log2 as u32);
            lemma_u32_shl_is_mul(
                if self.gob_height_is_8 { 8 } else { 4 },
                self.y_log2 as u32,
            );
            lemma_u32_shl_is_mul(1, self.z_log2 as u32);
        }
        Extent4D::new(
            GOB_WIDTH_B << (self.x_log2 as u32),
            gob_height(self.gob_height_is_8) << (self.y_log2 as u32),
            1u32 << (self.z_log2 as u32),
            1,
        )
    }

    /// Whole tile size in bytes.
    pub fn size_B(&self) -> (s: u32)
        requires
            self.wf(),
        ensures
            s == self.tile_size(),
    {
        let e = self.extent_B();
        proof {
            lemma_tiling_bounds(*self);
        }
        e.width * e.height * e.depth
    }
}

/// `pow2` of a small exponent stays within a tile's hardware range.
pub proof fn lemma_small_pow2(e: nat)
    requires
        e <= 5,
    ensures
        1 <= pow2(e) <= 32,
{
    lemma2_to64();
    if e < 5 {
        lemma_pow2_strictly_increases(e, 5);
    }
}

/// Bounds and divisibility facts for a well-formed tiling's dimensions.
pub proof fn lemma_tiling_bounds(t: Tiling)
    requires
        t.wf(),
    ensures
        1 <= t.gobs_x() <= 32,
        1 <= t.gobs_y() <= 32,
        1 <= t.gobs_z() <= 32,
        64 <= t.tile_w() <= 2048,
        4 <= t.tile_h() <= 256,
        1 <= t.tile_d() <= 32,
        t.tile_w() == 64 * t.gobs_x(),
        t.tile_h() == spec_gob_height(t.gob_height_is_8) * t.gobs_y(),
        t.tile_w() % 64 == 0,
        t.tile_h() % spec_gob_height(t.gob_height_is_8) == 0,
        t.tile_size() == t.tile_w() * t.tile_h() * t.tile_d(),
        t.tile_w() * t.tile_h() <= 0x80000,
        64 * spec_gob_height(t.gob_height_is_8)
            <= t.tile_size() <= 0x1000000,
{
    lemma_small_pow2(t.x_log2 as nat);
    lemma_small_pow2(t.y_log2 as nat);
    lemma_small_pow2(t.z_log2 as nat);
    let gx = t.gobs_x();
    let gy = t.gobs_y();
    let gz = t.gobs_z();
    let gh = spec_gob_height(t.gob_height_is_8);
    assert(t.tile_w() % 64 == 0) by (nonlinear_arith)
        requires t.tile_w() == 64 * gx && 1 <= gx;
    assert(t.tile_h() % gh == 0) by (nonlinear_arith)
        requires t.tile_h() == gh * gy && 1 <= gy && (gh == 4 || gh == 8);
    assert(4 <= gh * gy <= 256) by (nonlinear_arith)
        requires 1 <= gy <= 32 && (gh == 4 || gh == 8);
    assert((64 * gx) * (gh * gy) <= 0x80000) by (nonlinear_arith)
        requires 1 <= gx <= 32 && 4 <= gh * gy <= 256;
    assert(64 * gh <= (64 * gx) * (gh * gy) * gz <= 0x1000000) by (nonlinear_arith)
        requires 1 <= gx <= 32 && 1 <= gy <= 32 && 1 <= gz <= 32 && (gh == 4 || gh == 8);
}

} // verus!
