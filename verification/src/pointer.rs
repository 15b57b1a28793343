//! Byte-offset cursors into the tiled and linear buffers.
//!
//! Both cursors are plain offset calculators over buffer indices; the
//! copy routines prove separately that every index they produce stays
//! inside the buffer it addresses.

use vstd::prelude::*;
use vstd::arithmetic::power2::{
    pow2, is_pow2, is_pow2_equiv, lemma_pow2_unfold, lemma_pow2_strictly_increases,
    lemma2_to64,
};
use vstd::arithmetic::mul::lemma_mul_nonnegative;
use vstd::arithmetic::power::pow;
use vstd::bits::{lemma_u32_shl_is_mul, lemma_u32_shr_is_div};
use crate::extent::{Extent4D, Offset4D};

verus! {

/// Offset calculator for a grid of blocks of byte-extent `bl_extent`
/// inside a region of byte-extent `extent` (a whole multiple of
/// `bl_extent`): a block-aligned byte position `(x, y, z)` lands
/// `x*x_mul + y*y_mul + z*z_mul` bytes past `pointer`.
pub struct BlockPointer {
    pub pointer: usize,
    pub x_mul: usize,
    pub y_mul: usize,
    pub z_mul: usize,
}

impl BlockPointer {
    pub fn new(pointer: usize, bl_extent: Extent4D, extent: Extent4D) -> (r: BlockPointer)
        requires
            1 <= bl_extent.width,
            1 <= bl_extent.height,
            1 <= bl_extent.depth,
            bl_extent.array_len == 1,
            extent.array_len == 1,
            extent.width % bl_extent.width == 0,
            extent.height % bl_extent.height == 0,
            extent.depth % bl_extent.depth == 0,
            bl_extent.height * bl_extent.depth <= usize::MAX,
            extent.width * bl_extent.depth <= usize::MAX,
            extent.width * extent.height <= usize::MAX,
        ensures
            r.pointer == pointer,
            r.x_mul == bl_extent.height * bl_extent.depth,
            r.y_mul == extent.width * bl_extent.depth,
            r.z_mul == extent.width * extent.height,
    {
        // A position aligned to the block grid contributes whole blocks:
        //   (x / bl_w) * (bl_w * bl_h * bl_d) == x * bl_h * bl_d,
        // and likewise whole rows and slices of blocks for y and z.
        BlockPointer {
            pointer,
            x_mul: (bl_extent.height as usize) * (bl_extent.depth as usize),
            y_mul: (extent.width as usize) * (bl_extent.depth as usize),
            z_mul: (extent.width as usize) * (extent.height as usize),
        }
    }

    /// The buffer index of the block-aligned byte position `offset`.
    #[inline]
    pub fn at(&self, offset: Offset4D) -> (r: usize)
        requires
            offset.a == 0,
            self.pointer + offset.x * self.x_mul + offset.y * self.y_mul
                + offset.z * self.z_mul <= usize::MAX,
        ensures
            r == self.pointer + offset.x * self.x_mul + offset.y * self.y_mul
                + offset.z * self.z_mul,
    {
        proof {
            lemma_mul_nonnegative(offset.x as int, self.x_mul as int);
            lemma_mul_nonnegative(offset.y as int, self.y_mul as int);
            lemma_mul_nonnegative(offset.z as int, self.z_mul as int);
        }
        self.pointer
            + (offset.z as usize) * self.z_mul
            + (offset.y as usize) * self.y_mul
            + (offset.x as usize) * self.x_mul
    }
}

/// Cursor into a strided linear buffer. A byte position `(x, y, z)`
/// lands at `pointer + z*plane_stride_B + y*row_stride_B + x/x_divisor`;
/// an `x_divisor` above one models a linear view that keeps only one of
/// every `x_divisor` tile-space bytes (the stencil-only swizzle).
#[derive(Clone, Copy)]
pub struct LinearPointer {
    pub pointer: usize,
    pub x_shift: u32,
    pub row_stride_B: usize,
    pub plane_stride_B: usize,
}

impl LinearPointer {
    pub open spec fn wf(self) -> bool {
        self.x_shift < 32
    }

    /// The divisor applied to x coordinates.
    pub open spec fn spec_x_divisor(self) -> int {
        pow2(self.x_shift as nat) as int
    }

    /// The buffer index of the byte position `(x, y, z)`.
    pub open spec fn spec_at(self, x: int, y: int, z: int) -> int {
        self.pointer + z * self.plane_stride_B + y * self.row_stride_B
            + x / self.spec_x_divisor()
    }

    pub fn new(pointer: usize, x_divisor: u32, row_stride_B: usize, plane_stride_B: usize)
        -> (r: LinearPointer)
        requires
            is_pow2(x_divisor as int),
        ensures
            r.wf(),
            r.spec_x_divisor() == x_divisor,
            r.pointer == pointer,
            r.row_stride_B == row_stride_B,
            r.plane_stride_B == plane_stride_B,
    {
        proof {
            is_pow2_equiv(x_divisor as int);
            assert(exists|i: nat| pow(2, i) == x_divisor);
        }
        let ghost e0 = choose|i: nat| pow(2, i) == x_divisor;
        let ghost mut e = e0;
        proof {
            assert(pow2(e) == x_divisor);
            if e0 >= 32 {
                if e0 > 32 {
                    lemma_pow2_strictly_increases(32, e0);
                }
                lemma2_to64();
            }
            assert(e0 <= 31);
        }
        let mut shift: u32 = 0;
        let mut d = x_divisor;
        while d > 1
            invariant
                pow2(e) == d,
                e + shift == e0,
                e0 <= 31,
                pow2(e0) == x_divisor,
            decreases d,
        {
            proof {
                if e == 0 {
                    assert(pow2(0) == 1) by {
                        lemma2_to64();
                    }
                }
                lemma_pow2_unfold(e);
                e = (e - 1) as nat;
            }
            d = d / 2;
            shift = shift + 1;
            proof {
                vstd::arithmetic::power2::lemma_pow2_adds(e, shift as nat);
            }
        }
        proof {
            if e != 0 {
                lemma_pow2_strictly_increases(0, e);
                lemma2_to64();
            }
            assert(e == 0 && shift == e0);
            assert(pow2(shift as nat) == x_divisor);
        }
        LinearPointer { pointer, x_shift: shift, row_stride_B, plane_stride_B }
    }

    pub fn x_divisor(&self) -> (d: u32)
        requires
            self.wf(),
        ensures
            d == self.spec_x_divisor(),
    {
        proof {
            if self.x_shift as nat != 31 {
                lemma_pow2_strictly_increases(self.x_shift as nat, 31);
            }
            lemma2_to64();
            lemma_u32_shl_is_mul(1, self.x_shift);
        }
        1u32 << self.x_shift
    }

    /// The buffer index of the byte position `offset`.
    #[inline]
    pub fn at(self, offset: Offset4D) -> (r: usize)
        requires
            self.wf(),
            offset.a == 0,
            (offset.x as int) % self.spec_x_divisor() == 0,
            self.spec_at(offset.x as int, offset.y as int, offset.z as int) <= usize::MAX,
        ensures
            r == self.spec_at(offset.x as int, offset.y as int, offset.z as int),
    {
        proof {
            lemma_mul_nonnegative(offset.y as int, self.row_stride_B as int);
            lemma_mul_nonnegative(offset.z as int, self.plane_stride_B as int);
            lemma_u32_shr_is_div(offset.x, self.x_shift);
            vstd::arithmetic::power2::lemma_pow2_pos(self.x_shift as nat);
            vstd::arithmetic::div_mod::lemma_div_pos_is_pos(
                offset.x as int, self.spec_x_divisor());
        }
        self.pointer
            + (offset.z as usize) * self.plane_stride_B
            + (offset.y as usize) * self.row_stride_B
            + ((offset.x >> self.x_shift) as usize)
    }

    /// The cursor advanced to the byte position `offset`.
    #[inline]
    pub fn offset(self, offset: Offset4D) -> (r: LinearPointer)
        requires
            self.wf(),
            offset.a == 0,
            (offset.x as int) % self.spec_x_divisor() == 0,
            self.spec_at(offset.x as int, offset.y as int, offset.z as int) <= usize::MAX,
        ensures
            r.pointer == self.spec_at(offset.x as int, offset.y as int, offset.z as int),
            r.x_shift == self.x_shift,
            r.row_stride_B == self.row_stride_B,
            r.plane_stride_B == self.plane_stride_B,
    {
        LinearPointer {
            pointer: self.at(offset),
            x_shift: self.x_shift,
            row_stride_B: self.row_stride_B,
            plane_stride_B: self.plane_stride_B,
        }
    }

    /// The cursor moved back by `offset`, so that a later `at(offset)`
    /// returns to the present position. The cursor indexes a buffer, so
    /// it must not move below the buffer's start.
    #[inline]
    pub fn reverse(self, offset: Offset4D) -> (r: LinearPointer)
        requires
            self.wf(),
            offset.a == 0,
            (offset.x as int) % self.spec_x_divisor() == 0,
            offset.z * self.plane_stride_B + offset.y * self.row_stride_B
                + (offset.x as int) / self.spec_x_divisor() <= self.pointer,
        ensures
            r.pointer == self.pointer - (offset.z * self.plane_stride_B
                + offset.y * self.row_stride_B + (offset.x as int) / self.spec_x_divisor()),
            r.x_shift == self.x_shift,
            r.row_stride_B == self.row_stride_B,
            r.plane_stride_B == self.plane_stride_B,
    {
        proof {
            lemma_mul_nonnegative(offset.y as int, self.row_stride_B as int);
            lemma_mul_nonnegative(offset.z as int, self.plane_stride_B as int);
            lemma_u32_shr_is_div(offset.x, self.x_shift);
            vstd::arithmetic::power2::lemma_pow2_pos(self.x_shift as nat);
            vstd::arithmetic::div_mod::lemma_div_pos_is_pos(
                offset.x as int, self.spec_x_divisor());
        }
        LinearPointer {
            pointer: self.pointer
                - (offset.z as usize) * self.plane_stride_B
                - (offset.y as usize) * self.row_stride_B
                - ((offset.x >> self.x_shift) as usize),
            x_shift: self.x_shift,
            row_stride_B: self.row_stride_B,
            plane_stride_B: self.plane_stride_B,
        }
    }
}

} // verus!
