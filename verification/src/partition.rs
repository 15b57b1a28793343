//! Partition of a byte rectangle into chunk-sized pieces.
//!
//! `for_each_extent4d` enumerates every chunk of a grid that meets a
//! half-open box, together with the box's clip inside that chunk;
//! `for_each_extent4d_aligned` enumerates whole chunks when the box is
//! already chunk-aligned. Their contracts state that the pieces cover
//! the box exactly and never repeat a chunk.

use vstd::prelude::*;
use vstd::arithmetic::div_mod::{
    lemma_fundamental_div_mod, lemma_mod_pos_bound, lemma_mod_multiples_basic,
    lemma_div_is_ordered, lemma_mod_add_multiples_vanish,
};
use vstd::arithmetic::mul::{lemma_mul_is_commutative, lemma_mul_inequality};
use crate::arith::{lemma_div_mod_aligned, lemma_aligned_lt};
use crate::extent::{Extent4D, Offset4D, in_box};

verus! {

/// `x` rounded down to a multiple of `a`.
pub open spec fn align_down(x: int, a: int) -> int {
    x - x % a
}

/// `x` rounded up to a multiple of `a`.
pub open spec fn align_up(x: int, a: int) -> int {
    align_down(x + a - 1, a)
}

pub proof fn lemma_align_down(x: int, a: int)
    requires
        1 <= a,
        0 <= x,
    ensures
        align_down(x, a) % a == 0,
        0 <= align_down(x, a) <= x,
        x < align_down(x, a) + a,
{
    lemma_fundamental_div_mod(x, a);
    lemma_mod_pos_bound(x, a);
    assert(align_down(x, a) == a * (x / a));
    assert((x / a) * a % a == 0) by {
        lemma_mod_multiples_basic(x / a, a);
    }
    lemma_mul_is_commutative(a, x / a);
}

pub proof fn lemma_align_up(x: int, a: int)
    requires
        1 <= a,
        0 <= x,
    ensures
        align_up(x, a) % a == 0,
        x <= align_up(x, a) <= x + a - 1,
{
    lemma_align_down(x + a - 1, a);
}

/// Rounding down is monotone.
pub proof fn lemma_align_down_mono(x: int, y: int, a: int)
    requires
        1 <= a,
        0 <= x <= y,
    ensures
        align_down(x, a) <= align_down(y, a),
{
    lemma_fundamental_div_mod(x, a);
    lemma_fundamental_div_mod(y, a);
    lemma_div_is_ordered(x, y, a);
    lemma_mul_inequality(x / a, y / a, a);
    assert(align_down(x, a) == a * (x / a));
    assert(align_down(y, a) == a * (y / a));
    lemma_mul_is_commutative(a, x / a);
    lemma_mul_is_commutative(a, y / a);
}

/// A point inside an aligned cell rounds down to that cell's origin.
pub proof fn lemma_align_down_cell(cell: int, g: int, a: int)
    requires
        1 <= a,
        0 <= cell,
        cell % a == 0,
        cell <= g < cell + a,
    ensures
        align_down(g, a) == cell,
{
    lemma_div_mod_aligned(cell, g - cell, a);
}

/// The aligned cover of `[start, end)` at granularity `align`:
/// `start` rounded down and `end` rounded up.
pub fn aligned_range(start: u32, end: u32, align: u32) -> (r: (u32, u32))
    requires
        1 <= align,
        start <= end,
        end + align - 1 <= u32::MAX,
    ensures
        r.0 == align_down(start as int, align as int),
        r.1 == align_up(end as int, align as int),
        r.0 % align == 0,
        r.1 % align == 0,
        r.0 <= start,
        end <= r.1,
        r.1 <= end + align - 1,
{
    proof {
        lemma_align_down(start as int, align as int);
        lemma_align_up(end as int, align as int);
    }
    let lo = start - start % align;
    let almost = if end == 0 { align - 1 } else { (end - 1) + align };
    let hi = almost - almost % align;
    (lo, hi)
}

/// Local clip start of a box beginning at `rs` inside a chunk at `o`.
pub open spec fn clip_lo(rs: int, o: int) -> int {
    if o < rs { rs - o } else { 0 }
}

/// Local clip end of a box ending at `re` inside a chunk at `o` of length `len`.
pub open spec fn clip_hi(re: int, o: int, len: int) -> int {
    if re - o < len { re - o } else { len }
}

/// The part of `whole` that falls inside the chunk `[chunk_start,
/// chunk_start + chunk_len)`, in chunk-local coordinates.
pub fn chunk_range(whole: (u32, u32), chunk_start: u32, chunk_len: u32) -> (r: (u32, u32))
    requires
        whole.0 <= whole.1,
        chunk_start < whole.1,
    ensures
        r.0 == clip_lo(whole.0 as int, chunk_start as int),
        r.1 == clip_hi(whole.1 as int, chunk_start as int, chunk_len as int),
{
    let start = if chunk_start < whole.0 {
        whole.0 - chunk_start
    } else {
        0
    };
    let rest = whole.1 - chunk_start;
    let end = if rest < chunk_len { rest } else { chunk_len };
    (start, end)
}

/// One piece of a partition: the chunk's origin in the grid plus the
/// box's clip inside the chunk, in chunk-local coordinates.
#[derive(Clone, Copy, Debug, PartialEq, Eq, Structural)]
pub struct Chunk4D {
    pub origin: Offset4D,
    pub start: Offset4D,
    pub end: Offset4D,
}

/// The chunk is grid-aligned and its clip is exactly the box's
/// intersection with the chunk, and is non-empty.
pub open spec fn chunk_wf(c: Chunk4D, start: Offset4D, end: Offset4D, chunk: Extent4D) -> bool {
    &&& c.origin.a == start.a
    &&& c.start.a == start.a
    &&& c.end.a == end.a
    &&& c.origin.x % chunk.width == 0
    &&& c.origin.y % chunk.height == 0
    &&& c.origin.z % chunk.depth == 0
    &&& c.start.x == clip_lo(start.x as int, c.origin.x as int)
    &&& c.start.y == clip_lo(start.y as int, c.origin.y as int)
    &&& c.start.z == clip_lo(start.z as int, c.origin.z as int)
    &&& c.end.x == clip_hi(end.x as int, c.origin.x as int, chunk.width as int)
    &&& c.end.y == clip_hi(end.y as int, c.origin.y as int, chunk.height as int)
    &&& c.end.z == clip_hi(end.z as int, c.origin.z as int, chunk.depth as int)
    &&& c.start.x < c.end.x <= chunk.width
    &&& c.start.y < c.end.y <= chunk.height
    &&& c.start.z < c.end.z <= chunk.depth
}

/// Whether the global point `(x, y, z)` lies in the chunk's clip region.
pub open spec fn chunk_contains(c: Chunk4D, x: int, y: int, z: int) -> bool {
    &&& c.origin.x + c.start.x <= x < c.origin.x + c.end.x
    &&& c.origin.y + c.start.y <= y < c.origin.y + c.end.y
    &&& c.origin.z + c.start.z <= z < c.origin.z + c.end.z
}

/// Some listed chunk's clip region contains the point.
pub open spec fn covered(cs: Seq<Chunk4D>, x: int, y: int, z: int) -> bool {
    exists|j: int| 0 <= j < cs.len() && #[trigger] chunk_contains(cs[j], x, y, z)
}

proof fn lemma_covered_push(cs: Seq<Chunk4D>, c: Chunk4D, x: int, y: int, z: int)
    requires
        covered(cs, x, y, z),
    ensures
        covered(cs.push(c), x, y, z),
{
    let j = choose|j: int| 0 <= j < cs.len() && #[trigger] chunk_contains(cs[j], x, y, z);
    assert(chunk_contains(cs.push(c)[j], x, y, z));
}

/// A well-formed chunk's clip region is exactly the set of box points
/// whose cell is the chunk's origin.
pub proof fn lemma_chunk_region(
    c: Chunk4D, start: Offset4D, end: Offset4D, chunk: Extent4D,
    x: int, y: int, z: int,
)
    requires
        1 <= chunk.width,
        1 <= chunk.height,
        1 <= chunk.depth,
        chunk_wf(c, start, end, chunk),
    ensures
        chunk_contains(c, x, y, z) <==> {
            &&& in_box(start, end, x, y, z)
            &&& c.origin.x == align_down(x, chunk.width as int)
            &&& c.origin.y == align_down(y, chunk.height as int)
            &&& c.origin.z == align_down(z, chunk.depth as int)
        },
{
    if chunk_contains(c, x, y, z) {
        lemma_align_down_cell(c.origin.x as int, x, chunk.width as int);
        lemma_align_down_cell(c.origin.y as int, y, chunk.height as int);
        lemma_align_down_cell(c.origin.z as int, z, chunk.depth as int);
    }
    if in_box(start, end, x, y, z)
        && c.origin.x == align_down(x, chunk.width as int)
        && c.origin.y == align_down(y, chunk.height as int)
        && c.origin.z == align_down(z, chunk.depth as int)
    {
        lemma_align_down(x, chunk.width as int);
        lemma_align_down(y, chunk.height as int);
        lemma_align_down(z, chunk.depth as int);
    }
}

spec fn origin_lex_lt(o: Offset4D, x: u32, y: u32, z: u32) -> bool {
    ||| o.z < z
    ||| (o.z == z && o.y < y)
    ||| (o.z == z && o.y == y && o.x < x)
}

/// Enumerate every chunk of the `chunk`-granular grid that meets the box
/// `[start, end)`, with the box's clip inside each. The pieces cover the
/// box exactly: every box point lies in exactly one listed clip region.
#[verifier::loop_isolation(false)]
pub fn for_each_extent4d(start: Offset4D, end: Offset4D, chunk: Extent4D) -> (cs: Vec<Chunk4D>)
    requires
        start.x < end.x,
        start.y < end.y,
        start.z < end.z,
        1 <= chunk.width,
        1 <= chunk.height,
        1 <= chunk.depth,
        chunk.array_len == 1,
        end.x + chunk.width - 1 <= u32::MAX,
        end.y + chunk.height - 1 <= u32::MAX,
        end.z + chunk.depth - 1 <= u32::MAX,
    ensures
        forall|j: int| 0 <= j < cs@.len() ==> chunk_wf(#[trigger] cs@[j], start, end, chunk),
        forall|x: int, y: int, z: int|
            #[trigger] in_box(start, end, x, y, z) ==> covered(cs@, x, y, z),
        forall|j1: int, j2: int|
            0 <= j1 < cs@.len() && 0 <= j2 < cs@.len() && j1 != j2
                ==> (#[trigger] cs@[j1]).origin != (#[trigger] cs@[j2]).origin,
{
    let ghost cw = chunk.width as int;
    let ghost ch = chunk.height as int;
    let ghost cd = chunk.depth as int;
    let (x0, x1) = aligned_range(start.x, end.x, chunk.width);
    let (y0, y1) = aligned_range(start.y, end.y, chunk.height);
    let (z0, z1) = aligned_range(start.z, end.z, chunk.depth);

    let mut cs: Vec<Chunk4D> = Vec::new();
    proof {
        // No box point has a cell before the first row/column/slice.
        assert forall|gx: int, gy: int, gz: int|
            #[trigger] in_box(start, end, gx, gy, gz)
            implies align_down(gx, cw) >= x0 && align_down(gy, ch) >= y0
                && align_down(gz, cd) >= z0
        by {
            lemma_align_down_mono(start.x as int, gx, cw);
            lemma_align_down_mono(start.y as int, gy, ch);
            lemma_align_down_mono(start.z as int, gz, cd);
        };
    }
    let mut z = z0;
    while z < z1
        invariant
            z0 <= z <= z1,
            z % chunk.depth == 0,
            forall|j: int| 0 <= j < cs@.len() ==> chunk_wf(#[trigger] cs@[j], start, end, chunk),
            forall|j: int| 0 <= j < cs@.len()
                ==> origin_lex_lt((#[trigger] cs@[j]).origin, x0, y0, z),
            forall|j1: int, j2: int|
                0 <= j1 < cs@.len() && 0 <= j2 < cs@.len() && j1 != j2
                    ==> (#[trigger] cs@[j1]).origin != (#[trigger] cs@[j2]).origin,
            forall|gx: int, gy: int, gz: int|
                #[trigger] in_box(start, end, gx, gy, gz) && align_down(gz, cd) < z
                    ==> covered(cs@, gx, gy, gz),
        decreases z1 - z,
    {
        let mut y = y0;
        while y < y1
            invariant
                y0 <= y <= y1,
                y % chunk.height == 0,
                forall|j: int| 0 <= j < cs@.len() ==> chunk_wf(#[trigger] cs@[j], start, end, chunk),
                forall|j: int| 0 <= j < cs@.len()
                    ==> origin_lex_lt((#[trigger] cs@[j]).origin, x0, y, z),
                forall|j1: int, j2: int|
                    0 <= j1 < cs@.len() && 0 <= j2 < cs@.len() && j1 != j2
                        ==> (#[trigger] cs@[j1]).origin != (#[trigger] cs@[j2]).origin,
                forall|gx: int, gy: int, gz: int|
                    #[trigger] in_box(start, end, gx, gy, gz) && align_down(gz, cd) < z
                        ==> covered(cs@, gx, gy, gz),
                forall|gx: int, gy: int, gz: int|
                    #[trigger] in_box(start, end, gx, gy, gz) && align_down(gz, cd) == z
                        && align_down(gy, ch) < y
                        ==> covered(cs@, gx, gy, gz),
            decreases y1 - y,
        {
            let mut x = x0;
            while x < x1
                invariant
                    x0 <= x <= x1,
                    x % chunk.width == 0,
                    forall|j: int| 0 <= j < cs@.len() ==> chunk_wf(#[trigger] cs@[j], start, end, chunk),
                    forall|j: int| 0 <= j < cs@.len()
                        ==> origin_lex_lt((#[trigger] cs@[j]).origin, x, y, z),
                    forall|j1: int, j2: int|
                        0 <= j1 < cs@.len() && 0 <= j2 < cs@.len() && j1 != j2
                            ==> (#[trigger] cs@[j1]).origin != (#[trigger] cs@[j2]).origin,
                    forall|gx: int, gy: int, gz: int|
                        #[trigger] in_box(start, end, gx, gy, gz) && align_down(gz, cd) < z
                            ==> covered(cs@, gx, gy, gz),
                    forall|gx: int, gy: int, gz: int|
                        #[trigger] in_box(start, end, gx, gy, gz) && align_down(gz, cd) == z
                            && align_down(gy, ch) < y
                            ==> covered(cs@, gx, gy, gz),
                    forall|gx: int, gy: int, gz: int|
                        #[trigger] in_box(start, end, gx, gy, gz) && align_down(gz, cd) == z
                            && align_down(gy, ch) == y && align_down(gx, cw) < x
                            ==> covered(cs@, gx, gy, gz),
                decreases x1 - x,
            {
                proof {
                    // This chunk meets the box in every dimension.
                    lemma_aligned_lt(x as int, x1 as int, cw);
                    lemma_aligned_lt(y as int, y1 as int, ch);
                    lemma_aligned_lt(z as int, z1 as int, cd);
                }
                let cx = chunk_range((start.x, end.x), x, chunk.width);
                let cy = chunk_range((start.y, end.y), y, chunk.height);
                let cz = chunk_range((start.z, end.z), z, chunk.depth);
                let c = Chunk4D {
                    origin: Offset4D::new(x, y, z, start.a),
                    start: Offset4D::new(cx.0, cy.0, cz.0, start.a),
                    end: Offset4D::new(cx.1, cy.1, cz.1, end.a),
                };
                let ghost oldcs = cs@;
                cs.push(c);
                proof {
                    assert(chunk_wf(c, start, end, chunk));
                    assert forall|gx: int, gy: int, gz: int|
                        #[trigger] in_box(start, end, gx, gy, gz) && align_down(gz, cd) == z
                            && align_down(gy, ch) == y && align_down(gx, cw) < x + chunk.width
                        implies covered(cs@, gx, gy, gz)
                    by {
                        if align_down(gx, cw) < x {
                            lemma_covered_push(oldcs, c, gx, gy, gz);
                        } else {
                            lemma_align_down(gx, cw);
                            lemma_align_down(gy, ch);
                            lemma_align_down(gz, cd);
                            if align_down(gx, cw) > x {
                                lemma_aligned_lt(x as int, align_down(gx, cw), cw);
                            }
                            assert(align_down(gx, cw) == x);
                            assert(chunk_contains(c, gx, gy, gz));
                            assert(cs@[cs@.len() - 1] == c);
                        }
                    };
                    assert forall|gx: int, gy: int, gz: int|
                        #[trigger] in_box(start, end, gx, gy, gz) && align_down(gz, cd) < z
                        implies covered(cs@, gx, gy, gz)
                    by {
                        lemma_covered_push(oldcs, c, gx, gy, gz);
                    };
                    assert forall|gx: int, gy: int, gz: int|
                        #[trigger] in_box(start, end, gx, gy, gz) && align_down(gz, cd) == z
                            && align_down(gy, ch) < y
                        implies covered(cs@, gx, gy, gz)
                    by {
                        lemma_covered_push(oldcs, c, gx, gy, gz);
                    };
                }
                proof {
                    lemma_mod_add_multiples_vanish(x as int, cw);
                }
                x = x + chunk.width;
            }
            proof {
                // Everything in this row of cells is now covered.
                assert forall|gx: int, gy: int, gz: int|
                    #[trigger] in_box(start, end, gx, gy, gz) && align_down(gz, cd) == z
                        && align_down(gy, ch) < y + chunk.height
                    implies covered(cs@, gx, gy, gz)
                by {
                    lemma_align_down(gy, ch);
                    if align_down(gy, ch) > y {
                        lemma_aligned_lt(y as int, align_down(gy, ch), ch);
                    } else if align_down(gy, ch) == y {
                        lemma_align_down(gx, cw);
                    }
                };
                lemma_aligned_lt(y as int, y1 as int, ch);
                lemma_mod_add_multiples_vanish(y as int, ch);
            }
            y = y + chunk.height;
        }
        proof {
            assert forall|gx: int, gy: int, gz: int|
                #[trigger] in_box(start, end, gx, gy, gz)
                    && align_down(gz, cd) < z + chunk.depth
                implies covered(cs@, gx, gy, gz)
            by {
                lemma_align_down(gz, cd);
                if align_down(gz, cd) > z {
                    lemma_aligned_lt(z as int, align_down(gz, cd), cd);
                } else if align_down(gz, cd) == z {
                    lemma_align_down(gy, ch);
                }
            };
            lemma_aligned_lt(z as int, z1 as int, cd);
            lemma_mod_add_multiples_vanish(z as int, cd);
        }
        z = z + chunk.depth;
    }
    proof {
        assert forall|gx: int, gy: int, gz: int| #[trigger] in_box(start, end, gx, gy, gz)
            implies covered(cs@, gx, gy, gz)
        by {
            lemma_align_down(gz, cd);
            lemma_align_down_mono(gz, end.z as int, cd);
        };
    }
    cs
}

/// Whether `o` is the grid cell origin of the point `(x, y, z)`.
pub open spec fn cell_of(o: Offset4D, chunk: Extent4D, x: int, y: int, z: int) -> bool {
    &&& o.x == align_down(x, chunk.width as int)
    &&& o.y == align_down(y, chunk.height as int)
    &&& o.z == align_down(z, chunk.depth as int)
}

/// Some listed origin is the cell of the point.
pub open spec fn covered_cell(os: Seq<Offset4D>, chunk: Extent4D, x: int, y: int, z: int) -> bool {
    exists|j: int| 0 <= j < os.len() && #[trigger] cell_of(os[j], chunk, x, y, z)
}

proof fn lemma_covered_cell_push(
    os: Seq<Offset4D>, o: Offset4D, chunk: Extent4D, x: int, y: int, z: int,
)
    requires
        covered_cell(os, chunk, x, y, z),
    ensures
        covered_cell(os.push(o), chunk, x, y, z),
{
    let j = choose|j: int| 0 <= j < os.len() && #[trigger] cell_of(os[j], chunk, x, y, z);
    assert(cell_of(os.push(o)[j], chunk, x, y, z));
}

/// Enumerate the origins of all chunks of a box that is already aligned
/// to the chunk grid in every dimension. Every chunk of the box appears
/// exactly once.
#[verifier::loop_isolation(false)]
pub fn for_each_extent4d_aligned(start: Offset4D, end: Offset4D, chunk: Extent4D) -> (os: Vec<Offset4D>)
    requires
        start.x <= end.x,
        start.y <= end.y,
        start.z <= end.z,
        1 <= chunk.width,
        1 <= chunk.height,
        1 <= chunk.depth,
        chunk.array_len == 1,
        start.x % chunk.width == 0,
        start.y % chunk.height == 0,
        start.z % chunk.depth == 0,
        end.x % chunk.width == 0,
        end.y % chunk.height == 0,
        end.z % chunk.depth == 0,
    ensures
        forall|j: int| 0 <= j < os@.len() ==> {
            let o = #[trigger] os@[j];
            &&& o.a == start.a
            &&& o.x % chunk.width == 0
            &&& o.y % chunk.height == 0
            &&& o.z % chunk.depth == 0
            &&& start.x <= o.x && o.x + chunk.width <= end.x
            &&& start.y <= o.y && o.y + chunk.height <= end.y
            &&& start.z <= o.z && o.z + chunk.depth <= end.z
        },
        forall|x: int, y: int, z: int|
            #[trigger] in_box(start, end, x, y, z) ==> covered_cell(os@, chunk, x, y, z),
        forall|j1: int, j2: int|
            0 <= j1 < os@.len() && 0 <= j2 < os@.len() && j1 != j2
                ==> #[trigger] os@[j1] != #[trigger] os@[j2],
{
    let ghost cw = chunk.width as int;
    let ghost ch = chunk.height as int;
    let ghost cd = chunk.depth as int;
    let mut os: Vec<Offset4D> = Vec::new();
    proof {
        // No box point has a cell before the first row/column/slice.
        assert forall|gx: int, gy: int, gz: int|
            #[trigger] in_box(start, end, gx, gy, gz)
            implies align_down(gx, cw) >= start.x && align_down(gy, ch) >= start.y
                && align_down(gz, cd) >= start.z
        by {
            lemma_align_down_mono(start.x as int, gx, cw);
            lemma_align_down_mono(start.y as int, gy, ch);
            lemma_align_down_mono(start.z as int, gz, cd);
        };
    }
    let mut z = start.z;
    while z < end.z
        invariant
            start.z <= z <= end.z,
            z % chunk.depth == 0,
            forall|j: int| 0 <= j < os@.len() ==> {
                let o = #[trigger] os@[j];
                &&& o.a == start.a
                &&& o.x % chunk.width == 0
                &&& o.y % chunk.height == 0
                &&& o.z % chunk.depth == 0
                &&& start.x <= o.x && o.x + chunk.width <= end.x
                &&& start.y <= o.y && o.y + chunk.height <= end.y
                &&& start.z <= o.z && o.z + chunk.depth <= end.z
            },
            forall|j: int| 0 <= j < os@.len()
                ==> origin_lex_lt(#[trigger] os@[j], start.x, start.y, z),
            forall|j1: int, j2: int|
                0 <= j1 < os@.len() && 0 <= j2 < os@.len() && j1 != j2
                    ==> #[trigger] os@[j1] != #[trigger] os@[j2],
            forall|gx: int, gy: int, gz: int|
                #[trigger] in_box(start, end, gx, gy, gz) && align_down(gz, cd) < z
                    ==> covered_cell(os@, chunk, gx, gy, gz),
        decreases end.z - z,
    {
        proof {
            lemma_aligned_lt(z as int, end.z as int, cd);
        }
        let mut y = start.y;
        while y < end.y
            invariant
                z < end.z,
                z % chunk.depth == 0,
                start.y <= y <= end.y,
                y % chunk.height == 0,
                forall|j: int| 0 <= j < os@.len() ==> {
                    let o = #[trigger] os@[j];
                    &&& o.a == start.a
                    &&& o.x % chunk.width == 0
                    &&& o.y % chunk.height == 0
                    &&& o.z % chunk.depth == 0
                    &&& start.x <= o.x && o.x + chunk.width <= end.x
                    &&& start.y <= o.y && o.y + chunk.height <= end.y
                    &&& start.z <= o.z && o.z + chunk.depth <= end.z
                },
                forall|j: int| 0 <= j < os@.len()
                    ==> origin_lex_lt(#[trigger] os@[j], start.x, y, z),
                forall|j1: int, j2: int|
                    0 <= j1 < os@.len() && 0 <= j2 < os@.len() && j1 != j2
                        ==> #[trigger] os@[j1] != #[trigger] os@[j2],
                forall|gx: int, gy: int, gz: int|
                    #[trigger] in_box(start, end, gx, gy, gz) && align_down(gz, cd) < z
                        ==> covered_cell(os@, chunk, gx, gy, gz),
                forall|gx: int, gy: int, gz: int|
                    #[trigger] in_box(start, end, gx, gy, gz) && align_down(gz, cd) == z
                        && align_down(gy, ch) < y
                        ==> covered_cell(os@, chunk, gx, gy, gz),
            decreases end.y - y,
        {
            proof {
                lemma_aligned_lt(y as int, end.y as int, ch);
            }
            let mut x = start.x;
            while x < end.x
                invariant
                    z < end.z,
                    z % chunk.depth == 0,
                    y < end.y,
                    y % chunk.height == 0,
                    start.x <= x <= end.x,
                    x % chunk.width == 0,
                    forall|j: int| 0 <= j < os@.len() ==> {
                        let o = #[trigger] os@[j];
                        &&& o.a == start.a
                        &&& o.x % chunk.width == 0
                        &&& o.y % chunk.height == 0
                        &&& o.z % chunk.depth == 0
                        &&& start.x <= o.x && o.x + chunk.width <= end.x
                        &&& start.y <= o.y && o.y + chunk.height <= end.y
                        &&& start.z <= o.z && o.z + chunk.depth <= end.z
                    },
                    forall|j: int| 0 <= j < os@.len()
                        ==> origin_lex_lt(#[trigger] os@[j], x, y, z),
                    forall|j1: int, j2: int|
                        0 <= j1 < os@.len() && 0 <= j2 < os@.len() && j1 != j2
                            ==> #[trigger] os@[j1] != #[trigger] os@[j2],
                    forall|gx: int, gy: int, gz: int|
                        #[trigger] in_box(start, end, gx, gy, gz) && align_down(gz, cd) < z
                            ==> covered_cell(os@, chunk, gx, gy, gz),
                    forall|gx: int, gy: int, gz: int|
                        #[trigger] in_box(start, end, gx, gy, gz) && align_down(gz, cd) == z
                            && align_down(gy, ch) < y
                            ==> covered_cell(os@, chunk, gx, gy, gz),
                    forall|gx: int, gy: int, gz: int|
                        #[trigger] in_box(start, end, gx, gy, gz) && align_down(gz, cd) == z
                            && align_down(gy, ch) == y && align_down(gx, cw) < x
                            ==> covered_cell(os@, chunk, gx, gy, gz),
                decreases end.x - x,
            {
                proof {
                    lemma_aligned_lt(x as int, end.x as int, cw);
                }
                let o = Offset4D::new(x, y, z, start.a);
                let ghost oldos = os@;
                os.push(o);
                proof {
                    assert forall|gx: int, gy: int, gz: int|
                        #[trigger] in_box(start, end, gx, gy, gz) && align_down(gz, cd) == z
                            && align_down(gy, ch) == y && align_down(gx, cw) < x + chunk.width
                        implies covered_cell(os@, chunk, gx, gy, gz)
                    by {
                        if align_down(gx, cw) < x {
                            lemma_covered_cell_push(oldos, o, chunk, gx, gy, gz);
                        } else {
                            lemma_align_down(gx, cw);
                            if align_down(gx, cw) > x {
                                lemma_aligned_lt(x as int, align_down(gx, cw), cw);
                            }
                            assert(cell_of(o, chunk, gx, gy, gz));
                            assert(os@[os@.len() - 1] == o);
                        }
                    };
                    assert forall|gx: int, gy: int, gz: int|
                        #[trigger] in_box(start, end, gx, gy, gz) && align_down(gz, cd) < z
                        implies covered_cell(os@, chunk, gx, gy, gz)
                    by {
                        lemma_covered_cell_push(oldos, o, chunk, gx, gy, gz);
                    };
                    assert forall|gx: int, gy: int, gz: int|
                        #[trigger] in_box(start, end, gx, gy, gz) && align_down(gz, cd) == z
                            && align_down(gy, ch) < y
                        implies covered_cell(os@, chunk, gx, gy, gz)
                    by {
                        lemma_covered_cell_push(oldos, o, chunk, gx, gy, gz);
                    };
                }
                proof {
                    lemma_mod_add_multiples_vanish(x as int, cw);
                }
                x = x + chunk.width;
            }
            proof {
                assert forall|gx: int, gy: int, gz: int|
                    #[trigger] in_box(start, end, gx, gy, gz) && align_down(gz, cd) == z
                        && align_down(gy, ch) < y + chunk.height
                    implies covered_cell(os@, chunk, gx, gy, gz)
                by {
                    lemma_align_down(gy, ch);
                    if align_down(gy, ch) > y {
                        lemma_aligned_lt(y as int, align_down(gy, ch), ch);
                    } else if align_down(gy, ch) == y {
                        lemma_align_down(gx, cw);
                    }
                };
                lemma_mod_add_multiples_vanish(y as int, ch);
            }
            y = y + chunk.height;
        }
        proof {
            assert forall|gx: int, gy: int, gz: int|
                #[trigger] in_box(start, end, gx, gy, gz)
                    && align_down(gz, cd) < z + chunk.depth
                implies covered_cell(os@, chunk, gx, gy, gz)
            by {
                lemma_align_down(gz, cd);
                if align_down(gz, cd) > z {
                    lemma_aligned_lt(z as int, align_down(gz, cd), cd);
                } else if align_down(gz, cd) == z {
                    lemma_align_down(gy, ch);
                }
            };
            lemma_mod_add_multiples_vanish(z as int, cd);
        }
        z = z + chunk.depth;
    }
    proof {
        assert forall|gx: int, gy: int, gz: int| #[trigger] in_box(start, end, gx, gy, gz)
            implies covered_cell(os@, chunk, gx, gy, gz)
        by {
            lemma_align_down(gz, cd);
            lemma_align_down_mono(gz, end.z as int, cd);
        };
    }
    os
}

} // verus!
