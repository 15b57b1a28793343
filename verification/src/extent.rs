//! Four-component byte offsets and extents.
//!
//! The fourth (array) component is carried along but always spans a single
//! slice in this subsystem: rectangles run from `a == 0` to `a == 1`.

use vstd::prelude::*;

verus! {

/// A four-component size: width/height/depth in bytes plus an array length.
#[derive(Clone, Copy, Debug, PartialEq, Eq, Structural)]
pub struct Extent4D {
    pub width: u32,
    pub height: u32,
    pub depth: u32,
    pub array_len: u32,
}

/// A four-component position, in bytes for the first three components.
#[derive(Clone, Copy, Debug, PartialEq, Eq, Structural)]
pub struct Offset4D {
    pub x: u32,
    pub y: u32,
    pub z: u32,
    pub a: u32,
}

impl Extent4D {
    pub fn new(width: u32, height: u32, depth: u32, array_len: u32) -> (e: Extent4D)
        ensures
            e == (Extent4D { width, height, depth, array_len }),
    {
        Extent4D { width, height, depth, array_len }
    }
}

impl Offset4D {
    pub fn new(x: u32, y: u32, z: u32, a: u32) -> (o: Offset4D)
        ensures
            o == (Offset4D { x, y, z, a }),
    {
        Offset4D { x, y, z, a }
    }

    /// The position one extent past `self`, componentwise.
    pub fn plus_extent(self, e: Extent4D) -> (r: Offset4D)
        requires
            self.x + e.width <= u32::MAX,
            self.y + e.height <= u32::MAX,
            self.z + e.depth <= u32::MAX,
            self.a + e.array_len <= u32::MAX,
        ensures
            r.x == self.x + e.width,
            r.y == self.y + e.height,
            r.z == self.z + e.depth,
            r.a == self.a + e.array_len,
    {
        Offset4D {
            x: self.x + e.width,
            y: self.y + e.height,
            z: self.z + e.depth,
            a: self.a + e.array_len,
        }
    }
}

/// Whether the point `(x, y, z)` lies in the half-open box `[lo, hi)`.
/// The array component is not part of the box: rectangles in this
/// subsystem always span exactly the slice `a == 0`.
pub open spec fn in_box(lo: Offset4D, hi: Offset4D, x: int, y: int, z: int) -> bool {
    &&& lo.x <= x < hi.x
    &&& lo.y <= y < hi.y
    &&& lo.z <= z < hi.z
}

} // verus!
