//! CPU-side codec between strided linear byte layouts and the NVIDIA
//! block-linear tiled layout, together with a virtual-address range
//! allocator for the GPU address space that backs the tiled buffers.
//!
//! An image level is tiled as a raster-order grid of tiles; each tile is a
//! block-linear arrangement of 512-byte GOBs; each GOB interleaves its bytes
//! by a fixed bit pattern. The copy routines move an arbitrary byte
//! rectangle between a tiled buffer and a strided linear buffer, and their
//! contracts pin down the destination byte at every address.

#![allow(non_snake_case)]

pub mod arith;
pub mod copy;
pub mod extent;
pub mod gob;
pub mod partition;
pub mod pointer;
pub mod tiling;
pub mod vm;
