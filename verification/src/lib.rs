//! Verified core of an interactive Monte-Carlo path tracer.
//!
//! The library holds the parts of the renderer that are plain data and
//! integer logic: the pixel grid and its RGBA byte layout, the streaming
//! framebuffer writes, the tile partition that drives the parallel render,
//! the structural construction of the bounding-volume hierarchy, the
//! progress counters and their overlay numbers, the overlay's number
//! formatting, and the text rasterizer.  The floating-point
//! geometry (rays, spheres, materials, the camera) and the window and file
//! plumbing live outside, in the unverified shell around this crate.

pub mod bvh;
pub mod chunk;
pub mod format;
pub mod framebuffer;
pub mod maths;
pub mod pixel;
pub mod stats;
pub mod text;

pub use pixel::Pixel;
pub use pixel::PixelBatchUpdate;
pub use pixel::Rgba8;
