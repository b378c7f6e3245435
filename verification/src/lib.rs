//! A scanline rasterizer's verified core: path construction, sub-path
//! extraction, bounding boxes and the active-edge bookkeeping of the
//! scanline fill.

pub mod geometry;
pub mod path;
pub mod rect;
pub mod scanline;
pub mod profile;
