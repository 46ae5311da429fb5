//! Verified core of a small CPU vector-graphics renderer: packed ARGB colors,
//! a borrowed pixel canvas, integer rasterisation steps, the structure of
//! vector paths, gathering paths into point lists, and assembling stroke
//! outlines.

pub mod color;
pub mod canvas;
pub mod raster;
pub mod path;
pub mod outline;
pub mod gather;
