//! A depth-buffered raster target for a software renderer.

pub mod buffer;
pub mod color;
pub mod depth;
pub mod mesh;
pub mod raster;
pub mod stamp;
pub mod visibility;
