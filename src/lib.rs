//! A small software rasterizer: colors, a pixel canvas with an optional depth
//! buffer, line and triangle rasterization in pixel space, and the line grammar
//! of the text mesh format that feeds it.

pub mod color;
pub mod depth_grid;
pub mod canvas;
pub mod raster;
pub mod paint;
pub mod obj;
