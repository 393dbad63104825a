//! A software 2D rasterizer: a packed-pixel framebuffer with alpha
//! compositing, anti-aliased line and shape drawing, and the integer
//! geometry primitives that feed the shape queries.
//!
//! All coordinates are subpixel-precise fixed-point values: `fixed::FX_ONE`
//! units make one pixel.

pub mod application;
pub mod canvas;
pub mod color;
pub mod fixed;
pub mod line;
pub mod pixelbuffer;
pub mod point;
pub mod rect;
pub mod shape;
