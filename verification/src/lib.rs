//! A minimal 2d software rendering library.
//!
//! The library owns a rectangular pixel surface ([`RenderTarget`]) and draws
//! basic shapes into it (points, lines, circles, rectangles and triangles,
//! outlined and filled) with integer pixel-stepping algorithms.  Every drawing
//! operation is bounds-checked pixel by pixel, so geometry that leaves the
//! surface is clipped rather than rejected.  [`RainCore`] bundles the surface
//! with the frame-cadence bookkeeping (frame timing, FPS counting, exit
//! conditions) that a windowed shell drives once per tick.
#![verifier::loop_isolation(false)]

pub mod color;
pub mod engine;
pub mod raster;
pub mod rendertarget;

pub use color::Color;
pub use color::{black, blue, cyan, green, magenta, none, red, white, yellow};
pub use engine::RainCore;
pub use rendertarget::RenderTarget;
