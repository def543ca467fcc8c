//! Raster primitives for a small ray tracer: a pixel canvas addressed by
//! coordinates and its serialisation to the plain-text PPM image format.
pub mod canvas;
pub mod ppm;
pub mod text;

pub use canvas::{canvas, Canvas};
pub use text::Rgb;
