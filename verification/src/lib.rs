//! Numeric and raster foundation of an incremental ray tracer: an RGB color
//! raster ("canvas") addressed by pixel coordinates, and a streaming encoder
//! that serializes the canvas into the plain-text PPM image format with
//! output lines wrapped at a fixed column budget.
//!
//! Color channels are stored as the bit patterns of IEEE 754 double-precision
//! values, so the raster and the encoder are exact integer logic throughout;
//! floating-point arithmetic on channels is the business of callers.

pub mod approximate_equation;
pub mod canvas;
pub mod color;
pub mod decimal;
pub mod writer;
