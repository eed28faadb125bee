//! An in-memory raster canvas that accumulates per-pixel color samples and
//! serializes them to a plain-text Portable Pixmap (PPM) image.
//!
//! The canvas stores one display value per channel, already scaled and
//! clamped to `0..=255`. Incoming samples are linear intensities given in
//! thousandths, so the scaling rule `ceiling(clamp(c * 255, 0, 255))` is
//! exact integer arithmetic. The encoder reproduces an exact line-wrapping
//! algorithm: a running character budget of 70 per physical line, wrap
//! decisions taken per channel token, and a deterministic trailing newline.

pub mod canvas;
pub mod color;
pub mod lines;
pub mod ppm;
pub mod tokens;
