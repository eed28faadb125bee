//! Color samples and the scaling rule that turns them into display values.
//!
//! A [`Color`] carries linear channel intensities in thousandths: the value
//! `1000` stands for full intensity `1.0`, `500` for `0.5`, and negative
//! values are admitted (they clamp to black on write). A [`Pixel`] is what
//! the canvas stores: one display value per channel, an integer in
//! `0..=255`.

use vstd::prelude::*;

verus! {

/// A linear color sample. Each channel is an intensity in thousandths:
/// `r == 1500` means a red intensity of `1.5`.
#[derive(Clone, Copy, Debug, PartialEq, Eq, Structural)]
pub struct Color {
    pub r: i64,
    pub g: i64,
    pub b: i64,
}

/// A stored pixel: the display value of each channel, scaled and clamped
/// to `0..=255`.
#[derive(Clone, Copy, Debug, PartialEq, Eq, Structural)]
pub struct Pixel {
    pub r: u8,
    pub g: u8,
    pub b: u8,
}

/// The display value of a channel intensity `c` given in thousandths:
/// `ceiling(clamp(c * 255 / 1000, 0, 255))`, with the clamp applied to the
/// scaled value before rounding and the rounding always toward positive
/// infinity.
pub open spec fn display_of(c: int) -> u8 {
    if c <= 0 {
        0
    } else if c >= 1000 {
        255
    } else {
        (((c * 255) + 999) / 1000) as u8
    }
}

/// Scales and clamps one channel intensity (in thousandths) to its display
/// value.
pub fn scale_channel(c: i64) -> (r: u8)
    ensures
        r == display_of(c as int),
{
    if c <= 0 {
        0
    } else if c >= 1000 {
        255
    } else {
        (((c * 255) + 999) / 1000) as u8
    }
}

/// Scales and clamps all three channels of a color sample.
pub fn scale_color(c: Color) -> (p: Pixel)
    ensures
        p.r == display_of(c.r as int),
        p.g == display_of(c.g as int),
        p.b == display_of(c.b as int),
{
    Pixel { r: scale_channel(c.r), g: scale_channel(c.g), b: scale_channel(c.b) }
}

} // verus!
