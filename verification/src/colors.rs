//! Color values for the pixel buffer.

use vstd::prelude::*;

verus! {

/// A color as four 8-bit channels.
#[derive(Debug, Copy, Clone, PartialEq, Eq, Structural)]
pub struct RGBA {
    pub r: u8,
    pub g: u8,
    pub b: u8,
    pub a: u8,
}

/// The named colors the rasterizer draws with.
#[derive(Debug, Copy, Clone, PartialEq, Eq, Structural)]
pub enum Color {
    White,
    Red,
    Green,
    Blue,
    Yellow,
}

/// The channel values of each named color.
pub open spec fn rgba_of(c: Color) -> RGBA {
    match c {
        Color::White => RGBA { r: 255, g: 255, b: 255, a: 255 },
        Color::Red => RGBA { r: 255, g: 0, b: 0, a: 255 },
        Color::Green => RGBA { r: 0, g: 255, b: 0, a: 255 },
        Color::Blue => RGBA { r: 0, g: 0, b: 255, a: 255 },
        Color::Yellow => RGBA { r: 255, g: 200, b: 0, a: 255 },
    }
}

impl Color {
    /// The four-channel value of this color.
    pub fn rgba_value(&self) -> (c: RGBA)
        ensures
            c == rgba_of(*self),
    {
        match self {
            Color::White => RGBA { r: 255, g: 255, b: 255, a: 255 },
            Color::Red => RGBA { r: 255, g: 0, b: 0, a: 255 },
            Color::Green => RGBA { r: 0, g: 255, b: 0, a: 255 },
            Color::Blue => RGBA { r: 0, g: 0, b: 255, a: 255 },
            Color::Yellow => RGBA { r: 255, g: 200, b: 0, a: 255 },
        }
    }
}

} // verus!
