//! Colors with 8-bit channels, encoded in the sRGB color space.
use vstd::prelude::*;

verus! {

/// A color, encoded in the sRGB (non-linear) color space, with an alpha channel.
#[derive(Clone, Copy, Debug, PartialEq, Eq, Structural)]
pub struct Srgba8 {
    /// The red component of the color.
    pub red: u8,
    /// The green component of the color.
    pub green: u8,
    /// The blue component of the color.
    pub blue: u8,
    /// The alpha component of the color.
    pub alpha: u8,
}

impl Srgba8 {
    /// Creates a new color from the provided components.
    pub fn rgba(red: u8, green: u8, blue: u8, alpha: u8) -> (r: Self)
        ensures
            r == (Srgba8 { red, green, blue, alpha }),
    {
        Srgba8 { red, green, blue, alpha }
    }

    /// Creates a new color from the provided components, with an alpha of `255`.
    pub fn rgb(red: u8, green: u8, blue: u8) -> (r: Self)
        ensures
            r == (Srgba8 { red, green, blue, alpha: 255 }),
    {
        Srgba8 { red, green, blue, alpha: 255 }
    }

    /// Returns whether the color is transparent: its alpha is zero.
    pub fn is_transparent(&self) -> (r: bool)
        ensures
            r == (self.alpha == 0),
    {
        self.alpha == 0
    }

    /// The color white.
    pub fn white() -> (r: Self)
        ensures
            r == (Srgba8 { red: 255, green: 255, blue: 255, alpha: 255 }),
    {
        Self::rgb(255, 255, 255)
    }

    /// The color black.
    pub fn black() -> (r: Self)
        ensures
            r == (Srgba8 { red: 0, green: 0, blue: 0, alpha: 255 }),
    {
        Self::rgb(0, 0, 0)
    }

    /// The color red.
    pub fn red() -> (r: Self)
        ensures
            r == (Srgba8 { red: 255, green: 0, blue: 0, alpha: 255 }),
    {
        Self::rgb(255, 0, 0)
    }

    /// The color green.
    pub fn green() -> (r: Self)
        ensures
            r == (Srgba8 { red: 0, green: 255, blue: 0, alpha: 255 }),
    {
        Self::rgb(0, 255, 0)
    }

    /// The color blue.
    pub fn blue() -> (r: Self)
        ensures
            r == (Srgba8 { red: 0, green: 0, blue: 255, alpha: 255 }),
    {
        Self::rgb(0, 0, 255)
    }

    /// The color yellow.
    pub fn yellow() -> (r: Self)
        ensures
            r == (Srgba8 { red: 255, green: 255, blue: 0, alpha: 255 }),
    {
        Self::rgb(255, 255, 0)
    }

    /// The color cyan.
    pub fn cyan() -> (r: Self)
        ensures
            r == (Srgba8 { red: 0, green: 255, blue: 255, alpha: 255 }),
    {
        Self::rgb(0, 255, 255)
    }

    /// The color magenta.
    pub fn magenta() -> (r: Self)
        ensures
            r == (Srgba8 { red: 255, green: 0, blue: 255, alpha: 255 }),
    {
        Self::rgb(255, 0, 255)
    }

    /// The fully transparent color.
    pub fn transparent() -> (r: Self)
        ensures
            r == (Srgba8 { red: 0, green: 0, blue: 0, alpha: 0 }),
    {
        Self::rgba(0, 0, 0, 0)
    }
}

} // verus!
