//! Fonts and colors as plain values: what the formatting model compares and
//! stores. Float components are kept as their IEEE-754 bit patterns.

use vstd::prelude::*;

verus! {

/// The family of a font; named families carry the number under which the
/// application registered the name.
#[derive(Debug, Clone, Copy, PartialEq, Eq, Structural, Default)]
pub enum Family {
    Name(u32),
    Serif,
    #[default]
    SansSerif,
    Cursive,
    Fantasy,
    Monospace,
}

/// The weight of a font.
#[derive(Debug, Clone, Copy, PartialEq, Eq, Structural, Default)]
pub enum Weight {
    Thin,
    ExtraLight,
    Light,
    #[default]
    Normal,
    Medium,
    Semibold,
    Bold,
    ExtraBold,
    Black,
}

/// The width of a font.
#[derive(Debug, Clone, Copy, PartialEq, Eq, Structural, Default)]
pub enum Stretch {
    UltraCondensed,
    ExtraCondensed,
    Condensed,
    SemiCondensed,
    #[default]
    Normal,
    SemiExpanded,
    Expanded,
    ExtraExpanded,
    UltraExpanded,
}

/// The slant of a font.
#[derive(Debug, Clone, Copy, PartialEq, Eq, Structural, Default)]
pub enum FontStyle {
    #[default]
    Normal,
    Italic,
    Oblique,
}

/// A font: family, weight, stretch and style.
#[derive(Debug, Clone, Copy, PartialEq, Eq, Structural, Default)]
pub struct Font {
    pub family: Family,
    pub weight: Weight,
    pub stretch: Stretch,
    pub style: FontStyle,
}

/// An RGBA color, each channel the bit pattern of an `f32` in `0.0..=1.0`.
#[derive(Debug, Clone, Copy, PartialEq, Eq, Structural, Default)]
pub struct Color {
    pub r: u32,
    pub g: u32,
    pub b: u32,
    pub a: u32,
}

} // verus!
