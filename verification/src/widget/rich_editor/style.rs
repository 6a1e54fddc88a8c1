//! The appearance of the rich editor, and its default style.
//!
//! Lengths and color channels are kept as the bit patterns of `f32` values.

use vstd::prelude::*;

use crate::appearance::Color;
use crate::widget::rich_editor::Status;

verus! {

/// `2.0_f32`, the default corner radius.
pub const RADIUS_TWO: u32 = 0x4000_0000;

/// `1.0_f32`, the default border width.
pub const WIDTH_ONE: u32 = 0x3F80_0000;

/// The background of an editor.
#[derive(Debug, Clone, Copy, PartialEq, Eq, Structural)]
pub enum Background {
    Color(Color),
}

/// The radius of each corner.
#[derive(Debug, Clone, Copy, PartialEq, Eq, Structural)]
pub struct Radius {
    pub top_left: u32,
    pub top_right: u32,
    pub bottom_right: u32,
    pub bottom_left: u32,
}

/// A border.
#[derive(Debug, Clone, Copy, PartialEq, Eq, Structural)]
pub struct Border {
    pub color: Color,
    pub width: u32,
    pub radius: Radius,
}

/// The appearance of a rich editor.
#[derive(Debug, Clone, Copy, PartialEq, Eq, Structural)]
pub struct Style {
    /// The background.
    pub background: Background,
    /// The border.
    pub border: Border,
    /// The placeholder color.
    pub placeholder: Color,
    /// The value color.
    pub value: Color,
    /// The selection color.
    pub selection: Color,
}

/// The colors of a theme's palette that the default style uses.
#[derive(Debug, Clone, Copy, PartialEq, Eq, Structural)]
pub struct Palette {
    pub background_base: Color,
    pub background_base_text: Color,
    pub background_weak: Color,
    pub background_strong: Color,
    pub background_strongest: Color,
    pub primary_weak: Color,
    pub primary_strong: Color,
    pub secondary_base: Color,
}

/// The active style: the base background, a thin border in the strong
/// background color, and the base text color for the value.
pub open spec fn active_style(p: Palette) -> Style {
    Style {
        background: Background::Color(p.background_base),
        border: Border {
            radius: Radius {
                top_left: RADIUS_TWO,
                top_right: RADIUS_TWO,
                bottom_right: RADIUS_TWO,
                bottom_left: RADIUS_TWO,
            },
            width: WIDTH_ONE,
            color: p.background_strong,
        },
        placeholder: p.secondary_base,
        value: p.background_base_text,
        selection: p.primary_weak,
    }
}

/// The default style for each status: hovering darkens the border to the
/// text color, focus colors it with the strong primary color, and a
/// disabled editor has a weak background and placeholder-colored value.
pub open spec fn default_style(p: Palette, status: Status) -> Style {
    let active = active_style(p);
    match status {
        Status::Active => active,
        Status::Hovered => Style { border: Border { color: p.background_base_text, ..active.border }, ..active },
        Status::Focused { .. } => Style {
            border: Border { color: p.primary_strong, ..active.border },
            ..active
        },
        Status::Disabled => Style {
            background: Background::Color(p.background_weak),
            value: active.placeholder,
            placeholder: p.background_strongest,
            ..active
        },
    }
}

/// The default style.
pub fn default(palette: &Palette, status: Status) -> (s: Style)
    ensures
        s == default_style(*palette, status),
{
    let active = Style {
        background: Background::Color(palette.background_base),
        border: Border {
            radius: Radius {
                top_left: RADIUS_TWO,
                top_right: RADIUS_TWO,
                bottom_right: RADIUS_TWO,
                bottom_left: RADIUS_TWO,
            },
            width: WIDTH_ONE,
            color: palette.background_strong,
        },
        placeholder: palette.secondary_base,
        value: palette.background_base_text,
        selection: palette.primary_weak,
    };

    match status {
        Status::Active => active,
        Status::Hovered => Style {
            border: Border { color: palette.background_base_text, ..active.border },
            ..active
        },
        Status::Focused { .. } => Style {
            border: Border { color: palette.primary_strong, ..active.border },
            ..active
        },
        Status::Disabled => Style {
            background: Background::Color(palette.background_weak),
            value: active.placeholder,
            placeholder: palette.background_strongest,
            ..active
        },
    }
}

} // verus!
