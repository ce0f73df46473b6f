//! The style override that a widget may carry.
//!
//! The core stores and forwards overrides and compares them by value; it never
//! computes with them. Measures are therefore kept as the bit patterns of
//! single-precision numbers, which makes equality exact.

use vstd::prelude::*;

verus! {

/// A single-precision number, held as its IEEE-754 bit pattern.
#[derive(Clone, Copy, Debug, PartialEq, Eq, Structural, Hash)]
pub struct Scalar {
    pub bits: u32,
}

/// Bit pattern of `0.0`.
pub const SCALAR_ZERO: u32 = 0x0000_0000;

/// Bit pattern of `0.125`.
pub const SCALAR_EIGHTH: u32 = 0x3E00_0000;

/// Bit pattern of `1.0`.
pub const SCALAR_ONE: u32 = 0x3F80_0000;

/// Bit pattern of `12.0`.
pub const SCALAR_TWELVE: u32 = 0x4140_0000;

/// Bit pattern of `200.0`.
pub const SCALAR_TWO_HUNDRED: u32 = 0x4348_0000;

impl Scalar {
    /// The number with the given bit pattern.
    pub fn from_bits(bits: u32) -> (s: Scalar)
        ensures
            s.bits == bits,
    {
        Scalar { bits }
    }

    /// The bit pattern of the number.
    pub fn to_bits(self) -> (bits: u32)
        ensures
            bits == self.bits,
    {
        self.bits
    }
}

/// A colour with red, green, blue and alpha channels.
#[derive(Clone, Copy, Debug, PartialEq, Eq, Structural, Hash)]
pub struct Color {
    pub r: Scalar,
    pub g: Scalar,
    pub b: Scalar,
    pub a: Scalar,
}

impl Color {
    /// The colour with the given channels.
    pub fn new(r: Scalar, g: Scalar, b: Scalar, a: Scalar) -> (c: Color)
        ensures
            c == (Color { r, g, b, a }),
    {
        Color { r, g, b, a }
    }
}

/// A length along one axis.
#[derive(Clone, Copy, Debug, PartialEq, Eq, Structural, Hash)]
pub enum Units {
    Pixels(Scalar),
    Percentage(Scalar),
    Stretch(Scalar),
    Auto,
}

/// Who positions a widget: its parent's layout, or the widget itself.
#[derive(Clone, Copy, Debug, PartialEq, Eq, Structural, Hash)]
pub enum PositionType {
    ParentDirected,
    SelfDirected,
}

/// The four corner radii of a border.
#[derive(Clone, Copy, Debug, PartialEq, Eq, Structural, Hash)]
pub struct Corners {
    pub top_left: Scalar,
    pub top_right: Scalar,
    pub bottom_left: Scalar,
    pub bottom_right: Scalar,
}

/// One property of a style: left to the cascade, or given a value.
#[derive(Clone, Copy, Debug, PartialEq, Eq, Structural, Hash)]
pub enum StyleProp<T> {
    Unset,
    Default,
    Inherit,
    Value(T),
}

/// A style override: the properties that a widget sets on itself.
#[derive(Clone, Copy, Debug, PartialEq, Eq, Structural, Hash)]
pub struct Style {
    pub background_color: StyleProp<Color>,
    pub border_radius: StyleProp<Corners>,
    pub position_type: StyleProp<PositionType>,
    pub left: StyleProp<Units>,
    pub top: StyleProp<Units>,
    pub bottom: StyleProp<Units>,
    pub width: StyleProp<Units>,
    pub height: StyleProp<Units>,
}

impl Style {
    /// The style that sets nothing: every property is `Default`.
    pub open spec fn spec_default() -> Style {
        Style {
            background_color: StyleProp::Default,
            border_radius: StyleProp::Default,
            position_type: StyleProp::Default,
            left: StyleProp::Default,
            top: StyleProp::Default,
            bottom: StyleProp::Default,
            width: StyleProp::Default,
            height: StyleProp::Default,
        }
    }
}

impl Default for Style {
    fn default() -> (s: Style)
        ensures
            s == Style::spec_default(),
    {
        Style {
            background_color: StyleProp::Default,
            border_radius: StyleProp::Default,
            position_type: StyleProp::Default,
            left: StyleProp::Default,
            top: StyleProp::Default,
            bottom: StyleProp::Default,
            width: StyleProp::Default,
            height: StyleProp::Default,
        }
    }
}

/// Whether two optional overrides are the same override.
pub fn same_styles(a: &Option<Style>, b: &Option<Style>) -> (r: bool)
    ensures
        r == (*a == *b),
{
    match (a, b) {
        (None, None) => true,
        (Some(x), Some(y)) => *x == *y,
        _ => false,
    }
}

} // verus!
