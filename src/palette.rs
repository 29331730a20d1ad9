use vstd::prelude::*;

verus! {

/// The eight colors a terminal can show by name.
#[derive(Clone, Copy, Debug, PartialEq, Eq, Structural)]
pub enum TermColor {
    Black,
    Blue,
    Green,
    Red,
    Cyan,
    Magenta,
    Yellow,
    White,
}

/// A color of the drawing: red, green, blue and alpha channels.
#[derive(Clone, Copy, Debug, PartialEq, Eq, Structural)]
pub struct Color {
    pub r: u8,
    pub g: u8,
    pub b: u8,
    pub a: u8,
}

impl Color {
    pub fn new(r: u8, g: u8, b: u8, a: u8) -> (c: Color)
        ensures
            c == (Color { r, g, b, a }),
    {
        Color { r, g, b, a }
    }

    /// An opaque color.
    pub fn rgb(r: u8, g: u8, b: u8) -> (c: Color)
        ensures
            c == (Color { r, g, b, a: 255 }),
    {
        Color { r, g, b, a: 255 }
    }
}

/// The terminal color that a drawing color falls into: each channel counts as high above
/// 128 and as low under 128; near-white (all above 200) and near-black (all under 100)
/// are told apart; anything else is white.
pub open spec fn bucket(r: int, g: int, b: int) -> TermColor {
    if r > 128 && g < 128 && b < 128 {
        TermColor::Red
    } else if r < 128 && g > 128 && b < 128 {
        TermColor::Green
    } else if r < 128 && g < 128 && b > 128 {
        TermColor::Blue
    } else if r > 128 && g > 128 && b < 128 {
        TermColor::Yellow
    } else if r > 128 && g < 128 && b > 128 {
        TermColor::Magenta
    } else if r < 128 && g > 128 && b > 128 {
        TermColor::Cyan
    } else if r > 200 && g > 200 && b > 200 {
        TermColor::White
    } else if r < 100 && g < 100 && b < 100 {
        TermColor::Black
    } else {
        TermColor::White
    }
}

pub open spec fn spec_term_color(c: Option<Color>) -> Option<TermColor> {
    match c {
        Some(c) => Some(bucket(c.r as int, c.g as int, c.b as int)),
        None => None,
    }
}

/// The red, green and blue channels of a color.
pub fn extract_rgb_from_color(color: &Color) -> (rgb: (u8, u8, u8))
    ensures
        rgb == (color.r, color.g, color.b),
{
    (color.r, color.g, color.b)
}

/// The terminal color for an optional fill color; no fill color gives none.
pub fn style_color_to_term_color(color: Option<Color>) -> (r: Option<TermColor>)
    ensures
        r == spec_term_color(color),
{
    match color {
        None => None,
        Some(c) => {
            let (r, g, b) = extract_rgb_from_color(&c);
            let t = if r > 128 && g < 128 && b < 128 {
                TermColor::Red
            } else if r < 128 && g > 128 && b < 128 {
                TermColor::Green
            } else if r < 128 && g < 128 && b > 128 {
                TermColor::Blue
            } else if r > 128 && g > 128 && b < 128 {
                TermColor::Yellow
            } else if r > 128 && g < 128 && b > 128 {
                TermColor::Magenta
            } else if r < 128 && g > 128 && b > 128 {
                TermColor::Cyan
            } else if r > 200 && g > 200 && b > 200 {
                TermColor::White
            } else if r < 100 && g < 100 && b < 100 {
                TermColor::Black
            } else {
                TermColor::White
            };
            Some(t)
        },
    }
}

/// The ANSI SGR foreground code of a terminal color.
pub open spec fn spec_ansi_code(c: TermColor) -> u8 {
    match c {
        TermColor::Black => 30,
        TermColor::Red => 31,
        TermColor::Green => 32,
        TermColor::Yellow => 33,
        TermColor::Blue => 34,
        TermColor::Magenta => 35,
        TermColor::Cyan => 36,
        TermColor::White => 37,
    }
}

pub fn color_to_ansi(c: TermColor) -> (code: u8)
    ensures
        code == spec_ansi_code(c),
{
    match c {
        TermColor::Black => 30,
        TermColor::Blue => 34,
        TermColor::Green => 32,
        TermColor::Red => 31,
        TermColor::Cyan => 36,
        TermColor::Magenta => 35,
        TermColor::Yellow => 33,
        TermColor::White => 37,
    }
}

} // verus!
