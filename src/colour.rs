//! Reduction of a highlighting theme's 24-bit colours to the ANSI palette.
//!
//! Solarized maps cleanly onto the eight ANSI accent colours, so each of its
//! accent tones is mapped back to the ANSI colour it stands for. Its eight
//! "base" tones differ between the light and the dark variant of the theme,
//! so all of them map to the terminal's default foreground. Any other colour
//! is rejected: there is deliberately no nearest-colour guess.

use vstd::prelude::*;

verus! {

/// The ANSI colours a terminal is asked to show.
#[derive(Clone, Copy, Debug, PartialEq, Eq, Structural)]
pub enum AnsiColour {
    Black,
    Red,
    Green,
    Yellow,
    Blue,
    Magenta,
    Cyan,
    White,
    LightBlack,
    LightRed,
    LightGreen,
    LightYellow,
    LightBlue,
    LightMagenta,
    LightCyan,
    LightWhite,
}

/// A 24-bit colour of a highlighting theme.
#[derive(Clone, Copy, Debug, PartialEq, Eq, Structural)]
pub struct Rgb {
    pub r: u8,
    pub g: u8,
    pub b: u8,
}

/// Font style flags of a highlighted token.
#[derive(Clone, Copy, Debug, PartialEq, Eq, Structural)]
pub struct FontStyle {
    pub bold: bool,
    pub italic: bool,
    pub underline: bool,
}

/// What a highlighted token is shown with: a foreground colour, `None` for
/// the terminal's default foreground, and the font style flags.
#[derive(Clone, Copy, Debug, PartialEq, Eq, Structural)]
pub struct Quantized {
    pub colour: Option<AnsiColour>,
    pub font: FontStyle,
}

/// A colour that is not part of the Solarized palette.
#[derive(Clone, Copy, Debug, PartialEq, Eq, Structural)]
pub struct QuantizationError {
    pub colour: Rgb,
}

/// The eight Solarized base tones, base03 up to base3.
pub open spec fn is_base_tone(c: Rgb) -> bool {
    (c.r == 0x00 && c.g == 0x2b && c.b == 0x36) || (c.r == 0x07 && c.g == 0x36 && c.b == 0x42)
        || (c.r == 0x58 && c.g == 0x6e && c.b == 0x75) || (c.r == 0x65 && c.g == 0x7b && c.b
        == 0x83) || (c.r == 0x83 && c.g == 0x94 && c.b == 0x96) || (c.r == 0x93 && c.g == 0xa1
        && c.b == 0xa1) || (c.r == 0xee && c.g == 0xe8 && c.b == 0xd5) || (c.r == 0xfd && c.g
        == 0xf6 && c.b == 0xe3)
}

/// The ANSI colour of a Solarized accent tone, `None` for any other colour.
pub open spec fn accent_of(c: Rgb) -> Option<AnsiColour> {
    if c.r == 0xb5 && c.g == 0x89 && c.b == 0x00 {
        Some(AnsiColour::Yellow)
    } else if c.r == 0xcb && c.g == 0x4b && c.b == 0x16 {
        // orange
        Some(AnsiColour::LightRed)
    } else if c.r == 0xdc && c.g == 0x32 && c.b == 0x2f {
        Some(AnsiColour::Red)
    } else if c.r == 0xd3 && c.g == 0x36 && c.b == 0x82 {
        Some(AnsiColour::Magenta)
    } else if c.r == 0x6c && c.g == 0x71 && c.b == 0xc4 {
        // violet
        Some(AnsiColour::LightMagenta)
    } else if c.r == 0x26 && c.g == 0x8b && c.b == 0xd2 {
        Some(AnsiColour::Blue)
    } else if c.r == 0x2a && c.g == 0xa1 && c.b == 0x98 {
        Some(AnsiColour::Cyan)
    } else if c.r == 0x85 && c.g == 0x99 && c.b == 0x00 {
        Some(AnsiColour::Green)
    } else {
        None
    }
}

/// Whether a colour belongs to the palette the quantizer knows.
pub open spec fn in_palette(c: Rgb) -> bool {
    is_base_tone(c) || accent_of(c) is Some
}

/// The result of quantizing a colour with a font style.
pub open spec fn quantize_spec(c: Rgb, font: FontStyle) -> Result<Quantized, QuantizationError> {
    if is_base_tone(c) {
        Ok(Quantized { colour: None, font })
    } else if accent_of(c) is Some {
        Ok(Quantized { colour: accent_of(c), font })
    } else {
        Err(QuantizationError { colour: c })
    }
}

/// Map a Solarized colour and a font style to an ANSI colour (or the default
/// foreground) and the same font style; reject any colour off the palette.
pub fn quantize(c: Rgb, font: FontStyle) -> (r: Result<Quantized, QuantizationError>)
    ensures
        r == quantize_spec(c, font),
        r is Ok <==> in_palette(c),
{
    let (r, g, b) = (c.r, c.g, c.b);
    let colour = match (r, g, b) {
        (0x00, 0x2b, 0x36)
        | (0x07, 0x36, 0x42)
        | (0x58, 0x6e, 0x75)
        | (0x65, 0x7b, 0x83)
        | (0x83, 0x94, 0x96)
        | (0x93, 0xa1, 0xa1)
        | (0xee, 0xe8, 0xd5)
        | (0xfd, 0xf6, 0xe3) => None,
        (0xb5, 0x89, 0x00) => Some(AnsiColour::Yellow),
        (0xcb, 0x4b, 0x16) => Some(AnsiColour::LightRed),
        (0xdc, 0x32, 0x2f) => Some(AnsiColour::Red),
        (0xd3, 0x36, 0x82) => Some(AnsiColour::Magenta),
        (0x6c, 0x71, 0xc4) => Some(AnsiColour::LightMagenta),
        (0x26, 0x8b, 0xd2) => Some(AnsiColour::Blue),
        (0x2a, 0xa1, 0x98) => Some(AnsiColour::Cyan),
        (0x85, 0x99, 0x00) => Some(AnsiColour::Green),
        _ => {
            return Err(QuantizationError { colour: c });
        },
    };
    Ok(Quantized { colour, font })
}

/// Quantizing is a pure function of its inputs, and it never approximates:
/// a colour of the palette always gets the same recorded answer, and every
/// other colour is rejected.
pub proof fn lemma_quantize_exact(c: Rgb, font: FontStyle)
    ensures
        in_palette(c) ==> quantize_spec(c, font) == (Ok::<Quantized, QuantizationError>(
            Quantized { colour: if is_base_tone(c) { None } else { accent_of(c) }, font },
        )),
        !in_palette(c) ==> quantize_spec(c, font) == (Err::<Quantized, QuantizationError>(
            QuantizationError { colour: c },
        )),
{
}

} // verus!
