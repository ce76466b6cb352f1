//! The font faces that card text is set in.
//!
//! Fonts are parsed by `ab_glyph`. This module declares what is taken on
//! trust of that crate and loads the three faces from the bytes of their
//! files.

use crate::error::TextError;
use vstd::prelude::*;

verus! {

/// The style that text is drawn in.
#[derive(Clone, Copy, Debug, PartialEq, Eq, Structural)]
pub enum Style {
    Regular,
    Italic,
    Bold,
}

/// `ab_glyph::FontArc`, a parsed font. Nothing inside it is visible here.
#[verifier::external_type_specification]
#[verifier::external_body]
pub struct ExFontArc(ab_glyph::FontArc);

/// `ab_glyph::InvalidFont`, the error of a font that could not be parsed.
#[verifier::external_type_specification]
#[verifier::external_body]
pub struct ExInvalidFont(ab_glyph::InvalidFont);

/// Whether `ab_glyph::FontArc::try_from_vec` accepts these bytes as a font.
pub uninterp spec fn is_font(data: Seq<u8>) -> bool;

/// The bytes that a font holds, as `ab_glyph::Font::font_data` returns them.
pub uninterp spec fn font_data(font: ab_glyph::FontArc) -> Seq<u8>;

/// Parses a font file with `ab_glyph::FontArc::try_from_vec`.
///
/// Taken on trust: whether the bytes are accepted depends on the bytes alone,
/// and the font that comes back holds exactly the bytes it was parsed from.
#[verifier::external_body]
fn parse_font(data: Vec<u8>) -> (parsed: Result<ab_glyph::FontArc, ab_glyph::InvalidFont>)
    ensures
        parsed is Ok <==> is_font(data@),
        parsed matches Ok(font) ==> font_data(font) == data@,
{
    ab_glyph::FontArc::try_from_vec(data)
}

/// The three faces of the text font.
#[derive(Debug)]
pub struct Fonts {
    pub regular: ab_glyph::FontArc,
    pub italic: ab_glyph::FontArc,
    pub bold: ab_glyph::FontArc,
}

/// The first of the three files, in the order regular, italic, bold, that is
/// not a font. (Bold where all three are fonts.)
pub open spec fn first_broken(regular: Seq<u8>, italic: Seq<u8>, bold: Seq<u8>) -> Style {
    if !is_font(regular) {
        Style::Regular
    } else if !is_font(italic) {
        Style::Italic
    } else {
        Style::Bold
    }
}

impl Fonts {
    /// Parses the three faces from the bytes of their font files.
    ///
    /// Succeeds exactly when all three are fonts, each face then holding the
    /// bytes given for it. Otherwise fails with the style of the first file,
    /// in the order regular, italic, bold, that is not a font.
    pub fn load(regular: Vec<u8>, italic: Vec<u8>, bold: Vec<u8>) -> (result: Result<
        Fonts,
        TextError,
    >)
        ensures
            result is Ok <==> is_font(regular@) && is_font(italic@) && is_font(bold@),
            result matches Ok(fonts) ==> {
                &&& font_data(fonts.regular) == regular@
                &&& font_data(fonts.italic) == italic@
                &&& font_data(fonts.bold) == bold@
            },
            result matches Err(e) ==> e == TextError::AssetLoadFailure(
                first_broken(regular@, italic@, bold@),
            ),
    {
        let regular = match parse_font(regular) {
            Ok(font) => font,
            Err(_) => {
                return Err(TextError::AssetLoadFailure(Style::Regular));
            },
        };
        let italic = match parse_font(italic) {
            Ok(font) => font,
            Err(_) => {
                return Err(TextError::AssetLoadFailure(Style::Italic));
            },
        };
        let bold = match parse_font(bold) {
            Ok(font) => font,
            Err(_) => {
                return Err(TextError::AssetLoadFailure(Style::Bold));
            },
        };
        Ok(Fonts { regular, italic, bold })
    }

    /// The face for a style.
    pub fn face(&self, style: Style) -> (font: &ab_glyph::FontArc)
        ensures
            *font == match style {
                Style::Regular => self.regular,
                Style::Italic => self.italic,
                Style::Bold => self.bold,
            },
    {
        match style {
            Style::Regular => &self.regular,
            Style::Italic => &self.italic,
            Style::Bold => &self.bold,
        }
    }
}

} // verus!
