//! What can go wrong between raw text and a drawing.

use crate::fonts::Style;
use vstd::prelude::*;

verus! {

/// Why text could not be rendered.
#[derive(Debug, Clone, PartialEq, Eq)]
pub enum TextError {
    /// The font file for this style is not a font.
    AssetLoadFailure(Style),
    /// The layout holds a symbol of this name, and the catalogue does not.
    UnknownSymbol(String),
}

} // verus!
