//! Styled text layout for card rules text: a tokenizer that splits raw text
//! into regular, italic and symbol runs, a greedy line wrapper over measured
//! words, and the drawing of the wrapped lines on a fixed-width canvas.
//!
//! The way from raw text to a drawing:
//! [`text::make_mtg_paragraph`] reads the runs of a text,
//! [`words::split_words`] splits them into words, the caller measures each
//! word in the face that [`fonts::Fonts`] holds for its style,
//! [`layout::layout`] wraps the measured words behind the keyword, and
//! [`render::render`] says what to draw where, given the
//! [`symbols::Symbols`] that can be drawn.

pub mod error;
pub mod fonts;
pub mod layout;
pub mod render;
pub mod symbols;
pub mod text;
pub mod words;
