//! A parser for ini-style configuration text.
//!
//! A text is a sequence of lines. A line that starts with `[` is a section
//! header; any other line that is not blank is a key, with a value where it
//! has a `=`. Names are trimmed and case-insensitive, values are trimmed and
//! kept as they are, and keys that come before the first header belong to
//! the section `default`.
//!
//! ```text
//! [section-name]
//! key = value
//! key2
//! key3 =
//! ```
//!
//! [`parse`] turns a text into a [`Document`], or tells which line opens a
//! header that it never closes. What a text means is defined over character
//! sequences in [`parser`], and [`laws`] holds what is proved of every text.

pub mod document;
pub mod laws;
pub mod parser;
pub mod text;

pub use crate::document::Document;
pub use crate::parser::{parse, ParseError};
