//! Tokenizers and interpolation parsers for a small template language.
pub mod algo;
pub mod bracket;
pub mod driver;
pub mod fancy;
pub mod interp;
pub mod text;
pub mod token;
pub mod util;
