//! Cover generation: the text of a cover and its layout.
pub mod parse;
pub mod paths;
pub mod svg;
