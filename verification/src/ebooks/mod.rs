//! Ebook preparation.
pub mod prepare;
