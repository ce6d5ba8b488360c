//! Verified text processing for the transcriptions of Wittgenstein's late
//! writings: parsing of the Markdown documents and works, preparation of ebook
//! and PDF sources, search records, translation checks and visualisation layout.
pub mod text;
pub mod markup;
pub mod search;
pub mod translate;
pub mod visualize;
pub mod pdfs;
pub mod ebooks;
pub mod covers;
