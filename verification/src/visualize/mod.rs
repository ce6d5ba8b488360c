//! How each published work draws from its source documents: parsing of works and
//! documents, correspondences, and the integer layout of the diagrams.
pub mod display;
pub mod parse;
pub mod runs;
