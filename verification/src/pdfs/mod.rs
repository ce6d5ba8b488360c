//! Book preparation for the PDF renderer.
pub mod template;
pub mod prepare;
