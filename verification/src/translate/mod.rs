//! Translation support: document structure, glossary, prompts, emphasis and
//! math handling, change detection and quality verification.
pub mod batch;
pub mod check;
pub mod common;
pub mod ratio;
pub mod deepl;
pub mod document;
pub mod emphasis;
pub mod flow;
pub mod work;
pub mod reuse;
pub mod verify;
pub mod session;
