//! Search-index extraction: one record per remark.
pub mod slug;
pub mod record;
pub mod parse;
