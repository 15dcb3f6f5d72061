//! Stored full text of a document.
use vstd::prelude::*;

verus! {

pub const STATUS_PENDING: &'static str = "pending";
pub const STATUS_FETCHED: &'static str = "fetched";
pub const STATUS_NOT_AVAILABLE: &'static str = "not_available";
pub const STATUS_NON_ENGLISH_ONLY: &'static str = "non_english_only";
pub const STATUS_ERROR: &'static str = "error";

#[derive(Debug, Clone, PartialEq)]
pub struct FulltextRow {
    pub doc_id: i64,
    pub description: Option<String>,
    pub claims: Option<String>,
    pub lang: Option<String>,
    pub source: Option<String>,
    pub status: String,
    pub fetched_at: Option<String>,
}

} // verus!
