//! Drawing page records: the images live in the data directory; these
//! records hold their relative paths and metadata.
use vstd::prelude::*;

verus! {

pub const STATUS_PENDING: &'static str = "pending";
pub const STATUS_FETCHED: &'static str = "fetched";
pub const STATUS_NOT_AVAILABLE: &'static str = "not_available";
pub const STATUS_ERROR: &'static str = "error";

#[derive(Debug, Clone, PartialEq)]
pub struct DrawingPage {
    pub doc_id: i64,
    pub page: i64,
    pub source: Option<String>,
    /// Relative to the data directory, e.g. `drawings/EP1234567/001.png`.
    pub path: String,
    pub width: Option<i64>,
    pub height: Option<i64>,
    pub fetched_at: Option<String>,
}

#[derive(Debug, Clone, PartialEq)]
pub struct DrawingsStatusRow {
    pub doc_id: i64,
    pub status: String,
    pub page_count: Option<i64>,
    pub source: Option<String>,
    pub updated_at: Option<String>,
}

/// A page to insert; the borrowed counterpart of [`DrawingPage`].
#[derive(Debug, Clone, Copy)]
pub struct NewDrawingPage<'a> {
    pub doc_id: i64,
    pub page: i64,
    pub source: &'a str,
    /// Relative to the data directory, e.g. `drawings/EP1234567/001.png`.
    pub path: &'a str,
    pub width: i64,
    pub height: i64,
    pub fetched_at: &'a str,
}

} // verus!
