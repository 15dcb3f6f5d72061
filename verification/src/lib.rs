//! Verified core of a patent tagging library: publication-number parsing,
//! the abstract/full-text/drawings source cascades, document outlines,
//! highlight placement, export formats, OPS search queries and the parsers
//! of EPO OPS responses.

pub mod domain;
pub mod text;
pub mod ops;
