//! The EPO OPS side: response parsing, throttling, retry decisions and
//! search paths.

pub mod error;
pub mod xml;
pub mod biblio;
pub mod search;
pub mod fulltext;
pub mod images;
pub mod client;
pub mod retry;
pub mod throttle;
