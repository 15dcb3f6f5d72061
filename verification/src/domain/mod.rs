//! Domain logic of the patent library: numbers, selection, outlines,
//! exports and searches, and the records they work on.

pub mod documents;
pub mod drawings;
pub mod full_automation;
pub mod fulltext;
pub mod jobs;
pub mod labels;
pub mod library;
pub mod number;
pub mod retrieval_policy;
pub mod searches;
pub mod selection;
pub mod storage;
pub mod tags;
pub mod time;
pub mod outline;
pub mod annotations;
pub mod audit;
pub mod export;
pub mod settings;
