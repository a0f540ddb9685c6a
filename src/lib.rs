//! Chat export media explorer: the import pipeline (export shapes, text
//! repair, media extraction with context) and the store with its queries.

pub mod calendar;
pub mod extract;
pub mod facebook;
pub mod invariants;
pub mod messenger;
pub mod mojibake;
pub mod parser;
pub mod queries;
pub mod reimport;
pub mod search;
pub mod serve;
pub mod store;
pub mod summary;
pub mod timeline;
