//! An embeddable, in-memory full-text search engine for short documents
//! (title, optional description, keyword tags). Documents are ingested into
//! an inverted index; free-text queries are answered with weighted relevance
//! scores, phrase bonuses, ranked results and best-window snippets, backed by
//! a bounded least-recently-used cache of normalized text.

pub mod cache;
pub mod engine;
pub mod index;
pub mod model;
pub mod norm;
pub mod rank;
pub mod score;
pub mod slug;
pub mod snippet;
pub mod text;

pub use engine::SearchEngine;
pub use model::{PostData, SearchResult, SearchStats};
