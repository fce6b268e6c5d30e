//! A fuzzy, weighted, multi-field full-text search index.
//!
//! Records are ingested as `(key, text, weight)` fields; queries are
//! normalized the same way as indexed text, matched by word prefix,
//! intersected conjunctively across query words, and ranked by combined
//! weight.  When an exact pass finds nothing, query words are corrected
//! against the indexed vocabulary by edit distance and the query is retried.

pub mod weights;
pub mod order;
pub mod norm;
pub mod posting;
pub mod index;
pub mod distance;
pub mod matcher;
pub mod search;
pub mod laws;
pub mod models;
pub mod update;
