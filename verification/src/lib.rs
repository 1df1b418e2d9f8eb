//! A trigram index for fast substring search over a tree of source files.
//!
//! Every document is reduced to the set of 3-byte windows (trigrams) it contains; the
//! index maps each trigram to the set of documents holding it, and a query is answered by
//! intersecting the sets of the query's own trigrams. No document that holds the query
//! is missed; a document that holds all of the query's trigrams but not the query itself
//! may be returned.

pub mod bitmap;
pub mod crawler;
pub mod index;
pub mod posting_map;
pub mod properties;
pub mod query;
pub mod text;
pub mod trigram;
pub mod watcher;
