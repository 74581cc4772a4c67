//! An in-memory inverted-index search engine for label-annotated records.
//!
//! A record is a sequence of `(key, value)` string label pairs.  Records are
//! parsed from a small wire syntax, deduplicated by content, assigned dense
//! 32-bit ids, and indexed per label key in an ordered value map whose entries
//! hold compressed posting bitmaps.  Queries are conjunctions of exact and
//! regular-expression predicates over label keys, answered either as the set
//! of matching records or as the distinct values of a chosen key among the
//! matching records.

pub mod record;
pub mod strkit;
pub mod matcher;
pub mod query;
pub mod bitmap;
pub mod index;
pub mod store;
pub mod lexer;
pub mod interner;
pub mod backend;
pub mod api;
pub mod laws;
