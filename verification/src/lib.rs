//! Bookmark ingestion and retrieval engine.
//!
//! Parses a browser's exported bookmark tree, flattens it into categories
//! and loose leaf entries, enriches leaves with scraped preview images,
//! keeps the enriched records in a store keyed by bookmark id, and answers
//! paginated, filterable, searchable queries over that store.

pub mod api;
pub mod bookmarks;
pub mod config;
pub mod marks;
pub mod query;
pub mod state;
pub mod store;
pub mod subscriptions;
pub mod utils;
