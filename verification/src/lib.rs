//! A wiki-style document store that keeps every document's text in a
//! linear, append-only version history while indexing its metadata
//! (title, timestamps, tags) for fast lookup.

pub mod auth;
pub mod content;
pub mod errors;
pub mod history;
pub mod ids;
pub mod index;
pub mod laws;
pub mod models;
pub mod naming;
pub mod search;
pub mod seq_facts;
pub mod store;
pub mod text;
