//! The memory engine of a cognitive OS: markdown vaults are ingested into a
//! brain (pages, chunks, embeddings) by cycles that check their own work,
//! and searched by fusing full-text and vector rankings.
//!
//! This crate holds the engine's logic, verified: how text is chunked and
//! titled, how a vault's files are chosen and ordered, how embedders are
//! addressed and vectors stored, how a cycle decides and reports, how a
//! page is stored, and how search rankings are fused.
pub mod text;
pub mod paths;
pub mod ingest;
pub mod config;
pub mod embed;
pub mod cycle;
pub mod db;
pub mod search;
