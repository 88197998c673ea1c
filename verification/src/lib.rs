//! Durable documents, vector and full-text search on object storage: the rules,
//! formats and algorithms of the database, verified.
pub mod access;
pub mod agreement;
pub mod backup;
pub mod binary;
pub mod bm25;
pub mod cluster;
pub mod config;
pub mod double;
pub mod engine;
pub mod equivalence;
pub mod error;
pub mod filtering;
pub mod gathering;
pub mod generation;
pub mod history;
pub mod index;
pub mod json;
pub mod keys;
pub mod lease;
pub mod listing;
pub mod maintenance;
pub mod metrics;
pub mod migration;
pub mod model;
pub mod outside;
pub mod postings;
pub mod ranking;
pub mod reads;
pub mod search;
pub mod store;
pub mod terms;
pub mod text;
pub mod textmap;

pub use error::{Error, Result};
