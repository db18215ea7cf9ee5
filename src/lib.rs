//! A small multi-tenant vector store: per-collection vector indexes with
//! soft deletes, a registry of collections keyed by tenant and name, and the
//! replay rules of its write-ahead log and snapshots.
//!
//! Vector components are single-precision floats carried as their IEEE-754
//! bit patterns (`f32::to_bits`); this crate never does float arithmetic.
pub mod auth;
pub mod text;
pub mod vector;
pub mod metadata;
pub mod models;
pub mod index;
pub mod registry;
pub mod wal;
pub mod snapshot;
pub mod service;
pub mod laws;
pub mod recovery;
