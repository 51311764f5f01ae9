//! Core of a tag-based virtual filesystem.
//!
//! A relational index relates *points* (files or directories of a backing
//! filesystem) to *tags* (typed key/value annotations) through *joins*.  The
//! mount presents tag combinations as nested directories: descending through
//! the hierarchy narrows the set of points matching the intersection of the
//! tag expressions named along the path, and the reserved component
//! `@flatten` switches into an auto-pivoted view that reveals, at each level,
//! the next tag distinguishing the remaining points.
//!
//! This crate holds the verified core: the path grammar, the query engine
//! over the index, the inode/file-handle identity table, the attribute and
//! directory-entry resolver with its readdir cache, and the ingestion rules.
//! Kernel plumbing, the persistent store, and file inspection live outside,
//! and hand the core plain values.

pub mod models;
pub mod text;
pub mod expr;
pub mod index;
pub mod attr;
pub mod paths;
pub mod fstate;
pub mod resolver;
pub mod laws;
pub mod ingest;
pub mod autotag;
