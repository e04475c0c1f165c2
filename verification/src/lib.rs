//! Jots: short timestamped notes kept one per file, mirrored in a queryable
//! index.
//!
//! The files are the source of truth; the index follows them. Every change
//! goes to the files first and is then carried over to the index, and the
//! index can be rebuilt from the files at any time.
//!
//! - [`jots::parser`] reads tags and links out of a content and lays out the
//!   text of a jot file.
//! - [`jots::storage`] decides what goes into the files: identifiers, paths,
//!   what a content must be like, what a change does to a jot.
//! - [`jots::index`] is the index with its listings and searches.
//! - [`commands::jots`] keeps the index in step with the files.
//!
//! Reading and writing files, and reading the header of a file as structured
//! data, are left to the caller; the library takes and hands back plain
//! values.

pub mod commands;
pub mod config;
pub mod db;
pub mod jots;
pub mod text;
