//! The storage behind the index.

pub mod migrations;
