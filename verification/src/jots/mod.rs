//! Jots and the operations on them.

pub mod index;
pub mod models;
pub mod parser;
pub mod storage;
pub mod time;

pub use models::{CreateJotInput, Jot, JotError, JotFrontmatter, UpdateJotInput};
