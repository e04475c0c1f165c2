//! The operations offered to the user of a vault.

pub mod jots;
