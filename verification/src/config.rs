//! Where the vault lies.

use std::path::PathBuf;
use vstd::prelude::*;

verus! {

/// Trusted: makes `std::path::PathBuf` known. Nothing is said of what a
/// path holds.
#[verifier::external_type_specification]
#[verifier::external_body]
pub struct ExPathBuf(PathBuf);

/// The settings of the application.
#[derive(Debug)]
pub struct AppConfig {
    /// The root of the vault.
    pub vault_path: PathBuf,
    /// The folder of the jot files, relative to the root of the vault.
    pub jots_folder: String,
}

impl AppConfig {
    /// Looks for a vault in the usual places. No place is looked at yet, so
    /// none is ever found.
    pub fn detect_vault() -> (out: Option<PathBuf>)
        ensures
            out is None,
    {
        None
    }
}

} // verus!
