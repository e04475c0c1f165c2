//! Bringing the schema of the index storage up to date.

use vstd::prelude::*;

verus! {

/// The version of the schema that this library works with.
pub const SCHEMA_VERSION: i32 = 1;

/// The version to store once the tables and their lookup structures are in
/// place, where the storage is behind; `None` where it is up to date. A
/// version that could not be read counts as 0.
pub open spec fn pending(stored: Option<i32>) -> Option<i32> {
    let version = match stored {
        Some(v) => v,
        None => 0,
    };
    if version < SCHEMA_VERSION {
        Some(SCHEMA_VERSION)
    } else {
        None
    }
}

/// Decides whether the storage must be migrated. `stored` is the version
/// found in the storage, or `None` where none could be read. Where the
/// answer is `Some(v)`, the caller creates whatever tables and lookup
/// structures are missing and then stores the version `v`; nothing is ever
/// dropped.
pub fn pending_migration(stored: Option<i32>) -> (out: Option<i32>)
    ensures
        out == pending(stored),
        out matches Some(v) ==> v == SCHEMA_VERSION,
{
    let version = match stored {
        Some(v) => v,
        None => 0,
    };
    if version < SCHEMA_VERSION {
        Some(SCHEMA_VERSION)
    } else {
        None
    }
}

} // verus!
