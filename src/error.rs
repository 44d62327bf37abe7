use vstd::prelude::*;

verus! {

/// What the store reports when an operation cannot complete.
#[derive(Debug, Clone, Copy, PartialEq, Eq, Structural)]
pub enum StoreError {
    /// A `group` or `entity` is empty, holds a path separator or names a directory.
    InvalidIdentifier,
    /// The namespace holds no version.
    NotFound,
    /// The backing storage failed.
    Storage,
    /// A fresh version id would not come after the latest one.
    Conflict,
}

} // verus!
