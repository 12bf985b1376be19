//! What can go wrong before any dictionary file is touched.

use vstd::prelude::*;

verus! {

/// Why a configuration or a path in it cannot be used.
#[derive(Debug, PartialEq, Eq)]
pub enum SyncError {
    /// A path names a variable that could not be looked up.
    PathResolution { variable: String },
    /// The configuration has no dictionary named `authoritative`.
    MissingAuthoritative,
}

} // verus!
