//! The ways in which a navigation step can fail.

use vstd::prelude::*;

verus! {

/// Failure of a navigation step.
#[derive(Debug, Clone, Copy, PartialEq, Eq, Structural)]
pub enum NavError {
    /// The directory being browsed could not be enumerated.
    Io,
    /// The selection is no reserved token and does not name an entry.
    InvalidSelection,
}

} // verus!
