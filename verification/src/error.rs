//! The kinds of failure.

use vstd::prelude::*;

verus! {

/// What can go wrong while a command is carried out.
#[derive(Clone, Copy, Debug, PartialEq, Eq, Structural)]
pub enum Error {
    /// No note has the identifier.
    NotFound,
    /// The text names none of the three states.
    InvalidState,
    /// The text is no calendar date.
    InvalidDate,
    /// The collection could not be written to or read from storage.
    StorageFailure,
}

} // verus!
