//! The ways in which an operation of the store can fail.

use vstd::prelude::*;

verus! {

/// Why the store turned a request down.
#[derive(Clone, Copy, Debug, PartialEq, Eq, Hash)]
pub enum StoreError {
    /// No live task has the identifier, or the page starts behind the last
    /// live task.
    NotFound,
    /// The page number or the page size is zero.
    InvalidArgument,
}

} // verus!
