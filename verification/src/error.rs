use vstd::prelude::*;

verus! {

/// Why a heap operation did not happen.
#[derive(Debug, Clone, Copy, PartialEq, Eq, Structural)]
pub enum Error {
    /// The handle names an allocation that no longer exists: a double free,
    /// or a free of a block that has since been handed out again.
    Gone,
    /// The handle never named a block of this heap.
    InvalidHandle,
    /// An offset, size or region this heap could not have produced or use.
    InvalidArgument,
    /// The heap is already laid out.
    Busy,
    /// The scheme does not offer the operation.
    Unsupported,
}

} // verus!
