//! Error kinds of the tree engine.

use vstd::prelude::*;

verus! {

/// An error reported by the tree engine.
///
/// `Again` means an optimistic step observed a conflicting change and the
/// caller should retry; `Alloc` means the allocator refused a request;
/// `Corrupted` means a page violated its format invariants; `Io` is
/// propagated from the external page store.
#[derive(Debug, Clone, PartialEq, Eq)]
pub enum Error {
    Alloc,
    Again,
    Corrupted(String),
    Io,
}

impl Error {
    /// True for the retryable kind.
    pub fn is_again(&self) -> (r: bool)
        ensures
            r <==> self is Again,
    {
        match self {
            Error::Again => true,
            _ => false,
        }
    }
}

} // verus!
