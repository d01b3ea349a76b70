//! Shared capability traits.

use vstd::prelude::*;

verus! {

/// A type with a fresh starting state.
pub trait Initialise: Sized {
    /// What a freshly created value looks like.
    spec fn init_ok(&self) -> bool;

    /// Create a fresh value.
    fn new() -> (s: Self)
        ensures
            s.init_ok(),
    ;
}

/// Returns a shallow copy of a value, not mutating the original:
/// stack-held parts are copied by value, heap-held parts may be
/// shared.
pub trait ShallowCopy: Sized {
    fn shallow_copy(&self) -> Self;
}

} // verus!
