//! The resources that systems access.
use vstd::prelude::*;

verus! {

/// Contains the resources that a system may access during its execution.
pub struct SystemAccess {}

impl SystemAccess {
    /// Creates an empty set of accesses.
    pub fn new() -> (r: Self) {
        SystemAccess {  }
    }
}

impl Default for SystemAccess {
    fn default() -> (r: Self) {
        SystemAccess {  }
    }
}

/// A global resource handed to a system: `T` is a shared or an exclusive reference to it.
pub struct Glob<T>(pub T);

} // verus!
