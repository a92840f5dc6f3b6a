//! A cell for state that kernel init sets up before anything else runs.
//! In the running kernel it hands out access on the caller's promise of
//! exclusivity; here exclusivity comes from holding the cell itself, so
//! access goes through an exclusive borrow.

use vstd::prelude::*;

verus! {

/// A cell holding a value with no lock around it.
pub struct NoLock<T> {
    value: T,
}

impl<T> NoLock<T> {
    /// The held value.
    pub closed spec fn value_spec(self) -> T {
        self.value
    }

    /// Wrap a value.
    pub fn new(value: T) -> (r: NoLock<T>)
        ensures
            r.value_spec() == value,
    {
        NoLock { value }
    }

    /// Exclusive access to the held value.
    pub fn lock(&mut self) -> (r: &mut T)
        ensures
            *r == old(self).value_spec(),
            final(self).value_spec() == *final(r),
    {
        &mut self.value
    }

    /// Shared read access to the held value.
    pub fn borrow(&self) -> (r: &T)
        ensures
            *r == self.value_spec(),
    {
        &self.value
    }

    /// Take the value out of the cell.
    pub fn into_inner(self) -> (r: T)
        ensures
            r == self.value_spec(),
    {
        self.value
    }
}

} // verus!
