//! Small helpers on conditions.

use vstd::prelude::*;

verus! {

/// What follows from a condition.
pub trait Then: Sized {
    /// Whether the condition holds.
    spec fn holds(&self) -> bool;

    /// `val` if the condition holds, else the default error.
    fn then_ok<T, E: Default>(self, val: T) -> (r: Result<T, E>)
        ensures
            self.holds() ==> r == Ok::<T, E>(val),
            !self.holds() ==> r is Err,
    ;

    /// `err` if the condition holds, else the default value.
    fn then_err<T: Default, E>(self, err: E) -> (r: Result<T, E>)
        ensures
            self.holds() ==> r == Err::<T, E>(err),
            !self.holds() ==> r is Ok,
    ;

    /// What `then` returns if the condition holds, else nothing.
    fn and_then<T, F: FnOnce() -> Option<T>>(self, then: F) -> (r: Option<T>)
        requires
            self.holds() ==> then.requires(()),
        ensures
            self.holds() ==> then.ensures((), r),
            !self.holds() ==> r is None,
    ;
}

impl Then for bool {
    open spec fn holds(&self) -> bool {
        *self
    }

    fn then_ok<T, E: Default>(self, val: T) -> (r: Result<T, E>) {
        if self {
            Ok(val)
        } else {
            Err(E::default())
        }
    }

    fn then_err<T: Default, E>(self, err: E) -> (r: Result<T, E>) {
        if self {
            Err(err)
        } else {
            Ok(T::default())
        }
    }

    fn and_then<T, F: FnOnce() -> Option<T>>(self, then: F) -> (r: Option<T>) {
        if self {
            then()
        } else {
            None
        }
    }
}

} // verus!
