//! A small service object exposed over the boundary: a numeric payload with
//! cloning and self-reference accessors.

use vstd::prelude::*;

verus! {

/// A service holding one numeric value.
pub struct MyService2 {
    pub val: i32,
}

impl MyService2 {
    /// Build a service around a value.
    pub fn new(val: i32) -> (r: Self)
        ensures
            r.val == val,
    {
        MyService2 { val }
    }

    /// A fresh service carrying the same value.
    pub fn create_clone(&self) -> (r: Self)
        ensures
            r.val == self.val,
    {
        MyService2 { val: self.val }
    }

    /// A borrow of this very service.
    pub fn get_self_ref(&self) -> (r: &Self)
        ensures
            r == self,
    {
        self
    }
}

} // verus!
