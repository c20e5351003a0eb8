//! Enumerations exposed over the boundary: a plain tag set, one without a
//! clone, and a recursive one.

use vstd::prelude::*;

verus! {

/// A plain five-way tag.
#[derive(Clone, Copy)]
pub enum XrossSimpleEnum {
    V,
    W,
    X,
    Y,
    Z,
}

/// A tag set that deliberately offers no clone to its consumers.
pub enum UnClonable {
    S,
    Y,
    Z,
}

/// A recursive enumeration with a payload variant.
pub enum HelloEnum {
    A,
    B { i: i32 },
    C(Box<HelloEnum>),
    D,
}

} // verus!
