//! A node type carrying an identifier and a text payload, used to exercise
//! ownership transfer over the boundary.

use vstd::prelude::*;

verus! {

/// A node with a numeric identifier and owned text.
#[derive(Clone)]
pub struct ComprehensiveNode {
    pub id: i32,
    pub data: String,
}

impl ComprehensiveNode {
    /// Build a node from its parts.
    pub fn new(id: i32, data: String) -> (r: Self)
        ensures
            r.id == id,
            r.data == data,
    {
        ComprehensiveNode { id, data }
    }
}

} // verus!
