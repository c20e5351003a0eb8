//! Small value types exercised over the foreign-function boundary on its
//! fastest path: plain fields, no heap traffic beyond the owned name.

use vstd::prelude::*;

use crate::bridge::XrossClass;

verus! {

/// A plain two-dimensional point, passed by value over the boundary.
#[derive(Clone, Copy)]
pub struct Point {
    pub x: i32,
    pub y: i32,
}

impl XrossClass for Point {
    /// The boundary layout of `Point`: total size, then each field as
    /// `name:offset:size`, semicolon separated.
    fn xross_layout() -> (r: String) {
        let r = "8;x:0:4;y:4:4".to_owned();
        r
    }
}

/// A value type with one numeric and one owned text field.
pub struct FastStruct {
    pub data: i32,
    pub name: String,
}

impl FastStruct {
    /// Build a value from its parts.
    pub fn new(data: i32, name: String) -> (r: Self)
        ensures
            r.data == data,
            r.name == name,
    {
        FastStruct { data, name }
    }

    /// The number of characters of `s`.
    pub fn count_chars(&self, s: String) -> (r: i32)
        requires
            s@.len() <= i32::MAX,
        ensures
            r == s@.len(),
    {
        broadcast use vstd::string::axiom_spec_iter;

        let mut n: i32 = 0;
        for c in it: s.as_str().chars()
            invariant
                n == it.index(),
                it.seq() == s@,
                s@.len() <= i32::MAX,
        {
            n = n + 1;
        }
        n
    }

    /// Plain addition, as exposed over the raw calling convention.
    pub fn add_raw(&self, a: i32, b: i32) -> (r: i32)
        requires
            i32::MIN <= a + b <= i32::MAX,
        ensures
            r == a + b,
    {
        a + b
    }

    /// Translate a point by the fixed offset (10, 20).
    pub fn move_point_raw(&self, p: Point) -> (r: Point)
        requires
            p.x + 10 <= i32::MAX,
            p.y + 20 <= i32::MAX,
        ensures
            r.x == p.x + 10,
            r.y == p.y + 20,
    {
        let mut p = p;
        p.x = p.x + 10;
        p.y = p.y + 20;
        p
    }
}

} // verus!
