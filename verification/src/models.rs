//! Model types exposed over the boundary: plain data carriers with exact
//! constructor and accessor contracts.

use vstd::prelude::*;

use vstd::string::StringExecFns;

verus! {

/// A carrier for optional and fallible values.
pub struct ComplexStruct {
    pub opt: Option<i32>,
    pub res: Result<i32, String>,
}

impl ComplexStruct {
    /// Build a value from its parts.
    pub fn new(opt: Option<i32>, res: Result<i32, String>) -> (r: Self)
        ensures
            r.opt == opt,
            r.res == res,
    {
        ComplexStruct { opt, res }
    }
}

/// A type whose boundary description is written out by hand rather than
/// derived: a numeric value and a name.
#[derive(Clone)]
pub struct ExternalStruct {
    pub value: i32,
    pub name: String,
}

impl ExternalStruct {
    /// Build a value from its parts.
    pub fn new(value: i32, name: String) -> (r: Self)
        ensures
            r.value == value,
            r.name == name,
    {
        ExternalStruct { value, name }
    }

    /// The current numeric value.
    pub fn get_value(&self) -> (r: i32)
        ensures
            r == self.value,
    {
        self.value
    }

    /// Overwrite the numeric value.
    pub fn set_value(&mut self, v: i32)
        ensures
            final(self).value == v,
            final(self).name == old(self).name,
    {
        self.value = v;
    }

    /// The given prefix, a space, and this value's name.
    pub fn greet(&self, prefix: String) -> (r: String)
        ensures
            r@ == prefix@ + " "@ + self.name@,
    {
        prefix.concat(" ").concat(self.name.as_str())
    }
}

/// A bundle of unsigned primitives of the sizes the boundary carries.
pub struct PrimitiveTest {
    pub u8_val: u8,
    pub u32_val: u32,
    pub u64_val: u64,
}

impl PrimitiveTest {
    /// Build a value from its parts.
    pub fn new(u8_val: u8, u32_val: u32, u64_val: u64) -> (r: Self)
        ensures
            r.u8_val == u8_val,
            r.u32_val == u32_val,
            r.u64_val == u64_val,
    {
        PrimitiveTest { u8_val, u32_val, u64_val }
    }

    /// Add to the 32-bit field in place.
    pub fn add_u32(&mut self, val: u32)
        requires
            old(self).u32_val + val <= u32::MAX,
        ensures
            final(self).u32_val == old(self).u32_val + val,
            final(self).u8_val == old(self).u8_val,
            final(self).u64_val == old(self).u64_val,
    {
        self.u32_val = self.u32_val + val;
    }
}

} // verus!
