//! The types that cross the boundary to the hosting runtime, and the text
//! decoding that comes with them. The raw reads behind a view happen outside
//! this library; here the contents arrive as plain values and are decoded
//! under exact contracts.

use vstd::prelude::*;

verus! {

/// A type that can describe its boundary layout to the hosting runtime.
pub trait XrossClass {
    /// The layout description the runtime parses.
    fn xross_layout() -> String;
}

/// A view of a string owned by the hosting runtime: the address of its raw
/// contents, their count, and the encoding tag: 0 for Latin-1 bytes, 1 for
/// UTF-16 code units.
#[derive(Clone, Copy)]
pub struct XrossStringView {
    pub ptr: usize,
    pub len: usize,
    pub encoding: u8,
}

/// What `String::from_utf16_lossy` decodes a sequence of UTF-16 code units
/// to; the result depends on the code units alone.
pub uninterp spec fn utf16_lossy_of(units: Seq<u16>) -> Seq<char>;

/// Relies on `String::from_utf16_lossy`: a pure decoder of UTF-16 code
/// units, and an empty input gives an empty string.
#[verifier::external_body]
fn utf16_lossy(units: &Vec<u16>) -> (r: String)
    ensures
        r@ == utf16_lossy_of(units@),
        units@.len() == 0 ==> r@.len() == 0,
{
    String::from_utf16_lossy(units.as_slice())
}

impl XrossStringView {
    /// Decode the contents of a Latin-1 view: every byte is exactly one
    /// character of the same code.
    pub fn latin1_text(&self, bytes: &Vec<u8>) -> (r: Vec<char>)
        requires
            self.encoding == 0,
        ensures
            r@.len() == bytes@.len(),
            forall|i: int| 0 <= i < bytes@.len() ==> r@[i] == bytes@[i] as char,
    {
        let mut out: Vec<char> = Vec::new();
        let n = bytes.len();
        let mut i: usize = 0;
        while i < n
            invariant
                i <= n,
                n == bytes@.len(),
                out@.len() == i,
                forall|k: int| 0 <= k < i ==> out@[k] == bytes@[k] as char,
            decreases n - i,
        {
            out.push(bytes[i] as char);
            i = i + 1;
        }
        out
    }

    /// Decode the contents of a UTF-16 view.
    pub fn utf16_text(&self, units: &Vec<u16>) -> (r: String)
        requires
            self.encoding == 1,
        ensures
            r@ == utf16_lossy_of(units@),
    {
        utf16_lossy(units)
    }
}

} // verus!
