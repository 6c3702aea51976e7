//! Errors of the fallible CSR constructors.

use vstd::prelude::*;

verus! {

/// What can go wrong when ingesting CSR-style or edge-index input.
#[derive(Clone, Copy, PartialEq, Eq, Structural, Debug)]
pub enum Error {
    /// More vertices than a `u32` can index.
    TooManyVertices,
    /// An offset value does not fit in `usize`.
    IndexPtrOverflow,
    /// A vertex index does not fit in `u32`.
    IndexOverflow,
}

impl Error {
    /// A short description of the error.
    pub fn message(&self) -> (r: &'static str)
        ensures
            r@.len() > 0,
    {
        let r = match self {
            Error::TooManyVertices => "too many vertices",
            Error::IndexPtrOverflow => "index pointer does not fit in usize",
            Error::IndexOverflow => "vertex index does not fit in u32",
        };
        proof {
            reveal_strlit("too many vertices");
            reveal_strlit("index pointer does not fit in usize");
            reveal_strlit("vertex index does not fit in u32");
        }
        r
    }
}

} // verus!
