//! The ways in which writing or reading a segment fails.

use vstd::prelude::*;

verus! {

/// Why an operation on a segment failed.
#[derive(Clone, Copy, Debug, PartialEq, Eq, Structural)]
pub enum IndexError {
    /// An encoder or a decoder that stands between the index and its files
    /// reported an error.
    Io,
    /// The data breaks the format: a term that does not come after the one
    /// before it, a bitmap that cannot be read, a file that ends too early.
    Format,
    /// The data does not fit the format: an offset or a count needs more than
    /// 32 bits.
    TooLarge,
}

} // verus!
