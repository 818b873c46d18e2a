use vstd::prelude::*;

verus! {

/// An error produced by an operation on compressed data.
#[derive(Debug, Clone, Copy, PartialEq, Eq, Structural)]
pub enum Error {
    /// A read or write would cross a buffer boundary.
    MemLimit,
    /// A decoded back-reference points before the start of the output, or a
    /// length escape underflows.
    CorruptedData,
    /// An unknown error; unused by the normal paths.
    Other,
}

} // verus!
