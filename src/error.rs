use vstd::prelude::*;

verus! {

/// Errors reported by the library.
#[derive(Debug, Clone, PartialEq, Eq)]
pub enum Error {
    /// The decoder does not know the format of the sample.
    UnsupportedBinaryFormat { sample: String },
    /// The sample could not be read as an object file, or the decoder and the
    /// object reader disagree about it.
    MalformedBinary { sample: String },
    /// A symbol pattern is not a valid regular expression.
    InvalidSymbolPattern { pattern: String },
}

} // verus!
