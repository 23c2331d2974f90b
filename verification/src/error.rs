use vstd::prelude::*;

verus! {

/// Why an encode or decode call failed.
#[derive(Clone, Copy, Debug, PartialEq, Eq, Structural)]
pub enum ErrorKind {
    /// Fewer bytes remain than a field needs.
    InsufficientBytes,
    /// A length does not fit the integer type that has to hold it.
    InvalidLength,
    /// The bytes were read but are not a valid value.
    InvalidData,
    /// The bytes of a text are not UTF-8; the number says how many of them,
    /// from the first on, are.
    Utf8Error(usize),
}

} // verus!
