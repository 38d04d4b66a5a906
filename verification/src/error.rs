//! What can go wrong.

use vstd::prelude::*;

verus! {

/// The single failure mode of the decoder: the input is not a well-formed
/// LZO1X stream, or decoding it would exceed the caller's bound.
///
/// The variant carries no position by design. The first error *detected* in a
/// corrupt stream is rarely where the corruption is, so an offset would imply
/// a precision that the decoder does not have.
#[derive(Debug, Clone, Copy, PartialEq, Eq, Structural)]
pub enum Error {
    /// The stream is truncated, contains an invalid token, references data
    /// before the start of the output, or decodes to more than the caller's
    /// bound.
    Malformed,
}

impl Error {
    /// What went wrong, in words.
    pub fn to_string(&self) -> (text: String)
        ensures
            text@ == "malformed LZO1X stream"@,
    {
        match self {
            Error::Malformed => "malformed LZO1X stream".to_owned(),
        }
    }
}

/// Result alias for [`crate::decompress`].
pub type Result<T> = std::result::Result<T, Error>;

} // verus!
