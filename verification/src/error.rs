//! The errors of the dictionary.

use vstd::prelude::*;

verus! {

/// What can go wrong while a dictionary is built or opened.
#[derive(Debug, Clone, Copy, PartialEq, Eq, Structural)]
pub enum DictError {
    /// The backing storage failed.
    Io,
    /// The bytes read are not those of a dictionary: a record is truncated,
    /// a code byte is malformed, the block index does not open, a
    /// checkpoint does not parse.
    Corrupted,
    /// The builder was handed a key that is not greater than the key before
    /// it, or a `TermInfo` whose offsets go back.
    InvalidArgument,
}

impl DictError {
    /// A one-line description of the error.
    pub fn description(&self) -> (res: &'static str)
        ensures
            res@ == match *self {
                DictError::Io => "an IO error occurred"@,
                DictError::Corrupted => "file contains corrupted data"@,
                DictError::InvalidArgument => "an invalid argument was passed"@,
            },
    {
        match *self {
            DictError::Io => "an IO error occurred",
            DictError::Corrupted => "file contains corrupted data",
            DictError::InvalidArgument => "an invalid argument was passed",
        }
    }
}

} // verus!
