//! What can go wrong when generating, locating, writing or reading a section.
use vstd::prelude::*;

verus! {

/// The failures of this library.
#[derive(Debug, PartialEq, Eq, Structural)]
pub enum Error {
    /// A placeholder of zero chunks was asked for.
    InvalidSize,
    /// The buffer holds no run of sentinel bytes long enough.
    PlaceholderNotFound,
    /// The encoded section needs `required` bytes; the placeholder has `available`.
    CapacityExceeded { required: usize, available: usize },
    /// A write fell outside the buffer.
    WriteOutOfBounds,
    /// A header, or a key, ran past the end of the data.
    HeaderReadFailure,
    /// A key's bytes are not UTF-8.
    InvalidKeyEncoding,
}

} // verus!
