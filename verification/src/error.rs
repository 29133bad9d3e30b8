//! The ways in which hiding or recovering a message can fail.

use vstd::prelude::*;

verus! {

/// Why an operation on a container stopped. None of these is retried.
#[derive(Debug, Clone, Copy, PartialEq, Eq, Structural)]
pub enum StegoError {
    /// The buffer does not start with the bitmap signature.
    InvalidContainer,
    /// The buffer is too short to hold the header fields that are read.
    TruncatedContainer,
    /// The bits to write do not fit between the start index and the end of the buffer.
    CapacityExceeded,
    /// The first seven recovered bytes are not the start marker.
    NoHiddenMessage,
    /// The buffer ended before an end marker was recovered.
    UnterminatedMessage,
}

} // verus!
