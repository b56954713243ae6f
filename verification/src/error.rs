//! How decoding fails.

use vstd::prelude::*;

verus! {

/// Why decoding stopped.
#[derive(Debug)]
pub enum DecodeError {
    /// The body failed to deliver.
    Io(std::io::Error),
    /// A header block does not end, is too long, or does not name its field.
    MalformedHeaders,
    /// The body ends, or the preamble exceeds its bound, before the delimiter
    /// that has to come.
    BoundaryNotFound,
    /// The caller consumed more than it was shown.
    ProtocolViolation,
}

/// A request that announces no boundary: decoding never starts. The request
/// comes back unchanged, so that its body can be treated as something else.
#[derive(Debug)]
pub struct SourceUnavailable<S> {
    pub source: S,
}

} // verus!
