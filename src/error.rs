use vstd::prelude::*;

verus! {

/// Why decoding an image failed.
#[derive(Clone, Copy, Debug, PartialEq, Eq, Structural)]
pub enum DecodeError {
    /// The header is too short, its magic is wrong, or width or height is zero.
    HeaderError,
    /// The bytes ran out inside a chunk or before every pixel was produced.
    TruncatedStreamError,
    /// The bytes after the last pixel are not the end marker.
    TrailerMismatchError,
    /// A chunk tag that no rule matches. The tag dispatch is exhaustive, so
    /// decoding never produces this; it exists so that callers can match on it.
    UnrecognizedChunkError,
}

} // verus!
