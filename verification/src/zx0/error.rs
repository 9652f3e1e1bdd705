//! What can go wrong in decompression.

use vstd::prelude::*;

use super::stream::StreamError;

verus! {

/// An error encountered while decompressing a ZX0 stream.
///
/// `E` is the error type produced by the output callback; a callback failure is
/// reported as [`Zx0Error::CallbackError`].
#[derive(Debug, Clone, PartialEq, Eq)]
pub enum Zx0Error<E> {
    /// The decoder read past the end of the input (empty or truncated stream).
    TruncatedInput,
    /// A back-reference pointed further back than the data produced so far, or
    /// further than [`MAX_OFFSET`](super::MAX_OFFSET). Also raised for an offset
    /// MSB outside the valid range, which only happens on corrupt input.
    InvalidOffset,
    /// The window slice was shorter than [`MIN_WINDOW_LEN`](super::MIN_WINDOW_LEN).
    WindowTooSmall,
    /// [`decompress_into`](super::decompress_into) was given a buffer too small to
    /// hold the whole decompressed output. (Distinct from
    /// [`Zx0Error::WindowTooSmall`], which is about the back-reference window
    /// minimum, not the total output size.)
    OutputTooLarge,
    /// The stream ended cleanly but input bytes remained afterwards.
    TrailingData,
    /// The output callback returned an error; decompression was aborted.
    CallbackError(E),
}

/// The error a decompressor reports for a fault in the stream itself.
pub open spec fn stream_error<E>(e: StreamError) -> Zx0Error<E> {
    match e {
        StreamError::TruncatedInput => Zx0Error::TruncatedInput,
        StreamError::InvalidOffset => Zx0Error::InvalidOffset,
        StreamError::TrailingData => Zx0Error::TrailingData,
    }
}

} // verus!
