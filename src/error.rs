use vstd::prelude::*;

verus! {

/// Why an image could not be encoded.
#[derive(Debug, Clone, Copy, PartialEq, Eq, Structural)]
pub enum PngError {
    /// The width or the height is not strictly positive.
    InvalidDimensions,
    /// The number of pixels is not width times height.
    PixelCountMismatch,
    /// A chunk type tag is not exactly four bytes long.
    InvalidChunkType,
    /// A chunk payload is longer than 2^31 - 1 bytes.
    PayloadTooLarge,
    /// The compressor reported a failure. The zlib compressor in use has no
    /// failure to report, so `create_image` does not return this.
    CompressionFailed,
}

} // verus!
