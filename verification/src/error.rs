//! Error type of the library.

use vstd::prelude::*;

verus! {

/// Ways an encode or decode step can fail.
#[derive(Debug, PartialEq, Eq)]
pub enum CafeError {
    /// The buffer does not start with the CAFE signature.
    InvalidSignature,
    /// A chunk's stored CRC32 differs from the one computed over its body;
    /// `chunk_type` holds the chunk's four type bytes, read big-endian.
    CrcMismatch { chunk_type: u32, expected: u32, actual: u32 },
    /// A value or combination of values the format or this codec rejects:
    /// what was rejected, and the offending value where one number tells it.
    UnsupportedFeature(&'static str, Option<u64>),
    /// No `IHDR` chunk was found where one is needed.
    MissingIhdr,
    /// The Zstandard codec reported an error.
    Zstd,
    /// Framing or payload sizes inconsistent with the data present, with
    /// what was found missing or inconsistent.
    TruncatedFile(&'static str),
    /// A decompression would have produced more than `limit` bytes.
    DecompressionLimitExceeded { limit: u64 },
}

} // verus!
