//! Failures of chunk construction and decoding.

use vstd::prelude::*;
use crate::chunk_type_error::ChunkTypeError;

verus! {

/// Why a chunk could not be parsed from bytes, or its payload not decoded.
#[derive(Debug, Clone, Copy, PartialEq, Eq, Structural)]
pub enum ChunkError {
    /// The payload is not valid UTF-8 text.
    Utf8Error,
    /// The input is shorter than the minimum frame, or the declared payload
    /// length does not tile the input exactly.
    InvalidLength,
    /// The 4 type-tag bytes do not form a valid chunk type.
    InvalidChunkType(ChunkTypeError),
    /// The recorded CRC does not match the checksum recomputed over the tag
    /// and payload.
    InvalidCRC,
}

} // verus!
