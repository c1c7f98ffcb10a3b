//! Failures of container parsing and editing.

use vstd::prelude::*;
use crate::chunk_error::ChunkError;
use crate::chunk_type_error::ChunkTypeError;

verus! {

/// Why a container could not be parsed or edited.
#[derive(Debug, Clone, Copy, PartialEq, Eq, Structural)]
pub enum PngError {
    /// The leading 8 bytes are not the fixed container signature.
    InvalidHeader,
    /// A byte is outside the range its position allows.
    InvalidByte,
    /// A declared length is inconsistent with the input.
    InvalidLength,
    /// The requested chunk type may not be used for encoding.
    InvalidEncodeType,
    /// A chunk type tag could not be built.
    InvalidChunkType(ChunkTypeError),
    /// A recorded CRC does not match the recomputed checksum.
    InvalidCRC,
    /// A chunk record in the container could not be parsed.
    InvalidChunk(ChunkError),
    /// No chunk with the requested type tag exists in the container.
    UnknownChunkType,
}

} // verus!
