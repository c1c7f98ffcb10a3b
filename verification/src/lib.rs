//! Codec for the chunk-based container format used by PNG-like files.
//!
//! A container is a fixed 8-byte signature followed by an ordered sequence of
//! chunks; each chunk is a big-endian payload length, a 4-byte alphabetic
//! type tag, the payload, and a CRC-32/ISO-HDLC checksum of the tag and
//! payload. The crate parses containers from untrusted bytes, supports
//! appending and removing chunks, and serializes back byte for byte.

pub mod chunk;
pub mod chunk_error;
pub mod chunk_type;
pub mod chunk_type_error;
mod ext;
pub mod png;
pub mod png_error;

pub use chunk::Chunk;
pub use png::Png;
pub use chunk_error::ChunkError;
pub use chunk_type::ChunkType;
pub use chunk_type_error::ChunkTypeError;
pub use png_error::PngError;
