//! Failures of chunk type tag construction.

use vstd::prelude::*;

verus! {

/// Why a 4-byte chunk type tag could not be built.
#[derive(Debug, Clone, Copy, PartialEq, Eq, Structural)]
pub enum ChunkTypeError {
    /// A tag byte is outside the ASCII alphabetic ranges `A-Z` and `a-z`.
    InvalidByte,
    /// A textual tag is not exactly 4 characters long.
    InvalidLength,
}

} // verus!
