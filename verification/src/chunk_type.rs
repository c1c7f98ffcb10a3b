//! The 4-byte chunk type tag and its per-byte case flags.

use vstd::prelude::*;
use vstd::string::StrSliceExecFns;
use vstd::utf8::{decode_utf8, valid_utf8};
use crate::chunk_type_error::ChunkTypeError;
use crate::ext::utf8_decode;

verus! {

/// A byte in the ASCII range `A-Z`.
pub open spec fn is_upper_byte(b: u8) -> bool {
    65 <= b <= 90
}

/// A byte in the ASCII range `a-z`.
pub open spec fn is_lower_byte(b: u8) -> bool {
    97 <= b <= 122
}

/// A byte in one of the ASCII alphabetic ranges `A-Z` and `a-z`.
pub open spec fn is_alphabetic_byte(b: u8) -> bool {
    is_upper_byte(b) || is_lower_byte(b)
}

/// A well-formed tag: exactly 4 bytes, each ASCII alphabetic.
pub open spec fn is_valid_tag(s: Seq<u8>) -> bool {
    s.len() == 4 && forall|i: int| 0 <= i < 4 ==> is_alphabetic_byte(#[trigger] s[i])
}

/// A character in one of the ranges `A-Z` and `a-z`.
pub open spec fn is_alphabetic_char(c: char) -> bool {
    ('A' <= c && c <= 'Z') || ('a' <= c && c <= 'z')
}

/// A validated 4-byte chunk type identifier.
///
/// Each byte is ASCII alphabetic, and the case of each byte position encodes
/// one boolean flag of the container format.
#[derive(Debug, Clone, Copy, PartialEq, Eq, Structural, Hash)]
pub struct ChunkType {
    b0: u8,
    b1: u8,
    b2: u8,
    b3: u8,
}

impl View for ChunkType {
    type V = Seq<u8>;

    closed spec fn view(&self) -> Seq<u8> {
        seq![self.b0, self.b1, self.b2, self.b3]
    }
}

impl ChunkType {
    /// Every tag that can be constructed holds 4 ASCII alphabetic bytes.
    #[verifier::type_invariant]
    pub open spec fn wf(self) -> bool {
        is_valid_tag(self@)
    }

    /// Builds a tag from 4 raw bytes; fails unless every byte is ASCII
    /// alphabetic.
    pub fn from_bytes(value: [u8; 4]) -> (r: Result<ChunkType, ChunkTypeError>)
        ensures
            r matches Ok(t) ==> t@ == value@,
            r is Ok <==> is_valid_tag(value@),
            r is Err ==> r == Err::<ChunkType, ChunkTypeError>(ChunkTypeError::InvalidByte),
    {
        if is_alphabetic(value[0]) && is_alphabetic(value[1]) && is_alphabetic(value[2])
            && is_alphabetic(value[3]) {
            let t = ChunkType { b0: value[0], b1: value[1], b2: value[2], b3: value[3] };
            proof {
                assert(t@ =~= value@);
            }
            Ok(t)
        } else {
            Err(ChunkTypeError::InvalidByte)
        }
    }

    /// Builds a tag from its textual form; fails with `InvalidLength` unless
    /// the text is exactly 4 characters, and with `InvalidByte` unless every
    /// character is ASCII alphabetic.
    pub fn from_str(s: &str) -> (r: Result<ChunkType, ChunkTypeError>)
        ensures
            r is Ok <==> (s@.len() == 4 && forall|i: int|
                0 <= i < 4 ==> is_alphabetic_char(#[trigger] s@[i])),
            r matches Ok(t) ==> forall|i: int| 0 <= i < 4 ==> t@[i] == #[trigger] s@[i] as u8,
            s@.len() != 4 ==> r == Err::<ChunkType, ChunkTypeError>(ChunkTypeError::InvalidLength),
            r is Err && s@.len() == 4 ==> r == Err::<ChunkType, ChunkTypeError>(
                ChunkTypeError::InvalidByte,
            ),
    {
        if s.unicode_len() != 4 {
            return Err(ChunkTypeError::InvalidLength);
        }
        let c0 = s.get_char(0);
        let c1 = s.get_char(1);
        let c2 = s.get_char(2);
        let c3 = s.get_char(3);
        if !(is_alphabetic_ch(c0) && is_alphabetic_ch(c1) && is_alphabetic_ch(c2)
            && is_alphabetic_ch(c3)) {
            return Err(ChunkTypeError::InvalidByte);
        }
        let t = ChunkType {
            b0: c0 as u8,
            b1: c1 as u8,
            b2: c2 as u8,
            b3: c3 as u8,
        };
        proof {
            assert(forall|i: int| 0 <= i < 4 ==> is_alphabetic_char(#[trigger] s@[i]));
            assert(t@[0] == s@[0] as u8 && t@[1] == s@[1] as u8 && t@[2] == s@[2] as u8 && t@[3]
                == s@[3] as u8);
        }
        Ok(t)
    }

    /// The 4 raw bytes of the tag.
    pub fn bytes(&self) -> (r: [u8; 4])
        ensures
            r@ == self@,
    {
        let r = [self.b0, self.b1, self.b2, self.b3];
        proof {
            assert(r@ =~= self@);
        }
        r
    }

    /// The tag is critical to interpreting the container when its first byte
    /// is uppercase.
    pub fn is_critical(&self) -> (r: bool)
        ensures
            r == is_upper_byte(self@[0]),
    {
        65 <= self.b0 && self.b0 <= 90
    }

    /// The tag belongs to a registered, public vocabulary when its second
    /// byte is uppercase.
    pub fn is_public(&self) -> (r: bool)
        ensures
            r == is_upper_byte(self@[1]),
    {
        65 <= self.b1 && self.b1 <= 90
    }

    /// The reserved bit of the format: the third byte must be uppercase for
    /// the tag to conform to the container format's convention.
    pub fn is_valid(&self) -> (r: bool)
        ensures
            r == is_upper_byte(self@[2]),
    {
        65 <= self.b2 && self.b2 <= 90
    }

    /// Same as [`Self::is_valid`]: the reserved bit is valid when the third
    /// byte is uppercase.
    pub fn is_reserved_bit_valid(&self) -> (r: bool)
        ensures
            r == is_upper_byte(self@[2]),
    {
        self.is_valid()
    }

    /// The chunk may be copied by tools that do not understand it when the
    /// fourth byte is lowercase.
    pub fn is_safe_to_copy(&self) -> (r: bool)
        ensures
            r == is_lower_byte(self@[3]),
    {
        97 <= self.b3 && self.b3 <= 122
    }

    /// Byte-exact equality of two tags.
    pub fn tag_eq(&self, other: &ChunkType) -> (r: bool)
        ensures
            r == (self@ == other@),
    {
        let r = self.b0 == other.b0 && self.b1 == other.b1 && self.b2 == other.b2 && self.b3
            == other.b3;
        proof {
            if r {
                assert(self@ =~= other@);
            }
        }
        r
    }

    /// The 4-character textual form of the tag; the lossless inverse of
    /// [`Self::from_str`].
    pub fn to_text(&self) -> (r: String)
        ensures
            r@.len() == 4,
            forall|i: int| 0 <= i < 4 ==> r@[i] == #[trigger] self@[i] as char,
    {
        proof {
            use_type_invariant(self);
        }
        let bytes: Vec<u8> = vec![self.b0, self.b1, self.b2, self.b3];
        proof {
            assert(bytes@ =~= self@);
            lemma_ascii_decode(bytes@);
        }
        match utf8_decode(&bytes) {
            Some(s) => s,
            None => unreached(),
        }
    }
}

/// Exec check for [`is_alphabetic_byte`].
fn is_alphabetic(b: u8) -> (r: bool)
    ensures
        r == is_alphabetic_byte(b),
{
    (65 <= b && b <= 90) || (97 <= b && b <= 122)
}

/// Exec check for [`is_alphabetic_char`].
fn is_alphabetic_ch(c: char) -> (r: bool)
    ensures
        r == is_alphabetic_char(c),
{
    ('A' <= c && c <= 'Z') || ('a' <= c && c <= 'z')
}

/// A sequence of bytes below 0x80 is valid UTF-8 and decodes to one
/// character per byte, each with the byte's code point.
pub proof fn lemma_ascii_decode(s: Seq<u8>)
    requires
        forall|i: int| 0 <= i < s.len() ==> #[trigger] s[i] < 0x80,
    ensures
        valid_utf8(s),
        decode_utf8(s) == s.map_values(|b: u8| b as char),
    decreases s.len(),
{
    if s.len() == 0 {
        assert(decode_utf8(s) =~= s.map_values(|b: u8| b as char));
    } else {
        let b = s[0];
        assert(vstd::utf8::is_leading_byte_width_1(b));
        assert(b & 0x7f == b) by (bit_vector)
            requires
                b < 0x80,
        ;
        assert(vstd::utf8::decode_first_codepoint(s) == b as u32);
        assert(vstd::utf8::valid_first_scalar(s));
        let rest = vstd::utf8::pop_first_scalar(s);
        assert(rest =~= s.subrange(1, s.len() as int));
        lemma_ascii_decode(rest);
        assert((b as u32) as char == b as char);
        assert(decode_utf8(s) =~= s.map_values(|b: u8| b as char));
    }
}

} // verus!
