//! One chunk record: big-endian payload length, 4-byte type tag, payload,
//! and CRC-32/ISO-HDLC trailer over tag and payload.

use vstd::prelude::*;
use vstd::slice::{slice_index_get, slice_subrange, slice_to_vec};
use vstd::utf8::{decode_utf8, valid_utf8};
use crate::chunk_error::ChunkError;
use crate::chunk_type::{ChunkType, is_valid_tag};
use crate::chunk_type_error::ChunkTypeError;
use crate::ext::{crc32_of, crc32fast_checksum, crc_iso_hdlc_checksum, utf8_decode};

verus! {

/// The 4 big-endian bytes of a 32-bit value, most significant first.
pub open spec fn spec_u32_to_be_bytes(v: u32) -> Seq<u8> {
    seq![(v >> 24) as u8, (v >> 16) as u8, (v >> 8) as u8, v as u8]
}

/// The 32-bit value read from 4 big-endian bytes.
pub open spec fn spec_u32_from_be_bytes(s: Seq<u8>) -> u32
    recommends
        s.len() == 4,
{
    ((s[0] as u32) << 24) | ((s[1] as u32) << 16) | ((s[2] as u32) << 8) | (s[3] as u32)
}

/// Reading back the big-endian bytes of a value yields the value.
pub proof fn lemma_u32_to_from_be_bytes(v: u32)
    ensures
        spec_u32_to_be_bytes(v).len() == 4,
        spec_u32_from_be_bytes(spec_u32_to_be_bytes(v)) == v,
{
    let b0 = (v >> 24) as u8;
    let b1 = (v >> 16) as u8;
    let b2 = (v >> 8) as u8;
    let b3 = v as u8;
    assert(((b0 as u32) << 24) | ((b1 as u32) << 16) | ((b2 as u32) << 8) | (b3 as u32)
        == v) by (bit_vector)
        requires
            b0 == (v >> 24) as u8,
            b1 == (v >> 16) as u8,
            b2 == (v >> 8) as u8,
            b3 == v as u8,
    ;
}

/// Writing back the value read from 4 big-endian bytes yields the bytes.
pub proof fn lemma_u32_from_to_be_bytes(s: Seq<u8>)
    requires
        s.len() == 4,
    ensures
        spec_u32_to_be_bytes(spec_u32_from_be_bytes(s)) == s,
{
    let s0 = s[0];
    let s1 = s[1];
    let s2 = s[2];
    let s3 = s[3];
    let v = spec_u32_from_be_bytes(s);
    assert((v >> 24) as u8 == s0 && (v >> 16) as u8 == s1 && (v >> 8) as u8 == s2 && v as u8
        == s3) by (bit_vector)
        requires
            v == ((s0 as u32) << 24) | ((s1 as u32) << 16) | ((s2 as u32) << 8) | (s3 as u32),
    ;
    assert(spec_u32_to_be_bytes(v) =~= s);
}

/// Appends the 4 big-endian bytes of `v`.
fn push_u32_be(out: &mut Vec<u8>, v: u32)
    ensures
        final(out)@ == old(out)@ + spec_u32_to_be_bytes(v),
{
    out.push((v >> 24) as u8);
    out.push((v >> 16) as u8);
    out.push((v >> 8) as u8);
    out.push(v as u8);
    proof {
        assert(out@ =~= old(out)@ + spec_u32_to_be_bytes(v));
    }
}

/// Reads a 32-bit big-endian value at offset `off`.
pub(crate) fn read_u32_be(bytes: &[u8], off: usize) -> (r: u32)
    requires
        off + 4 <= bytes@.len(),
    ensures
        r == spec_u32_from_be_bytes(bytes@.subrange(off as int, off as int + 4)),
{
    let n = bytes.len();
    proof {
        assert(off + 3 < n);
    }
    let b0 = *slice_index_get(bytes, off);
    let b1 = *slice_index_get(bytes, off + 1);
    let b2 = *slice_index_get(bytes, off + 2);
    let b3 = *slice_index_get(bytes, off + 3);
    let r = ((b0 as u32) << 24) | ((b1 as u32) << 16) | ((b2 as u32) << 8) | (b3 as u32);
    proof {
        let s = bytes@.subrange(off as int, off as int + 4);
        assert(s[0] == b0 && s[1] == b1 && s[2] == b2 && s[3] == b3);
    }
    r
}

/// The mathematical content of one chunk: its tag bytes, its payload, and
/// the checksum it records.
#[verifier::ext_equal]
pub ghost struct ChunkModel {
    pub tag: Seq<u8>,
    pub data: Seq<u8>,
    pub crc: u32,
}

impl ChunkModel {
    /// Structurally well-formed: a valid 4-byte tag and a payload whose
    /// length is representable in 32 bits.
    pub open spec fn wf(self) -> bool {
        is_valid_tag(self.tag) && self.data.len() <= u32::MAX
    }

    /// The recorded checksum matches the tag and payload.
    pub open spec fn crc_ok(self) -> bool {
        self.crc == crc32_of(self.tag + self.data)
    }
}

/// The exact byte encoding of a chunk: 4 length bytes, 4 tag bytes, the
/// payload, and 4 checksum bytes.
#[verifier::opaque]
pub open spec fn spec_chunk_serialize(m: ChunkModel) -> Seq<u8> {
    spec_u32_to_be_bytes(m.data.len() as u32) + m.tag + m.data + spec_u32_to_be_bytes(m.crc)
}

/// Parses one chunk record that must tile the input exactly. Fails with
/// `InvalidLength` when the input is shorter than the 12-byte minimum frame
/// or the declared payload length does not match the input length, with
/// `InvalidChunkType` when the tag bytes are not alphabetic, and with
/// `InvalidCRC` when the recorded checksum differs from the checksum of the
/// tag and payload.
#[verifier::opaque]
pub open spec fn spec_chunk_parse(b: Seq<u8>) -> Result<ChunkModel, ChunkError> {
    if b.len() < 12 {
        Err(ChunkError::InvalidLength)
    } else {
        let len = spec_u32_from_be_bytes(b.subrange(0, 4)) as int;
        if b.len() != 12 + len {
            Err(ChunkError::InvalidLength)
        } else if !is_valid_tag(b.subrange(4, 8)) {
            Err(ChunkError::InvalidChunkType(ChunkTypeError::InvalidByte))
        } else {
            let crc_read = spec_u32_from_be_bytes(b.subrange(b.len() - 4, b.len() as int));
            if crc_read != crc32_of(b.subrange(4, b.len() - 4)) {
                Err(ChunkError::InvalidCRC)
            } else {
                Ok(
                    ChunkModel {
                        tag: b.subrange(4, 8),
                        data: b.subrange(8, b.len() - 4),
                        crc: crc_read,
                    },
                )
            }
        }
    }
}

/// One length-prefixed, type-tagged, checksummed record of the container
/// format.
///
/// A `Chunk` value never exists in an unverified state: its recorded CRC
/// always equals the checksum of its tag and payload, established at
/// construction and checked when parsing.
#[derive(Debug, PartialEq, Eq)]
pub struct Chunk {
    length: u32,
    chunk_type: ChunkType,
    data: Vec<u8>,
    crc: u32,
}

impl View for Chunk {
    type V = ChunkModel;

    closed spec fn view(&self) -> ChunkModel {
        ChunkModel { tag: self.chunk_type@, data: self.data@, crc: self.crc }
    }
}

impl Chunk {
    /// The stored length field, always equal to the payload length.
    pub closed spec fn spec_length(self) -> u32 {
        self.length
    }

    /// Every chunk that can be constructed is well-formed and carries a
    /// checksum that matches its tag and payload.
    #[verifier::type_invariant]
    pub open spec fn inv(self) -> bool {
        self@.wf() && self@.crc_ok() && self.spec_length() == self@.data.len()
    }

    /// Builds a chunk from a tag and payload, computing the checksum over
    /// the tag bytes followed by the payload.
    pub fn new(chunk_type: ChunkType, data: Vec<u8>) -> (r: Chunk)
        requires
            data@.len() <= u32::MAX,
        ensures
            r@.tag == chunk_type@,
            r@.data == data@,
            r@.crc == crc32_of(chunk_type@ + data@),
    {
        proof {
            use_type_invariant(&chunk_type);
        }
        let length = data.len() as u32;
        let tag_bytes = chunk_type.bytes();
        let mut raw: Vec<u8> = Vec::new();
        raw.push(tag_bytes[0]);
        raw.push(tag_bytes[1]);
        raw.push(tag_bytes[2]);
        raw.push(tag_bytes[3]);
        raw.extend_from_slice(data.as_slice());
        proof {
            assert(raw@ =~= chunk_type@ + data@);
        }
        let crc = crc32fast_checksum(raw.as_slice());
        Chunk { length, chunk_type, data, crc }
    }

    /// The payload length in bytes.
    pub fn length(&self) -> (r: u32)
        ensures
            r as int == self@.data.len(),
    {
        proof {
            use_type_invariant(self);
        }
        self.length
    }

    /// The chunk's type tag.
    pub fn chunk_type(&self) -> (r: &ChunkType)
        ensures
            r@ == self@.tag,
    {
        &self.chunk_type
    }

    /// The raw payload bytes.
    pub fn data(&self) -> (r: &[u8])
        ensures
            r@ == self@.data,
    {
        self.data.as_slice()
    }

    /// The recorded checksum, which always equals the checksum of the tag
    /// and payload.
    pub fn crc(&self) -> (r: u32)
        ensures
            r == self@.crc,
            r == crc32_of(self@.tag + self@.data),
    {
        proof {
            use_type_invariant(self);
        }
        self.crc
    }

    /// Decodes the payload as UTF-8 text; fails exactly when the payload is
    /// not valid UTF-8.
    pub fn data_as_string(&self) -> (r: Result<String, ChunkError>)
        ensures
            r is Ok <==> valid_utf8(self@.data),
            r matches Ok(s) ==> s@ == decode_utf8(self@.data),
            r is Err ==> r == Err::<String, ChunkError>(ChunkError::Utf8Error),
    {
        match utf8_decode(&self.data) {
            Some(s) => Ok(s),
            None => Err(ChunkError::Utf8Error),
        }
    }

    /// The exact byte encoding of this chunk; parsing it back yields this
    /// chunk again.
    pub fn as_bytes(&self) -> (r: Vec<u8>)
        ensures
            r@ == spec_chunk_serialize(self@),
            spec_chunk_parse(r@) == Ok::<ChunkModel, ChunkError>(self@),
    {
        proof {
            use_type_invariant(self);
        }
        let mut out: Vec<u8> = Vec::new();
        push_u32_be(&mut out, self.length);
        let tag_bytes = self.chunk_type.bytes();
        out.push(tag_bytes[0]);
        out.push(tag_bytes[1]);
        out.push(tag_bytes[2]);
        out.push(tag_bytes[3]);
        out.extend_from_slice(self.data.as_slice());
        push_u32_be(&mut out, self.crc);
        proof {
            reveal(spec_chunk_serialize);
            assert(out@ =~= spec_chunk_serialize(self@));
            lemma_chunk_round_trip(self@);
        }
        out
    }

    /// Parses a chunk from bytes that must hold exactly one record; the
    /// result, success or failure, is exactly what [`spec_chunk_parse`]
    /// yields on the input.
    pub fn from_bytes(bytes: &[u8]) -> (r: Result<Chunk, ChunkError>)
        ensures
            match r {
                Ok(c) => spec_chunk_parse(bytes@) == Ok::<ChunkModel, ChunkError>(c@),
                Err(e) => spec_chunk_parse(bytes@) == Err::<ChunkModel, ChunkError>(e),
            },
    {
        proof {
            reveal(spec_chunk_parse);
        }
        let n = bytes.len();
        if n < 12 {
            return Err(ChunkError::InvalidLength);
        }
        let length = read_u32_be(bytes, 0);
        let ulength = length as usize;
        if ulength != n - 12 {
            return Err(ChunkError::InvalidLength);
        }
        let tag_bytes = [
            *slice_index_get(bytes, 4),
            *slice_index_get(bytes, 5),
            *slice_index_get(bytes, 6),
            *slice_index_get(bytes, 7),
        ];
        proof {
            assert(tag_bytes@ =~= bytes@.subrange(4, 8));
        }
        let chunk_type = match ChunkType::from_bytes(tag_bytes) {
            Ok(t) => t,
            Err(_) => {
                return Err(ChunkError::InvalidChunkType(ChunkTypeError::InvalidByte));
            },
        };
        let content = slice_subrange(bytes, 4, n - 4);
        let crc_verify = crc_iso_hdlc_checksum(content);
        let crc_read = read_u32_be(bytes, n - 4);
        if crc_read != crc_verify {
            return Err(ChunkError::InvalidCRC);
        }
        let data = slice_to_vec(slice_subrange(bytes, 8, n - 4));
        proof {
            assert(chunk_type@ + data@ =~= bytes@.subrange(4, n - 4));
            assert(data@.len() == length as int);
        }
        let c = Chunk { length, chunk_type, data, crc: crc_read };
        proof {
            assert(spec_chunk_parse(bytes@) == Ok::<ChunkModel, ChunkError>(c@)) by {
                assert(spec_chunk_parse(bytes@) matches Ok(m) && m =~= c@);
            }
        }
        Ok(c)
    }
}

/// Round trip, serialize then parse: parsing the encoding of a structurally
/// well-formed chunk yields the chunk back, whenever its recorded checksum
/// matches its tag and payload — which holds of every `Chunk` value.
pub proof fn lemma_chunk_round_trip(m: ChunkModel)
    requires
        m.wf(),
    ensures
        m.crc_ok() ==> spec_chunk_parse(spec_chunk_serialize(m)) == Ok::<
            ChunkModel,
            ChunkError,
        >(m),
{
    reveal(spec_chunk_serialize);
    reveal(spec_chunk_parse);
    let b = spec_chunk_serialize(m);
    let len = m.data.len() as int;
    lemma_u32_to_from_be_bytes(m.data.len() as u32);
    lemma_u32_to_from_be_bytes(m.crc);
    assert(b.len() == 12 + len);
    assert(b.subrange(0, 4) =~= spec_u32_to_be_bytes(m.data.len() as u32));
    assert(b.subrange(4, 8) =~= m.tag);
    assert(b.subrange(8, b.len() - 4) =~= m.data);
    assert(b.subrange(b.len() - 4, b.len() as int) =~= spec_u32_to_be_bytes(m.crc));
    assert(b.subrange(4, b.len() - 4) =~= m.tag + m.data);
    if m.crc_ok() {
        assert(spec_chunk_parse(b) matches Ok(p) && p =~= m);
    }
}

/// Round trip, parse then serialize: a successfully parsed chunk
/// re-serializes to the exact bytes it was parsed from.
pub proof fn lemma_chunk_parse_round_trip(b: Seq<u8>, m: ChunkModel)
    requires
        spec_chunk_parse(b) == Ok::<ChunkModel, ChunkError>(m),
    ensures
        spec_chunk_serialize(m) == b,
        m.wf(),
        m.crc_ok(),
{
    reveal(spec_chunk_serialize);
    reveal(spec_chunk_parse);
    let len = spec_u32_from_be_bytes(b.subrange(0, 4)) as int;
    assert(m.data.len() == len);
    assert(m.data.len() as u32 == spec_u32_from_be_bytes(b.subrange(0, 4)));
    lemma_u32_from_to_be_bytes(b.subrange(0, 4));
    lemma_u32_from_to_be_bytes(b.subrange(b.len() - 4, b.len() as int));
    assert(m.tag + m.data =~= b.subrange(4, b.len() - 4));
    assert(spec_chunk_serialize(m) =~= b);
}

/// The frame of a chunk's encoding: its total length, and the payload
/// length its first 4 bytes declare.
pub proof fn lemma_chunk_serialize_shape(m: ChunkModel)
    requires
        m.tag.len() == 4,
        m.data.len() <= u32::MAX,
    ensures
        spec_chunk_serialize(m).len() == 12 + m.data.len(),
        spec_u32_from_be_bytes(spec_chunk_serialize(m).subrange(0, 4)) as int == m.data.len(),
{
    reveal(spec_chunk_serialize);
    let b = spec_chunk_serialize(m);
    lemma_u32_to_from_be_bytes(m.data.len() as u32);
    assert(b.subrange(0, 4) =~= spec_u32_to_be_bytes(m.data.len() as u32));
}

/// Tamper detection: take a byte sequence that parses as a chunk, and change
/// its type or payload region while keeping the length prefix, the trailing
/// recorded CRC, and an alphabetic tag. Parsing the changed bytes fails with
/// `InvalidCRC` whenever the checksum of the changed content differs from
/// the checksum of the original content.
pub proof fn lemma_crc_tamper(b1: Seq<u8>, b2: Seq<u8>)
    requires
        spec_chunk_parse(b1) is Ok,
        b2.len() == b1.len(),
        b2.subrange(0, 4) == b1.subrange(0, 4),
        b2.subrange(b2.len() - 4, b2.len() as int) == b1.subrange(b1.len() - 4, b1.len() as int),
        is_valid_tag(b2.subrange(4, 8)),
    ensures
        crc32_of(b2.subrange(4, b2.len() - 4)) != crc32_of(b1.subrange(4, b1.len() - 4))
            ==> spec_chunk_parse(b2) == Err::<ChunkModel, ChunkError>(ChunkError::InvalidCRC),
{
    reveal(spec_chunk_parse);
}

} // verus!
