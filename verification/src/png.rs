//! The container: a fixed 8-byte signature followed by an ordered sequence
//! of chunks that exactly tile the remaining bytes.

use vstd::prelude::*;
use vstd::slice::{slice_index_get, slice_subrange};
use crate::chunk::{
    Chunk, ChunkModel, lemma_chunk_parse_round_trip, lemma_chunk_round_trip,
    lemma_chunk_serialize_shape, read_u32_be, spec_chunk_parse, spec_chunk_serialize,
    spec_u32_from_be_bytes,
};
use crate::chunk_error::ChunkError;
use crate::chunk_type::ChunkType;
use crate::png_error::PngError;

verus! {

/// The fixed 8-byte signature that opens every container.
pub open spec fn spec_signature() -> Seq<u8> {
    seq![0x89u8, 0x50u8, 0x4eu8, 0x47u8, 0x0du8, 0x0au8, 0x1au8, 0x0au8]
}

/// The signature as runtime bytes.
fn signature_bytes() -> (r: [u8; 8])
    ensures
        r@ == spec_signature(),
{
    let r = [0x89u8, 0x50u8, 0x4eu8, 0x47u8, 0x0du8, 0x0au8, 0x1au8, 0x0au8];
    proof {
        assert(r@ =~= spec_signature());
    }
    r
}

/// Parses a stream of chunk records that must exactly tile the input.
/// Each record's declared payload length picks its exact slice; any chunk
/// failure aborts the whole parse, wrapped as `InvalidChunk`.
pub open spec fn spec_chunks_parse(b: Seq<u8>) -> Result<Seq<ChunkModel>, PngError>
    decreases b.len(),
{
    if b.len() == 0 {
        Ok(Seq::empty())
    } else if b.len() < 12 {
        Err(PngError::InvalidChunk(ChunkError::InvalidLength))
    } else {
        let len = spec_u32_from_be_bytes(b.subrange(0, 4)) as int;
        if b.len() < 12 + len {
            Err(PngError::InvalidChunk(ChunkError::InvalidLength))
        } else {
            match spec_chunk_parse(b.subrange(0, 12 + len)) {
                Err(e) => Err(PngError::InvalidChunk(e)),
                Ok(m) => match spec_chunks_parse(b.skip(12 + len)) {
                    Err(e) => Err(e),
                    Ok(rest) => Ok(seq![m] + rest),
                },
            }
        }
    }
}

/// Parses a whole container: the signature, then the chunk stream.
pub open spec fn spec_png_parse(b: Seq<u8>) -> Result<Seq<ChunkModel>, PngError> {
    if b.len() < 8 || b.subrange(0, 8) != spec_signature() {
        Err(PngError::InvalidHeader)
    } else {
        spec_chunks_parse(b.skip(8))
    }
}

/// The byte encoding of a chunk sequence, in order.
pub open spec fn spec_chunks_serialize(s: Seq<ChunkModel>) -> Seq<u8>
    decreases s.len(),
{
    if s.len() == 0 {
        Seq::empty()
    } else {
        spec_chunk_serialize(s[0]) + spec_chunks_serialize(s.drop_first())
    }
}

/// The byte encoding of a whole container.
pub open spec fn spec_png_serialize(s: Seq<ChunkModel>) -> Seq<u8> {
    spec_signature() + spec_chunks_serialize(s)
}

/// Some chunk in the sequence has the given tag.
pub open spec fn has_chunk(s: Seq<ChunkModel>, tag: Seq<u8>) -> bool {
    exists|i: int| 0 <= i < s.len() && (#[trigger] s[i]).tag == tag
}

/// The index of the last chunk with the given tag, or -1 when none has it.
pub open spec fn last_match(s: Seq<ChunkModel>, tag: Seq<u8>) -> int
    decreases s.len(),
{
    if s.len() == 0 {
        -1
    } else if s.last().tag == tag {
        s.len() - 1
    } else {
        last_match(s.drop_last(), tag)
    }
}

/// LIFO lookup: when the sequence has a chunk with the given tag,
/// `last_match` names a matching chunk and no later chunk matches; when it
/// has none, `last_match` is -1.
pub proof fn lemma_last_match(s: Seq<ChunkModel>, tag: Seq<u8>)
    ensures
        has_chunk(s, tag) <==> 0 <= last_match(s, tag),
        !has_chunk(s, tag) ==> last_match(s, tag) == -1,
        has_chunk(s, tag) ==> {
            let j = last_match(s, tag);
            &&& j < s.len()
            &&& s[j].tag == tag
            &&& forall|k: int| j < k < s.len() ==> (#[trigger] s[k]).tag != tag
        },
    decreases s.len(),
{
    if s.len() == 0 {
    } else if s.last().tag == tag {
        assert(s[s.len() - 1].tag == tag);
    } else {
        let d = s.drop_last();
        lemma_last_match(d, tag);
        assert forall|i: int| 0 <= i < s.len() && (#[trigger] s[i]).tag == tag implies has_chunk(
            d,
            tag,
        ) by {
            assert(i < s.len() - 1);
            assert(d[i].tag == tag);
        }
        assert forall|i: int| 0 <= i < d.len() && (#[trigger] d[i]).tag == tag implies has_chunk(
            s,
            tag,
        ) by {
            assert(s[i].tag == tag);
        }
        if has_chunk(s, tag) {
            let j = last_match(s, tag);
            assert(j == last_match(d, tag));
            assert(d[j].tag == tag);
            assert(s[j].tag == tag);
            assert forall|k: int| j < k < s.len() implies (#[trigger] s[k]).tag != tag by {
                if k < s.len() - 1 {
                    assert(d[k].tag != tag);
                    assert(s[k] == d[k]);
                }
            }
        }
    }
}

/// `last_match` is the index of a match that no later index repeats.
pub proof fn lemma_last_match_found(s: Seq<ChunkModel>, tag: Seq<u8>, i: int)
    requires
        0 <= i < s.len(),
        s[i].tag == tag,
        forall|k: int| i < k < s.len() ==> (#[trigger] s[k]).tag != tag,
    ensures
        last_match(s, tag) == i,
    decreases s.len(),
{
    if i == s.len() - 1 {
    } else {
        let d = s.drop_last();
        assert(s.last().tag != tag);
        assert(d[i].tag == tag);
        assert forall|k: int| i < k < d.len() implies (#[trigger] d[k]).tag != tag by {
            assert(s[k].tag != tag);
        }
        lemma_last_match_found(d, tag, i);
    }
}

/// Serializing one more chunk appends its encoding.
proof fn lemma_chunks_serialize_push(s: Seq<ChunkModel>, m: ChunkModel)
    ensures
        spec_chunks_serialize(s.push(m)) == spec_chunks_serialize(s) + spec_chunk_serialize(m),
    decreases s.len(),
{
    let p = s.push(m);
    if s.len() == 0 {
        assert(p.len() == 1);
        assert(p[0] == m);
        assert(p.drop_first() =~= Seq::<ChunkModel>::empty());
        assert(spec_chunks_serialize(Seq::<ChunkModel>::empty()) == Seq::<u8>::empty());
        assert(spec_chunks_serialize(p) == spec_chunk_serialize(m) + Seq::<u8>::empty());
        assert(spec_chunk_serialize(m) + Seq::<u8>::empty() =~= Seq::<u8>::empty()
            + spec_chunk_serialize(m));
    } else {
        assert(p[0] == s[0]);
        assert(p.drop_first() =~= s.drop_first().push(m));
        lemma_chunks_serialize_push(s.drop_first(), m);
        let a = spec_chunk_serialize(s[0]);
        let b = spec_chunks_serialize(s.drop_first());
        let c = spec_chunk_serialize(m);
        assert(spec_chunks_serialize(p) == a + (b + c));
        assert(a + (b + c) =~= (a + b) + c);
    }
}

/// One step of container serialization: the encoding of the first `i + 1`
/// chunks is the encoding of the first `i` followed by the `i`-th chunk's
/// encoding.
proof fn lemma_serialize_step(s: Seq<ChunkModel>, i: int)
    requires
        0 <= i < s.len(),
    ensures
        spec_signature() + spec_chunks_serialize(s.take(i + 1)) == (spec_signature()
            + spec_chunks_serialize(s.take(i))) + spec_chunk_serialize(s[i]),
{
    lemma_chunks_serialize_push(s.take(i), s[i]);
    assert(s.take(i + 1) =~= s.take(i).push(s[i]));
    assert(spec_signature() + (spec_chunks_serialize(s.take(i)) + spec_chunk_serialize(s[i]))
        =~= (spec_signature() + spec_chunks_serialize(s.take(i))) + spec_chunk_serialize(s[i]));
}

/// Parsing the serialized chunk stream of well-formed, checksum-correct
/// chunks yields the chunks back.
proof fn lemma_chunks_round_trip(s: Seq<ChunkModel>)
    requires
        forall|i: int| 0 <= i < s.len() ==> (#[trigger] s[i].wf()),
        forall|i: int| 0 <= i < s.len() ==> (#[trigger] s[i].crc_ok()),
    ensures
        spec_chunks_parse(spec_chunks_serialize(s)) == Ok::<Seq<ChunkModel>, PngError>(s),
    decreases s.len(),
{
    if s.len() == 0 {
        assert(s =~= Seq::<ChunkModel>::empty());
        assert(spec_chunks_parse(Seq::<u8>::empty()) == Ok::<Seq<ChunkModel>, PngError>(
            Seq::empty(),
        ));
    } else {
        let m = s[0];
        assert(m.wf() && m.crc_ok());
        let mb = spec_chunk_serialize(m);
        let rest = spec_chunks_serialize(s.drop_first());
        let b = spec_chunks_serialize(s);
        assert(b == mb + rest);
        let len = m.data.len() as int;
        lemma_chunk_serialize_shape(m);
        assert(mb.len() == 12 + len);
        assert(b.subrange(0, 4) =~= mb.subrange(0, 4));
        assert(spec_u32_from_be_bytes(b.subrange(0, 4)) as int == len);
        assert(b.len() == 12 + len + rest.len());
        assert(b.subrange(0, 12 + len) =~= mb);
        lemma_chunk_round_trip(m);
        assert(spec_chunk_parse(b.subrange(0, 12 + len)) == Ok::<ChunkModel, ChunkError>(m));
        assert(b.skip(12 + len) =~= rest);
        assert forall|i: int| 0 <= i < s.drop_first().len() implies (#[trigger] s.drop_first()[
            i
        ].wf()) && (#[trigger] s.drop_first()[i].crc_ok()) by {
            assert(s[i + 1].wf() && s[i + 1].crc_ok());
        }
        lemma_chunks_round_trip(s.drop_first());
        assert(spec_chunks_parse(b) == Ok::<Seq<ChunkModel>, PngError>(
            seq![m] + s.drop_first(),
        ));
        assert(seq![m] + s.drop_first() =~= s);
    }
}

/// Round trip, serialize then parse: parsing the encoding of structurally
/// well-formed chunks yields the same chunks, whenever every recorded
/// checksum matches its chunk's tag and payload — which holds of every
/// `Chunk` value.
pub proof fn lemma_png_round_trip(s: Seq<ChunkModel>)
    requires
        forall|i: int| 0 <= i < s.len() ==> (#[trigger] s[i].wf()),
    ensures
        (forall|i: int| 0 <= i < s.len() ==> (#[trigger] s[i].crc_ok()))
            ==> spec_png_parse(spec_png_serialize(s)) == Ok::<Seq<ChunkModel>, PngError>(s),
{
    if forall|i: int| 0 <= i < s.len() ==> (#[trigger] s[i].crc_ok()) {
        let b = spec_png_serialize(s);
        assert(b.subrange(0, 8) =~= spec_signature());
        assert(b.skip(8) =~= spec_chunks_serialize(s));
        lemma_chunks_round_trip(s);
    }
}

/// Every chunk of a successfully parsed stream is well-formed and carries a
/// matching checksum.
proof fn lemma_chunks_parse_wf(b: Seq<u8>, s: Seq<ChunkModel>)
    requires
        spec_chunks_parse(b) == Ok::<Seq<ChunkModel>, PngError>(s),
    ensures
        forall|i: int| 0 <= i < s.len() ==> (#[trigger] s[i].wf()),
        forall|i: int| 0 <= i < s.len() ==> (#[trigger] s[i].crc_ok()),
    decreases b.len(),
{
    if b.len() == 0 {
        assert(s =~= Seq::<ChunkModel>::empty());
    } else {
        let len = spec_u32_from_be_bytes(b.subrange(0, 4)) as int;
        let mb = b.subrange(0, 12 + len);
        let tail = b.skip(12 + len);
        let m = spec_chunk_parse(mb)->Ok_0;
        let rest = spec_chunks_parse(tail)->Ok_0;
        assert(s == seq![m] + rest);
        lemma_chunk_parse_round_trip(mb, m);
        lemma_chunks_parse_wf(tail, rest);
        assert forall|i: int| 0 <= i < s.len() implies (#[trigger] s[i].wf()) && (
        #[trigger] s[i].crc_ok()) by {
            if i == 0 {
                assert(s[0] == m);
            } else {
                assert(rest[i - 1].wf() && rest[i - 1].crc_ok());
                assert(s[i] == rest[i - 1]);
            }
        }
    }
}

/// Round trip, parse then serialize: a successfully parsed chunk stream
/// re-serializes to the exact bytes it was parsed from.
proof fn lemma_chunks_parse_round_trip(b: Seq<u8>, s: Seq<ChunkModel>)
    requires
        spec_chunks_parse(b) == Ok::<Seq<ChunkModel>, PngError>(s),
    ensures
        spec_chunks_serialize(s) == b,
    decreases b.len(),
{
    if b.len() == 0 {
        assert(s =~= Seq::<ChunkModel>::empty());
        assert(spec_chunks_serialize(s) =~= b);
    } else {
        let len = spec_u32_from_be_bytes(b.subrange(0, 4)) as int;
        let mb = b.subrange(0, 12 + len);
        let tail = b.skip(12 + len);
        let m = spec_chunk_parse(mb)->Ok_0;
        let rest = spec_chunks_parse(tail)->Ok_0;
        assert(s == seq![m] + rest);
        lemma_chunk_parse_round_trip(mb, m);
        lemma_chunks_parse_round_trip(tail, rest);
        assert(s.drop_first() =~= rest);
        assert(s[0] == m);
        assert(spec_chunks_serialize(s) == spec_chunk_serialize(m) + spec_chunks_serialize(rest));
        assert(mb + tail =~= b);
    }
}

/// Round trip, parse then serialize, for whole containers.
pub proof fn lemma_png_parse_round_trip(b: Seq<u8>, s: Seq<ChunkModel>)
    requires
        spec_png_parse(b) == Ok::<Seq<ChunkModel>, PngError>(s),
    ensures
        spec_png_serialize(s) == b,
        forall|i: int| 0 <= i < s.len() ==> (#[trigger] s[i].wf()),
        forall|i: int| 0 <= i < s.len() ==> (#[trigger] s[i].crc_ok()),
{
    lemma_chunks_parse_round_trip(b.skip(8), s);
    lemma_chunks_parse_wf(b.skip(8), s);
    assert(spec_png_serialize(s) == spec_signature() + b.skip(8));
    assert(b.subrange(0, 8) == spec_signature());
    assert(b.subrange(0, 8) + b.skip(8) =~= b);
}

/// A container parse fails with `InvalidHeader` exactly when the input is
/// shorter than 8 bytes or does not begin with the fixed signature.
pub proof fn lemma_bad_signature(b: Seq<u8>)
    requires
        b.len() < 8 || b.subrange(0, 8) != spec_signature(),
    ensures
        spec_png_parse(b) == Err::<Seq<ChunkModel>, PngError>(PngError::InvalidHeader),
{
}

/// Removing by the tag of a chunk just appended yields that chunk and the
/// sequence it was appended to.
pub proof fn lemma_append_remove(s: Seq<ChunkModel>, m: ChunkModel)
    ensures
        last_match(s.push(m), m.tag) == s.len(),
        s.push(m).remove(s.len() as int) == s,
{
    assert(s.push(m).last() == m);
    assert(s.push(m).remove(s.len() as int) =~= s);
}

/// The full container: the fixed signature plus an ordered chunk sequence,
/// viewed as the sequence of its chunks' models.
#[derive(Debug, PartialEq, Eq)]
pub struct Png {
    chunks: Vec<Chunk>,
}

impl View for Png {
    type V = Seq<ChunkModel>;

    closed spec fn view(&self) -> Seq<ChunkModel> {
        self.chunks@.map_values(|c: Chunk| c@)
    }
}

/// Prepends already-parsed chunks to the outcome of parsing the rest.
spec fn parse_rest(models: Seq<ChunkModel>, tail: Seq<u8>) -> Result<Seq<ChunkModel>, PngError> {
    match spec_chunks_parse(tail) {
        Ok(rest) => Ok(models + rest),
        Err(e) => Err(e),
    }
}

impl Png {
    /// An empty container: no chunks, serializes to the signature alone.
    pub fn new() -> (r: Png)
        ensures
            r@ == Seq::<ChunkModel>::empty(),
    {
        let p = Png { chunks: Vec::new() };
        proof {
            assert(p@ =~= Seq::<ChunkModel>::empty());
        }
        p
    }

    /// Parses a whole container from bytes; the result, success or failure,
    /// is exactly what [`spec_png_parse`] yields on the input.
    pub fn from_bytes(bytes: &[u8]) -> (r: Result<Png, PngError>)
        ensures
            match r {
                Ok(p) => spec_png_parse(bytes@) == Ok::<Seq<ChunkModel>, PngError>(p@),
                Err(e) => spec_png_parse(bytes@) == Err::<Seq<ChunkModel>, PngError>(e),
            },
    {
        let n = bytes.len();
        if n < 8 {
            return Err(PngError::InvalidHeader);
        }
        let sig = signature_bytes();
        let mut k: usize = 0;
        while k < 8
            invariant
                0 <= k <= 8,
                n == bytes@.len(),
                8 <= n,
                sig@ == spec_signature(),
                forall|j: int| 0 <= j < k ==> bytes@[j] == spec_signature()[j],
            decreases 8 - k,
        {
            if *slice_index_get(bytes, k) != sig[k] {
                proof {
                    assert(bytes@.subrange(0, 8)[k as int] != spec_signature()[k as int]);
                }
                return Err(PngError::InvalidHeader);
            }
            k += 1;
        }
        proof {
            assert(bytes@.subrange(0, 8) =~= spec_signature());
        }
        let mut chunks: Vec<Chunk> = Vec::new();
        let mut pos: usize = 8;
        while pos < n
            invariant
                8 <= pos <= n,
                n == bytes@.len(),
                bytes@.subrange(0, 8) == spec_signature(),
                spec_chunks_parse(bytes@.skip(8)) == parse_rest(
                    chunks@.map_values(|c: Chunk| c@),
                    bytes@.skip(pos as int),
                ),
            decreases n - pos,
        {
            let ghost tail = bytes@.skip(pos as int);
            let ghost models = chunks@.map_values(|c: Chunk| c@);
            let remaining = n - pos;
            if remaining < 12 {
                proof {
                    assert(tail.len() == remaining);
                    assert(spec_chunks_parse(tail) == Err::<Seq<ChunkModel>, PngError>(
                        PngError::InvalidChunk(ChunkError::InvalidLength),
                    ));
                }
                return Err(PngError::InvalidChunk(ChunkError::InvalidLength));
            }
            let length = read_u32_be(bytes, pos);
            let ulength = length as usize;
            proof {
                assert(tail.subrange(0, 4) =~= bytes@.subrange(pos as int, pos as int + 4));
            }
            if ulength > remaining - 12 {
                proof {
                    assert(tail.len() < 12 + length as int);
                    assert(spec_chunks_parse(tail) == Err::<Seq<ChunkModel>, PngError>(
                        PngError::InvalidChunk(ChunkError::InvalidLength),
                    ));
                }
                return Err(PngError::InvalidChunk(ChunkError::InvalidLength));
            }
            let end = pos + 12 + ulength;
            proof {
                assert(tail.subrange(0, 12 + length as int) =~= bytes@.subrange(
                    pos as int,
                    end as int,
                ));
            }
            let chunk_slice = slice_subrange(bytes, pos, end);
            match Chunk::from_bytes(chunk_slice) {
                Err(e) => {
                    proof {
                        assert(spec_chunks_parse(tail) == Err::<Seq<ChunkModel>, PngError>(
                            PngError::InvalidChunk(e),
                        ));
                    }
                    return Err(PngError::InvalidChunk(e));
                },
                Ok(c) => {
                    chunks.push(c);
                    proof {
                        assert(chunks@.map_values(|c: Chunk| c@) =~= models.push(c@));
                        assert(tail.skip(12 + length as int) =~= bytes@.skip(end as int));
                        assert(spec_chunks_parse(tail) == match spec_chunks_parse(
                            bytes@.skip(end as int),
                        ) {
                            Ok(rest) => Ok::<Seq<ChunkModel>, PngError>(seq![c@] + rest),
                            Err(e) => Err(e),
                        });
                        assert(parse_rest(models, tail) == parse_rest(
                            models.push(c@),
                            bytes@.skip(end as int),
                        )) by {
                            match spec_chunks_parse(bytes@.skip(end as int)) {
                                Ok(rest) => {
                                    assert(models + (seq![c@] + rest) =~= models.push(c@) + rest);
                                },
                                Err(_) => {},
                            }
                        }
                    }
                    pos = end;
                },
            }
        }
        let p = Png { chunks };
        proof {
            assert(bytes@.skip(pos as int) =~= Seq::<u8>::empty());
            assert(p@ + Seq::<ChunkModel>::empty() =~= p@);
        }
        Ok(p)
    }

    /// The number of chunks in the container.
    pub fn chunk_count(&self) -> (r: usize)
        ensures
            r == self@.len(),
    {
        self.chunks.len()
    }

    /// Appends the chunk as the new last element of the sequence. This codec
    /// always appends at the end, even when a terminal end-marker chunk is
    /// present: parsing and serialization preserve chunks after a terminal
    /// marker, and [`Self::remove_last_chunk`] finds the appended chunk
    /// before any older chunk with the same tag.
    pub fn append_chunk(&mut self, chunk: Chunk)
        ensures
            final(self)@ == old(self)@.push(chunk@),
    {
        let ghost s0 = self@;
        let ghost m = chunk@;
        self.chunks.push(chunk);
        proof {
            assert(self@ =~= s0.push(m));
        }
    }

    /// Removes and returns the most recently appended chunk whose tag equals
    /// `target`; fails with `UnknownChunkType`, leaving the container
    /// unchanged, exactly when no chunk has the tag.
    pub fn remove_last_chunk(&mut self, target: &ChunkType) -> (r: Result<Chunk, PngError>)
        ensures
            match r {
                Ok(c) => {
                    &&& has_chunk(old(self)@, target@)
                    &&& 0 <= last_match(old(self)@, target@) < old(self)@.len()
                    &&& c@ == old(self)@[last_match(old(self)@, target@)]
                    &&& c@.tag == target@
                    &&& final(self)@ == old(self)@.remove(last_match(old(self)@, target@))
                },
                Err(e) => {
                    &&& e == PngError::UnknownChunkType
                    &&& !has_chunk(old(self)@, target@)
                    &&& final(self)@ == old(self)@
                },
            },
    {
        let ghost s0 = self@;
        let mut i = self.chunks.len();
        while i > 0
            invariant
                i <= self.chunks@.len(),
                old(self)@ == s0,
                self@ == s0,
                self.chunks@.len() == s0.len(),
                forall|k: int| i <= k < s0.len() ==> (#[trigger] s0[k]).tag != target@,
            decreases i,
        {
            i = i - 1;
            let c: &Chunk = &self.chunks[i];
            proof {
                assert(c@ == s0[i as int]);
            }
            if c.chunk_type().tag_eq(target) {
                proof {
                    assert(old(self)@ == s0);
                    assert(s0[i as int].tag == target@);
                    assert(has_chunk(s0, target@));
                    lemma_last_match_found(s0, target@, i as int);
                }
                let ghost pre = self.chunks@;
                let removed = self.chunks.remove(i);
                proof {
                    assert(removed == pre[i as int]);
                    assert(removed@ == s0[i as int]);
                    assert(self@ =~= s0.remove(i as int));
                }
                return Ok(removed);
            }
        }
        proof {
            lemma_last_match(s0, target@);
        }
        Err(PngError::UnknownChunkType)
    }

    /// The exact byte encoding of the container: the signature followed by
    /// each chunk's encoding in sequence order. Parsing it back yields this
    /// container again.
    pub fn as_bytes(&self) -> (r: Vec<u8>)
        ensures
            r@ == spec_png_serialize(self@),
            spec_png_parse(r@) == Ok::<Seq<ChunkModel>, PngError>(self@),
    {
        let mut out: Vec<u8> = Vec::new();
        let sig = signature_bytes();
        out.push(sig[0]);
        out.push(sig[1]);
        out.push(sig[2]);
        out.push(sig[3]);
        out.push(sig[4]);
        out.push(sig[5]);
        out.push(sig[6]);
        out.push(sig[7]);
        proof {
            assert(out@ =~= spec_signature());
            assert(self@.take(0) =~= Seq::<ChunkModel>::empty());
            assert(out@ =~= spec_signature() + spec_chunks_serialize(self@.take(0)));
        }
        let mut i: usize = 0;
        while i < self.chunks.len()
            invariant
                0 <= i <= self.chunks@.len(),
                self.chunks@.len() == self@.len(),
                out@ == spec_signature() + spec_chunks_serialize(self@.take(i as int)),
                forall|k: int| 0 <= k < i ==> (#[trigger] self@[k].wf()),
                forall|k: int| 0 <= k < i ==> (#[trigger] self@[k].crc_ok()),
            decreases self.chunks@.len() - i,
        {
            let c: &Chunk = &self.chunks[i];
            proof {
                use_type_invariant(c);
                assert(c@ == self@[i as int]);
            }
            let ghost out0 = out@;
            let cb = c.as_bytes();
            out.extend_from_slice(cb.as_slice());
            proof {
                lemma_serialize_step(self@, i as int);
                assert(out@ == out0 + spec_chunk_serialize(self@[i as int]));
            }
            i += 1;
        }
        proof {
            assert(self@.take(self@.len() as int) =~= self@);
            lemma_png_round_trip(self@);
        }
        out
    }
}

} // verus!
