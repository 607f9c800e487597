use vstd::prelude::*;
use vstd::slice::{slice_subrange, slice_to_vec};
use vstd::string::StringSliceAdditionalSpecFns;
use vstd::utf8::{decode_utf8, valid_utf8};

use crate::bytes::{
    bytes_eq, lemma_u32_le_round_trip, push_all, push_u32_le, read_u32_le, tag4, trim_nul, u32_le_at, u32_le_bytes,
};

verus! {

/// `b"EUPH"`, the first four bytes of every framed file.
pub open spec fn magic() -> Seq<u8> {
    seq![69u8, 85u8, 80u8, 72u8]
}

/// `b"AUDIO"`, the name under which audio bytes are framed.
pub open spec fn audio_name() -> Seq<u8> {
    seq![65u8, 85u8, 68u8, 73u8, 79u8]
}

/// `b"METADATA"`, the name under which metadata text is framed.
pub open spec fn metadata_name() -> Seq<u8> {
    seq![77u8, 69u8, 84u8, 65u8, 68u8, 65u8, 84u8, 65u8]
}

/// One framed chunk: its name in the frame's four-byte tag field, then its
/// size as a 32-bit little-endian count (taken modulo 2^32), then its bytes.
pub open spec fn encode_chunk(c: (Seq<u8>, Seq<u8>)) -> Seq<u8> {
    tag4(c.0) + u32_le_bytes(c.1.len() % 4294967296) + c.1
}

/// The framed chunks, in order.
pub open spec fn encode_chunks(cs: Seq<(Seq<u8>, Seq<u8>)>) -> Seq<u8>
    decreases cs.len(),
{
    if cs.len() == 0 {
        Seq::empty()
    } else {
        encode_chunk(cs[0]) + encode_chunks(cs.drop_first())
    }
}

/// The ten-byte header: magic, version 1.0, chunk count modulo 2^32.
pub open spec fn encode_header(count: nat) -> Seq<u8> {
    magic() + seq![1u8, 0u8] + u32_le_bytes(count % 4294967296)
}

/// A whole framed file holding the chunks `cs`.
pub open spec fn encoded(cs: Seq<(Seq<u8>, Seq<u8>)>) -> Seq<u8> {
    encode_header(cs.len()) + encode_chunks(cs)
}

/// Why a byte string is not a framed file.
#[derive(Debug, Clone, Copy, PartialEq, Eq)]
pub enum DecodeError {
    /// Shorter than the header.
    TooShort,
    /// The first four bytes are not `EUPH`.
    WrongMagic,
    /// A chunk's tag and size run past the end.
    ChunkPastEnd,
    /// A chunk's bytes run past the end.
    ChunkDataPastEnd,
}

impl DecodeError {
    /// A sentence that names the fault.
    pub fn message(&self) -> (r: &'static str) {
        match self {
            DecodeError::TooShort => "Invalid EUPH file: too short",
            DecodeError::WrongMagic => "Invalid EUPH file: wrong magic",
            DecodeError::ChunkPastEnd => "Invalid EUPH file: chunk extends beyond file",
            DecodeError::ChunkDataPastEnd => "Invalid EUPH file: chunk data extends beyond file",
        }
    }
}

/// The fault in the header of `data`, if there is one.
pub open spec fn header_error(data: Seq<u8>) -> Option<DecodeError> {
    if data.len() < 8 {
        Some(DecodeError::TooShort)
    } else if data.subrange(0, 4) != magic() {
        Some(DecodeError::WrongMagic)
    } else if data.len() < 10 {
        Some(DecodeError::TooShort)
    } else {
        None
    }
}

/// Reads `count` chunks from `data` starting at `off`: the chunks read before
/// the first fault, and that fault, if any. A chunk's name is its tag field
/// without trailing zero bytes.
pub open spec fn decode_chunks(data: Seq<u8>, off: int, count: nat) -> (
    Seq<(Seq<u8>, Seq<u8>)>,
    Option<DecodeError>,
)
    decreases count,
{
    if count == 0 {
        (Seq::empty(), None)
    } else if off + 8 > data.len() {
        (Seq::empty(), Some(DecodeError::ChunkPastEnd))
    } else if off + 8 + u32_le_at(data, off + 4) > data.len() {
        (Seq::empty(), Some(DecodeError::ChunkDataPastEnd))
    } else {
        let size = u32_le_at(data, off + 4);
        let c = (trim_nul(data.subrange(off, off + 4)), data.subrange(off + 8, off + 8 + size));
        let rest = decode_chunks(data, off + 8 + size, (count - 1) as nat);
        (seq![c] + rest.0, rest.1)
    }
}

/// The bytes of the first chunk named `name`.
pub open spec fn find_named(cs: Seq<(Seq<u8>, Seq<u8>)>, name: Seq<u8>) -> Option<Seq<u8>>
    decreases cs.len(),
{
    if cs.len() == 0 {
        None
    } else if cs[0].0 == name {
        Some(cs[0].1)
    } else {
        find_named(cs.drop_first(), name)
    }
}

struct EuphChunk {
    name: Vec<u8>,
    data: Vec<u8>,
}

spec fn chunks_view(cs: Seq<EuphChunk>) -> Seq<(Seq<u8>, Seq<u8>)> {
    Seq::new(cs.len(), |i: int| (cs[i].name@, cs[i].data@))
}

/// Collects named chunks and frames them into one byte string.
pub struct EuphEncoder {
    chunks: Vec<EuphChunk>,
}

/// Reads the chunks back out of a framed byte string.
pub struct EuphDecoder {
    chunks: Vec<EuphChunk>,
}

impl View for EuphEncoder {
    type V = Seq<(Seq<u8>, Seq<u8>)>;

    /// The chunks added so far, in order, as (name, bytes).
    closed spec fn view(&self) -> Self::V {
        chunks_view(self.chunks@)
    }
}

impl View for EuphDecoder {
    type V = Seq<(Seq<u8>, Seq<u8>)>;

    /// The chunks read by the last decode, in order, as (name, bytes).
    closed spec fn view(&self) -> Self::V {
        chunks_view(self.chunks@)
    }
}

fn push_chunk(chunks: &mut Vec<EuphChunk>, name: Vec<u8>, data: Vec<u8>)
    ensures
        chunks_view(final(chunks)@) == chunks_view(old(chunks)@).push((name@, data@)),
{
    let ghost n = name@;
    let ghost d = data@;
    chunks.push(EuphChunk { name, data });
    assert(chunks_view(chunks@) =~= chunks_view(old(chunks)@).push((n, d)));
}

/// Appends the four-byte tag field for `name`.
fn push_tag4(out: &mut Vec<u8>, name: &[u8])
    ensures
        final(out)@ == old(out)@ + tag4(name@),
{
    let mut k: usize = 0;
    while k < 4
        invariant
            k <= 4,
            out@ == old(out)@ + tag4(name@).subrange(0, k as int),
        decreases 4 - k,
    {
        let b: u8 = if k < name.len() {
            name[k]
        } else {
            0
        };
        out.push(b);
        k = k + 1;
        assert(out@ =~= old(out)@ + tag4(name@).subrange(0, k as int));
    }
    assert(tag4(name@).subrange(0, 4) =~= tag4(name@));
}

/// The name in the tag field at `data[off..off + 4]`.
fn read_tag(data: &[u8], off: usize) -> (r: Vec<u8>)
    requires
        off + 4 <= data@.len(),
    ensures
        r@ == trim_nul(data@.subrange(off as int, off + 4)),
{
    let n: usize = data.len();
    let mut k: usize = 4;
    while k > 0 && data[off + k - 1] == 0
        invariant
            k <= 4,
            off + 4 <= data@.len(),
            n == data@.len(),
            trim_nul(data@.subrange(off as int, off + 4)) == trim_nul(
                data@.subrange(off as int, off + k),
            ),
        decreases k,
    {
        assert(data@.subrange(off as int, off + k).drop_last() =~= data@.subrange(
            off as int,
            off + k - 1,
        ));
        k = k - 1;
    }
    let r = slice_to_vec(slice_subrange(data, off, off + k));
    assert(trim_nul(data@.subrange(off as int, off + k)) == data@.subrange(off as int, off + k));
    r
}

/// The bytes of the first chunk named `name`, copied.
fn find_data(chunks: &Vec<EuphChunk>, name: &[u8]) -> (r: Option<Vec<u8>>)
    ensures
        r is Some == find_named(chunks_view(chunks@), name@) is Some,
        r matches Some(v) ==> find_named(chunks_view(chunks@), name@) == Some(v@),
{
    let ghost cs = chunks_view(chunks@);
    assert(cs.subrange(0, cs.len() as int) =~= cs);
    let mut i: usize = 0;
    while i < chunks.len()
        invariant
            i <= chunks@.len(),
            cs == chunks_view(chunks@),
            find_named(cs, name@) == find_named(cs.subrange(i as int, cs.len() as int), name@),
        decreases chunks@.len() - i,
    {
        let ghost rest = cs.subrange(i as int, cs.len() as int);
        assert(rest[0] == cs[i as int]);
        if bytes_eq(chunks[i].name.as_slice(), name) {
            return Some(slice_to_vec(chunks[i].data.as_slice()));
        }
        assert(rest.drop_first() =~= cs.subrange(i + 1, cs.len() as int));
        i = i + 1;
    }
    None
}

/// Relies on `String::from_utf8`: it succeeds exactly on valid UTF-8, and the
/// string then holds the characters those bytes encode.
#[verifier::external_body]
fn utf8_string(b: Vec<u8>) -> (r: Option<String>)
    ensures
        r is Some == valid_utf8(b@),
        r matches Some(s) ==> s@ == decode_utf8(b@),
{
    String::from_utf8(b).ok()
}

impl EuphEncoder {
    /// An encoder holding no chunks.
    pub fn new() -> (r: Self)
        ensures
            r@ == Seq::<(Seq<u8>, Seq<u8>)>::empty(),
    {
        let r = EuphEncoder { chunks: Vec::new() };
        assert(r@ =~= Seq::<(Seq<u8>, Seq<u8>)>::empty());
        r
    }

    /// Adds a chunk named `AUDIO` holding a copy of `data`.
    pub fn add_audio_data(&mut self, data: &[u8])
        ensures
            final(self)@ == old(self)@.push((audio_name(), data@)),
    {
        let name: Vec<u8> = vec![65u8, 85u8, 68u8, 73u8, 79u8];
        assert(name@ =~= audio_name());
        push_chunk(&mut self.chunks, name, slice_to_vec(data));
    }

    /// Adds a chunk named `METADATA` holding the UTF-8 bytes of `metadata_json`.
    pub fn add_metadata(&mut self, metadata_json: &str)
        ensures
            final(self)@ == old(self)@.push((metadata_name(), metadata_json.spec_bytes())),
    {
        let name: Vec<u8> = vec![77u8, 69u8, 84u8, 65u8, 68u8, 65u8, 84u8, 65u8];
        assert(name@ =~= metadata_name());
        push_chunk(&mut self.chunks, name, slice_to_vec(metadata_json.as_bytes()));
    }

    /// The framed file: the header, then each chunk in the order it was added.
    pub fn encode(&self) -> (r: Vec<u8>)
        ensures
            r@ == encoded(self@),
    {
        let ghost cs = self@;
        let mut out: Vec<u8> = Vec::new();
        out.push(69u8);
        out.push(85u8);
        out.push(80u8);
        out.push(72u8);
        out.push(1u8);
        out.push(0u8);
        push_u32_le(&mut out, ((self.chunks.len() as u64) % 4294967296) as u32);
        assert(out@ =~= encode_header(cs.len()));
        assert(cs.subrange(0, cs.len() as int) =~= cs);
        let mut i: usize = 0;
        while i < self.chunks.len()
            invariant
                i <= self.chunks@.len(),
                cs == chunks_view(self.chunks@),
                out@ + encode_chunks(cs.subrange(i as int, cs.len() as int)) == encoded(cs),
            decreases self.chunks@.len() - i,
        {
            let ghost rest = cs.subrange(i as int, cs.len() as int);
            let ghost before = out@;
            assert(rest[0] == cs[i as int]);
            assert(rest.drop_first() =~= cs.subrange(i + 1, cs.len() as int));
            let c = &self.chunks[i];
            push_tag4(&mut out, c.name.as_slice());
            push_u32_le(&mut out, ((c.data.len() as u64) % 4294967296) as u32);
            push_all(&mut out, c.data.as_slice());
            assert(out@ =~= before + encode_chunk(cs[i as int]));
            assert(before + encode_chunks(rest) =~= out@ + encode_chunks(
                cs.subrange(i + 1, cs.len() as int),
            ));
            i = i + 1;
        }
        assert(cs.subrange(i as int, cs.len() as int) =~= Seq::<(Seq<u8>, Seq<u8>)>::empty());
        assert(out@ + Seq::<u8>::empty() =~= out@);
        out
    }
}

impl EuphDecoder {
    /// A decoder holding no chunks.
    pub fn new() -> (r: Self)
        ensures
            r@ == Seq::<(Seq<u8>, Seq<u8>)>::empty(),
    {
        let r = EuphDecoder { chunks: Vec::new() };
        assert(r@ =~= Seq::<(Seq<u8>, Seq<u8>)>::empty());
        r
    }

    /// Reads the framed file `data`.
    ///
    /// A fault in the header leaves the chunks as they were. Otherwise the
    /// chunks are replaced by those read before the first fault, and that
    /// fault, if any, is returned.
    pub fn decode(&mut self, data: &[u8]) -> (r: Result<(), DecodeError>)
        ensures
            header_error(data@) matches Some(e) ==> r == Err::<(), DecodeError>(e)
                && final(self)@ == old(self)@,
            header_error(data@) is None ==> {
                let res = decode_chunks(data@, 10, u32_le_at(data@, 6));
                &&& final(self)@ == res.0
                &&& r == match res.1 {
                    Some(e) => Err::<(), DecodeError>(e),
                    None => Ok(()),
                }
            },
    {
        if data.len() < 8 {
            return Err(DecodeError::TooShort);
        }
        if !(data[0] == 69u8 && data[1] == 85u8 && data[2] == 80u8 && data[3] == 72u8) {
            assert(data@.subrange(0, 4) != magic()) by {
                let h = data@.subrange(0, 4);
                assert(h[0] == data@[0] && h[1] == data@[1] && h[2] == data@[2] && h[3]
                    == data@[3]);
            }
            return Err(DecodeError::WrongMagic);
        }
        assert(data@.subrange(0, 4) =~= magic());
        if data.len() < 10 {
            return Err(DecodeError::TooShort);
        }
        let count = read_u32_le(data, 6);
        let ghost total = decode_chunks(data@, 10, count as nat);
        self.chunks = Vec::new();
        assert(chunks_view(self.chunks@) =~= Seq::<(Seq<u8>, Seq<u8>)>::empty());
        let mut off: usize = 10;
        let mut i: u32 = 0;
        while i < count
            invariant
                i <= count,
                off <= data@.len(),
                header_error(data@) is None,
                count as nat == u32_le_at(data@, 6),
                total == decode_chunks(data@, 10, count as nat),
                total.0 == chunks_view(self.chunks@) + decode_chunks(
                    data@,
                    off as int,
                    (count - i) as nat,
                ).0,
                total.1 == decode_chunks(data@, off as int, (count - i) as nat).1,
            decreases count - i,
        {
            let ghost before = chunks_view(self.chunks@);
            if data.len() - off < 8 {
                assert(before + Seq::<(Seq<u8>, Seq<u8>)>::empty() =~= before);
                return Err(DecodeError::ChunkPastEnd);
            }
            let name = read_tag(data, off);
            let size = read_u32_le(data, off + 4) as usize;
            if size > data.len() - off - 8 {
                assert(before + Seq::<(Seq<u8>, Seq<u8>)>::empty() =~= before);
                return Err(DecodeError::ChunkDataPastEnd);
            }
            let body = slice_to_vec(slice_subrange(data, off + 8, off + 8 + size));
            let ghost c = (name@, body@);
            let ghost next = decode_chunks(data@, off + 8 + size, (count - i - 1) as nat);
            push_chunk(&mut self.chunks, name, body);
            assert(before + (seq![c] + next.0) =~= before.push(c) + next.0);
            off = off + 8 + size;
            i = i + 1;
        }
        assert(decode_chunks(data@, off as int, 0).0.len() == 0);
        assert(chunks_view(self.chunks@) + Seq::<(Seq<u8>, Seq<u8>)>::empty() =~= chunks_view(
            self.chunks@,
        ));
        Ok(())
    }

    /// The bytes of the first chunk named `AUDIO`, copied.
    pub fn get_audio_data(&self) -> (r: Option<Vec<u8>>)
        ensures
            r is Some == find_named(self@, audio_name()) is Some,
            r matches Some(v) ==> find_named(self@, audio_name()) == Some(v@),
    {
        let name: Vec<u8> = vec![65u8, 85u8, 68u8, 73u8, 79u8];
        assert(name@ =~= audio_name());
        find_data(&self.chunks, name.as_slice())
    }

    /// The text of the first chunk named `METADATA`, if its bytes are UTF-8.
    pub fn get_metadata(&self) -> (r: Option<String>)
        ensures
            r is Some == (find_named(self@, metadata_name()) matches Some(d) && valid_utf8(d)),
            r matches Some(s) ==> s@ == decode_utf8(find_named(self@, metadata_name())->Some_0),
    {
        let name: Vec<u8> = vec![77u8, 69u8, 84u8, 65u8, 68u8, 65u8, 84u8, 65u8];
        assert(name@ =~= metadata_name());
        match find_data(&self.chunks, name.as_slice()) {
            Some(d) => utf8_string(d),
            None => None,
        }
    }

    /// How many chunks the last decode read.
    pub fn get_chunk_count(&self) -> (r: usize)
        ensures
            r == self@.len(),
    {
        self.chunks.len()
    }
}

/// The chunks as a decoder reads them back after framing: each name cut to
/// the four-byte tag field and stripped of trailing zero bytes.
pub open spec fn as_read_back(cs: Seq<(Seq<u8>, Seq<u8>)>) -> Seq<(Seq<u8>, Seq<u8>)> {
    Seq::new(cs.len(), |i: int| (trim_nul(tag4(cs[i].0)), cs[i].1))
}

proof fn lemma_decode_chunks_after(prefix: Seq<u8>, cs: Seq<(Seq<u8>, Seq<u8>)>)
    requires
        forall|i: int| 0 <= i < cs.len() ==> cs[i].1.len() < 4294967296,
    ensures
        decode_chunks(prefix + encode_chunks(cs), prefix.len() as int, cs.len()) == (
            as_read_back(cs),
            Option::<DecodeError>::None,
        ),
    decreases cs.len(),
{
    if cs.len() == 0 {
        assert(as_read_back(cs) =~= Seq::<(Seq<u8>, Seq<u8>)>::empty());
    } else {
        let c = cs[0];
        let rest = cs.drop_first();
        let d = prefix + encode_chunks(cs);
        let off = prefix.len() as int;
        let len = c.1.len();
        let lb = u32_le_bytes(len % 4294967296);
        let e = encode_chunk(c);
        assert(d =~= prefix + e + encode_chunks(rest));
        assert(d.subrange(off, off + 4) =~= tag4(c.0));
        assert(len % 4294967296 == len);
        lemma_u32_le_round_trip(len);
        assert(d[off + 4] == lb[0] && d[off + 5] == lb[1] && d[off + 6] == lb[2] && d[off + 7]
            == lb[3]);
        assert(u32_le_at(d, off + 4) == len);
        assert(d.subrange(off + 8, off + 8 + len) =~= c.1);
        assert forall|i: int| 0 <= i < rest.len() implies rest[i].1.len() < 4294967296 by {
            assert(rest[i] == cs[i + 1]);
        }
        lemma_decode_chunks_after(prefix + e, rest);
        assert((prefix + e) + encode_chunks(rest) =~= d);
        assert(as_read_back(cs) =~= seq![(trim_nul(tag4(c.0)), c.1)] + as_read_back(rest));
    }
}

/// Reading back a framed file: the header is accepted, the count field holds
/// the number of chunks, and every chunk comes back in order with its bytes
/// unchanged and its name as the tag field held it, with no fault. This holds
/// whenever the count and every chunk size fit in 32 bits.
pub proof fn lemma_decode_encoded(cs: Seq<(Seq<u8>, Seq<u8>)>)
    requires
        cs.len() < 4294967296,
        forall|i: int| 0 <= i < cs.len() ==> cs[i].1.len() < 4294967296,
    ensures
        header_error(encoded(cs)) is None,
        u32_le_at(encoded(cs), 6) == cs.len(),
        decode_chunks(encoded(cs), 10, cs.len()) == (
            as_read_back(cs),
            Option::<DecodeError>::None,
        ),
{
    let d = encoded(cs);
    let h = encode_header(cs.len());
    let lb = u32_le_bytes(cs.len() % 4294967296);
    assert(h.len() == 10);
    assert(d.subrange(0, 4) =~= magic());
    lemma_u32_le_round_trip(cs.len());
    assert(d[6] == lb[0] && d[7] == lb[1] && d[8] == lb[2] && d[9] == lb[3]);
    lemma_decode_chunks_after(h, cs);
}

/// Frames `audio_data` and then `metadata_json` into one file.
pub fn create_euph_from_audio(audio_data: &[u8], metadata_json: &str) -> (r: Vec<u8>)
    ensures
        r@ == encoded(seq![(audio_name(), audio_data@), (metadata_name(), metadata_json.spec_bytes())]),
{
    let mut encoder = EuphEncoder::new();
    encoder.add_audio_data(audio_data);
    encoder.add_metadata(metadata_json);
    let r = encoder.encode();
    assert(encoder@ =~= seq![(audio_name(), audio_data@), (metadata_name(), metadata_json.spec_bytes())]);
    r
}

/// Whether `data` is long enough for a header and starts with `EUPH`.
pub fn validate_euph_file(data: &[u8]) -> (r: bool)
    ensures
        r == (data@.len() >= 8 && data@.subrange(0, 4) == magic()),
{
    if data.len() < 8 {
        return false;
    }
    let ok = data[0] == 69u8 && data[1] == 85u8 && data[2] == 80u8 && data[3] == 72u8;
    let ghost h = data@.subrange(0, 4);
    assert(h[0] == data@[0] && h[1] == data@[1] && h[2] == data@[2] && h[3] == data@[3]);
    if ok {
        assert(h =~= magic());
    }
    ok
}

} // verus!
