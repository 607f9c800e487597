use vstd::prelude::*;

use crate::bytes::{lemma_u32_le_round_trip, push_u32_le, read_u32_le, u32_le_at, u32_le_bytes};

verus! {

// Samples travel here as the bit patterns of 32-bit floats (`f32::to_bits`);
// the byte form of a sample is its four little-endian bytes, as
// `f32::to_le_bytes` writes them.

/// The bit pattern of the float nearest to 0.0001, the silence threshold.
pub const SILENCE_THRESHOLD_BITS: u32 = 0x38D1_B717;

/// The marker that opens a run of silent samples: four `0xFF` bytes.
pub const SILENCE_MARKER: u32 = 0xFFFF_FFFF;

/// A sample is silent when its magnitude is below 0.0001. For every float,
/// NaN included, that holds exactly when its bits without the sign are below
/// the threshold's bits, since non-negative floats order as their bits do.
pub open spec fn is_silent(bits: u32) -> bool {
    (bits % 0x8000_0000) < SILENCE_THRESHOLD_BITS
}

/// The bytes that close a pending run of `run` silent samples.
pub open spec fn flush_run(run: nat) -> Seq<u8> {
    if run > 0 {
        u32_le_bytes(SILENCE_MARKER as nat) + u32_le_bytes(run)
    } else {
        Seq::empty()
    }
}

/// The packed form of `s[i..]`, after a pending run of `run` silent samples:
/// each maximal run of silent samples becomes the marker and the run's length,
/// every other sample its own four bytes.
pub open spec fn pack_from(s: Seq<u32>, i: int, run: nat) -> Seq<u8>
    decreases s.len() - i,
{
    if i >= s.len() {
        flush_run(run)
    } else if is_silent(s[i]) {
        pack_from(s, i + 1, run + 1)
    } else {
        flush_run(run) + u32_le_bytes(s[i] as nat) + pack_from(s, i + 1, 0)
    }
}

/// The packed form of all of `s`.
pub open spec fn pack_spec(s: Seq<u32>) -> Seq<u8> {
    pack_from(s, 0, 0)
}

/// The samples read from `b[i..]`: four marker bytes followed by a count
/// stand for that many zero samples; any other four bytes are one sample.
/// Reading stops where fewer than four bytes remain, and after a marker
/// without a whole count.
pub open spec fn unpack_from(b: Seq<u8>, i: int) -> Seq<u32>
    decreases b.len() - i,
{
    if i < 0 || i + 4 > b.len() {
        Seq::empty()
    } else if u32_le_at(b, i) == SILENCE_MARKER {
        if i + 8 <= b.len() {
            Seq::new(u32_le_at(b, i + 4), |k: int| 0u32) + unpack_from(b, i + 8)
        } else {
            Seq::empty()
        }
    } else {
        seq![u32_le_at(b, i) as u32] + unpack_from(b, i + 4)
    }
}

/// The samples read from all of `b`.
pub open spec fn unpack_spec(b: Seq<u8>) -> Seq<u32> {
    unpack_from(b, 0)
}

/// `s` with every silent sample replaced by positive zero.
pub open spec fn silenced(s: Seq<u32>) -> Seq<u32> {
    Seq::new(s.len(), |k: int| if is_silent(s[k]) { 0u32 } else { s[k] })
}

/// What zstd makes of `data` at compression level `level`.
pub uninterp spec fn zstd_compressed(data: Seq<u8>, level: int) -> Seq<u8>;

/// What zstd restores from the frame `data`.
pub uninterp spec fn zstd_decompressed(data: Seq<u8>) -> Seq<u8>;

/// Relies on `zstd::encode_all` (zstd 0.13), reading from a slice: its
/// output depends on the bytes and the level alone.
#[verifier::external_body]
fn zstd_encode(data: &[u8], level: i32) -> (r: Option<Vec<u8>>)
    ensures
        r matches Some(v) ==> v@ == zstd_compressed(data@, level as int),
{
    zstd::encode_all(data, level).ok()
}

/// Relies on `zstd::decode_all` (zstd 0.13), reading from a slice: its
/// output depends on the bytes alone.
#[verifier::external_body]
fn zstd_decode(data: &[u8]) -> (r: Option<Vec<u8>>)
    ensures
        r matches Some(v) ==> v@ == zstd_decompressed(data@),
{
    zstd::decode_all(data).ok()
}

/// Why a compression call failed.
#[derive(Debug, Clone, Copy, PartialEq, Eq)]
pub enum CodecError {
    CompressionFailed,
    DecompressionFailed,
    UnknownProfile,
}

impl CodecError {
    /// A sentence that names the fault.
    pub fn message(&self) -> (r: &'static str) {
        match self {
            CodecError::CompressionFailed => "ZSTD compression failed",
            CodecError::DecompressionFailed => "ZSTD decompression failed",
            CodecError::UnknownProfile => "Unknown compression profile",
        }
    }
}

/// Whether the float with bit pattern `bits` has magnitude below 0.0001.
pub fn is_silent_sample(bits: u32) -> (r: bool)
    ensures
        r == is_silent(bits),
{
    (bits % 0x8000_0000) < SILENCE_THRESHOLD_BITS
}

fn push_run(out: &mut Vec<u8>, run: u32)
    ensures
        final(out)@ == old(out)@ + flush_run(run as nat),
{
    if run > 0 {
        push_u32_le(out, SILENCE_MARKER);
        push_u32_le(out, run);
        assert(final(out)@ =~= old(out)@ + flush_run(run as nat));
    } else {
        assert(final(out)@ =~= old(out)@ + flush_run(run as nat));
    }
}

/// Packs samples: each maximal run of silent samples becomes the marker and
/// the run's length, every other sample its own four bytes.
pub fn pack_lossless(samples: &[u32]) -> (r: Vec<u8>)
    requires
        samples@.len() <= u32::MAX,
    ensures
        r@ == pack_spec(samples@),
{
    let mut out: Vec<u8> = Vec::new();
    let mut run: u32 = 0;
    let mut i: usize = 0;
    while i < samples.len()
        invariant
            samples@.len() <= u32::MAX,
            i <= samples@.len(),
            run <= i,
            out@ + pack_from(samples@, i as int, run as nat) == pack_spec(samples@),
        decreases samples@.len() - i,
    {
        let x = samples[i];
        if is_silent_sample(x) {
            run = run + 1;
        } else {
            let ghost before = out@;
            push_run(&mut out, run);
            push_u32_le(&mut out, x);
            assert(before + pack_from(samples@, i as int, run as nat) =~= out@ + pack_from(
                samples@,
                i + 1,
                0,
            ));
            run = 0;
        }
        i = i + 1;
    }
    let ghost before = out@;
    push_run(&mut out, run);
    assert(out@ =~= before + pack_from(samples@, i as int, run as nat));
    out
}

/// Unpacks samples written by `pack_lossless`: a marker and a count give that
/// many zero samples, any other four bytes one sample.
pub fn unpack_lossless(bytes: &[u8]) -> (r: Vec<u32>)
    ensures
        r@ == unpack_spec(bytes@),
{
    let n: usize = bytes.len();
    let mut out: Vec<u32> = Vec::new();
    let mut i: usize = 0;
    while i < n && n - i >= 4
        invariant
            n == bytes@.len(),
            i <= n,
            out@ + unpack_from(bytes@, i as int) == unpack_spec(bytes@),
        decreases n - i,
    {
        let word = read_u32_le(bytes, i);
        if word == SILENCE_MARKER {
            if n - i < 8 {
                assert(unpack_from(bytes@, i as int) =~= Seq::<u32>::empty());
                assert(out@ + Seq::<u32>::empty() =~= out@);
                return out;
            }
            let count = read_u32_le(bytes, i + 4);
            let ghost before = out@;
            let mut k: u32 = 0;
            while k < count
                invariant
                    k <= count,
                    out@ == before + Seq::new(k as nat, |j: int| 0u32),
                decreases count - k,
            {
                out.push(0u32);
                k = k + 1;
                assert(out@ =~= before + Seq::new(k as nat, |j: int| 0u32));
            }
            assert(before + unpack_from(bytes@, i as int) =~= out@ + unpack_from(
                bytes@,
                i + 8,
            ));
            i = i + 8;
        } else {
            let ghost before = out@;
            out.push(word);
            assert(before + unpack_from(bytes@, i as int) =~= out@ + unpack_from(
                bytes@,
                i + 4,
            ));
            i = i + 4;
        }
    }
    assert(unpack_from(bytes@, i as int) =~= Seq::<u32>::empty());
    assert(out@ + Seq::<u32>::empty() =~= out@);
    out
}

/// Compresses bytes into one zstd frame at `level`.
pub fn compress_bytes(data: &[u8], level: i32) -> (r: Result<Vec<u8>, CodecError>)
    ensures
        r matches Ok(v) ==> v@ == zstd_compressed(data@, level as int),
        r matches Err(e) ==> e == CodecError::CompressionFailed,
{
    match zstd_encode(data, level) {
        Some(v) => Ok(v),
        None => Err(CodecError::CompressionFailed),
    }
}

/// Restores the bytes of a zstd frame.
pub fn decompress_bytes(data: &[u8]) -> (r: Result<Vec<u8>, CodecError>)
    ensures
        r matches Ok(v) ==> v@ == zstd_decompressed(data@),
        r matches Err(e) ==> e == CodecError::DecompressionFailed,
{
    match zstd_decode(data) {
        Some(v) => Ok(v),
        None => Err(CodecError::DecompressionFailed),
    }
}

/// Packs the samples and compresses the packed bytes with zstd at level 6.
pub fn lossless_compress(samples: &[u32]) -> (r: Result<Vec<u8>, CodecError>)
    requires
        samples@.len() <= u32::MAX,
    ensures
        r matches Ok(v) ==> v@ == zstd_compressed(pack_spec(samples@), 6),
        r matches Err(e) ==> e == CodecError::CompressionFailed,
{
    let packed = pack_lossless(samples);
    compress_bytes(packed.as_slice(), 6)
}

/// Decompresses a zstd frame and unpacks the samples it holds.
pub fn lossless_decompress(compressed: &[u8]) -> (r: Result<Vec<u32>, CodecError>)
    ensures
        r matches Ok(v) ==> v@ == unpack_spec(zstd_decompressed(compressed@)),
        r matches Err(e) ==> e == CodecError::DecompressionFailed,
{
    match decompress_bytes(compressed) {
        Ok(d) => Ok(unpack_lossless(d.as_slice())),
        Err(e) => Err(e),
    }
}

proof fn lemma_unpack_after(p: Seq<u8>, s: Seq<u32>, i: int, run: nat)
    requires
        0 <= i <= s.len(),
        run + s.len() - i <= u32::MAX,
        forall|k: int| 0 <= k < s.len() ==> s[k] != SILENCE_MARKER,
    ensures
        unpack_from(p + pack_from(s, i, run), p.len() as int) == Seq::new(run, |k: int| 0u32)
            + silenced(s.subrange(i, s.len() as int)),
    decreases s.len() - i, if run > 0 { 1nat } else { 0nat },
{
    let b = p + pack_from(s, i, run);
    let at = p.len() as int;
    if run > 0 && (i >= s.len() || !is_silent(s[i])) {
        let mk = u32_le_bytes(SILENCE_MARKER as nat);
        let cnt = u32_le_bytes(run);
        lemma_u32_le_round_trip(SILENCE_MARKER as nat);
        lemma_u32_le_round_trip(run);
        let rest = if i >= s.len() {
            Seq::<u8>::empty()
        } else {
            u32_le_bytes(s[i] as nat) + pack_from(s, i + 1, 0)
        };
        assert(pack_from(s, i, run) =~= mk + cnt + rest);
        assert(b =~= p + mk + cnt + rest);
        assert(b.subrange(at, at + 4) =~= mk);
        assert(u32_le_at(b, at) == u32_le_at(mk, 0));
        assert(b.subrange(at + 4, at + 8) =~= cnt);
        assert(u32_le_at(b, at + 4) == u32_le_at(cnt, 0));
        lemma_unpack_after(p + mk + cnt, s, i, 0);
        assert((p + mk + cnt) + pack_from(s, i, 0) =~= b) by {
            if i < s.len() {
                assert(pack_from(s, i, 0) =~= flush_run(0) + rest);
            }
        }
        assert(Seq::new(run, |k: int| 0u32) + silenced(s.subrange(i, s.len() as int)) =~= Seq::new(
            run,
            |k: int| 0u32,
        ) + (Seq::new(0, |k: int| 0u32) + silenced(s.subrange(i, s.len() as int))));
    } else if i >= s.len() {
        assert(pack_from(s, i, run) =~= Seq::<u8>::empty());
        assert(b =~= p);
        assert(Seq::new(run, |k: int| 0u32) + silenced(s.subrange(i, s.len() as int)) =~= Seq::<
            u32,
        >::empty());
    } else if is_silent(s[i]) {
        lemma_unpack_after(p, s, i + 1, run + 1);
        assert(Seq::new(run + 1, |k: int| 0u32) + silenced(s.subrange(i + 1, s.len() as int))
            =~= Seq::new(run, |k: int| 0u32) + silenced(s.subrange(i, s.len() as int)));
    } else {
        let w = u32_le_bytes(s[i] as nat);
        lemma_u32_le_round_trip(s[i] as nat);
        assert(pack_from(s, i, 0) =~= w + pack_from(s, i + 1, 0));
        assert(b =~= (p + w) + pack_from(s, i + 1, 0));
        assert(b.subrange(at, at + 4) =~= w);
        assert(u32_le_at(b, at) == u32_le_at(w, 0));
        lemma_unpack_after(p + w, s, i + 1, 0);
        assert(silenced(s.subrange(i, s.len() as int)) =~= seq![s[i]] + silenced(
            s.subrange(i + 1, s.len() as int),
        ));
        assert(Seq::new(0, |k: int| 0u32) + silenced(s.subrange(i + 1, s.len() as int)) =~= silenced(
            s.subrange(i + 1, s.len() as int),
        ));
        assert(Seq::new(0, |k: int| 0u32) + silenced(s.subrange(i, s.len() as int)) =~= silenced(
            s.subrange(i, s.len() as int),
        ));
    }
}

/// Unpacking what `pack_lossless` wrote gives the samples back, each silent
/// one as positive zero. This holds for every input of at most 2^32 - 1
/// samples in which no sample has all bits set: that one NaN pattern is the
/// marker, and unpacking would read it as the start of a run.
pub proof fn lemma_unpack_pack(s: Seq<u32>)
    requires
        s.len() <= u32::MAX,
        forall|k: int| 0 <= k < s.len() ==> s[k] != SILENCE_MARKER,
    ensures
        unpack_spec(pack_spec(s)) == silenced(s),
{
    lemma_unpack_after(Seq::empty(), s, 0, 0);
    assert(Seq::<u8>::empty() + pack_spec(s) =~= pack_spec(s));
    assert(s.subrange(0, s.len() as int) =~= s);
    assert(Seq::new(0, |k: int| 0u32) + silenced(s) =~= silenced(s));
}

} // verus!
