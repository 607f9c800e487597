use vstd::prelude::*;
use vstd::slice::{slice_subrange, slice_to_vec};

use crate::bytes::{read_u32_le, read_u64_le, u32_le_at, u64_le_at};

verus! {

/// The kinds of chunk a container can hold, one of each at most.
#[derive(Debug, Hash, Eq, PartialEq, Clone, Copy)]
pub enum ChunkType {
    Audio,
    Metadata,
    AiModel,
    DspChain,
    Relativistic,
    Signature,
}

/// The 32-bit code that marks each kind in the chunk table (four ASCII
/// letters read big-end first: `AUDI`, `META`, `AIMO`, `DSPC`, `RELA`, `SIGN`).
pub open spec fn tag_of(t: ChunkType) -> u32 {
    match t {
        ChunkType::Audio => 0x41554449,
        ChunkType::Metadata => 0x4D455441,
        ChunkType::AiModel => 0x41494D4F,
        ChunkType::DspChain => 0x44535043,
        ChunkType::Relativistic => 0x52454C41,
        ChunkType::Signature => 0x5349474E,
    }
}

/// The kind that `code` marks, if any.
pub open spec fn type_of_tag(code: nat) -> Option<ChunkType> {
    if code == 0x41554449 {
        Some(ChunkType::Audio)
    } else if code == 0x4D455441 {
        Some(ChunkType::Metadata)
    } else if code == 0x41494D4F {
        Some(ChunkType::AiModel)
    } else if code == 0x44535043 {
        Some(ChunkType::DspChain)
    } else if code == 0x52454C41 {
        Some(ChunkType::Relativistic)
    } else if code == 0x5349474E {
        Some(ChunkType::Signature)
    } else {
        None
    }
}

/// Where each kind is kept in a container: 0 to 5.
pub open spec fn slot_of(t: ChunkType) -> int {
    match t {
        ChunkType::Audio => 0,
        ChunkType::Metadata => 1,
        ChunkType::AiModel => 2,
        ChunkType::DspChain => 3,
        ChunkType::Relativistic => 4,
        ChunkType::Signature => 5,
    }
}

impl ChunkType {
    /// The code that marks this kind in the chunk table.
    pub fn tag(self) -> (r: u32)
        ensures
            r == tag_of(self),
    {
        match self {
            ChunkType::Audio => 0x41554449,
            ChunkType::Metadata => 0x4D455441,
            ChunkType::AiModel => 0x41494D4F,
            ChunkType::DspChain => 0x44535043,
            ChunkType::Relativistic => 0x52454C41,
            ChunkType::Signature => 0x5349474E,
        }
    }

    /// The kind that `code` marks; `None` for a code of no known kind.
    pub fn from_tag(code: u32) -> (r: Option<ChunkType>)
        ensures
            r == type_of_tag(code as nat),
    {
        if code == 0x41554449 {
            Some(ChunkType::Audio)
        } else if code == 0x4D455441 {
            Some(ChunkType::Metadata)
        } else if code == 0x41494D4F {
            Some(ChunkType::AiModel)
        } else if code == 0x44535043 {
            Some(ChunkType::DspChain)
        } else if code == 0x52454C41 {
            Some(ChunkType::Relativistic)
        } else if code == 0x5349474E {
            Some(ChunkType::Signature)
        } else {
            None
        }
    }

    fn slot(self) -> (r: usize)
        ensures
            r == slot_of(self),
    {
        match self {
            ChunkType::Audio => 0,
            ChunkType::Metadata => 1,
            ChunkType::AiModel => 2,
            ChunkType::DspChain => 3,
            ChunkType::Relativistic => 4,
            ChunkType::Signature => 5,
        }
    }
}

/// Each kind's code marks that kind and no other.
pub proof fn lemma_tag_round_trip(t: ChunkType, code: u32)
    ensures
        type_of_tag(tag_of(t) as nat) == Some(t),
        type_of_tag(code as nat) == Some(t) ==> code == tag_of(t),
{
}

/// One chunk as the table describes it, with the bytes it points at.
#[derive(Debug)]
pub struct ChunkData {
    offset: u64,
    size: u64,
    flags: u32,
    data: Vec<u8>,
}

/// A chunk seen as (offset, size, flags, bytes).
pub type ChunkView = (u64, u64, u32, Seq<u8>);

impl View for ChunkData {
    type V = ChunkView;

    closed spec fn view(&self) -> ChunkView {
        (self.offset, self.size, self.flags, self.data@)
    }
}

impl ChunkData {
    /// Where the chunk's bytes start in the file.
    pub fn offset(&self) -> (r: u64)
        ensures
            r == self@.0,
    {
        self.offset
    }

    /// How many bytes the chunk has.
    pub fn size(&self) -> (r: u64)
        ensures
            r == self@.1,
    {
        self.size
    }

    /// The chunk's flag word.
    pub fn flags(&self) -> (r: u32)
        ensures
            r == self@.2,
    {
        self.flags
    }

    /// The chunk's bytes.
    pub fn data(&self) -> (r: &[u8])
        ensures
            r@ == self@.3,
    {
        self.data.as_slice()
    }
}

/// Why a byte string is not a container, or lacks what was asked of it.
#[derive(Debug, Clone, Copy, PartialEq, Eq)]
pub enum EuphError {
    InvalidMagic,
    InvalidVersion,
    MissingAudioChunk,
    MissingAiModel,
    /// The bytes end before a field or a chunk that the file announces.
    Truncated,
}

/// Length of the fixed header, after which the chunk count stands.
pub open spec fn header_len() -> int {
    20
}

/// Six empty slots, one per kind.
pub open spec fn empty_slots() -> Seq<Option<ChunkView>> {
    Seq::new(6, |i: int| None::<ChunkView>)
}

/// The bytes a table entry points at: none when its size is zero, else
/// `bytes[offset..offset + size]`.
pub open spec fn entry_bytes(bytes: Seq<u8>, offset: nat, size: nat) -> Seq<u8> {
    if size == 0 {
        Seq::empty()
    } else {
        bytes.subrange(offset as int, (offset + size) as int)
    }
}

/// Reads `count` table entries from `bytes` at `at` into `slots`.
///
/// An entry is a 4-byte code; an entry of a known kind goes on with an 8-byte
/// offset, an 8-byte size and a 4-byte flag word, and its chunk replaces any
/// earlier one of the same kind. A code of no known kind is skipped alone.
/// Every field, and every chunk's bytes, must lie within `bytes`.
pub open spec fn read_table(
    bytes: Seq<u8>,
    at: int,
    count: nat,
    slots: Seq<Option<ChunkView>>,
) -> Result<Seq<Option<ChunkView>>, EuphError>
    decreases count,
{
    if count == 0 {
        Ok(slots)
    } else if at + 4 > bytes.len() {
        Err(EuphError::Truncated)
    } else {
        match type_of_tag(u32_le_at(bytes, at)) {
            None => read_table(bytes, at + 4, (count - 1) as nat, slots),
            Some(t) => {
                if at + 24 > bytes.len() {
                    Err(EuphError::Truncated)
                } else {
                    let offset = u64_le_at(bytes, at + 4);
                    let size = u64_le_at(bytes, at + 12);
                    let flags = u32_le_at(bytes, at + 20);
                    if size > 0 && offset + size > bytes.len() {
                        Err(EuphError::Truncated)
                    } else {
                        let c: ChunkView = (
                            offset as u64,
                            size as u64,
                            flags as u32,
                            entry_bytes(bytes, offset, size),
                        );
                        read_table(bytes, at + 24, (count - 1) as nat, slots.update(slot_of(t), Some(c)))
                    }
                }
            }
        }
    }
}

/// What `parse` makes of `bytes`: (version, flags, slots), or the fault.
pub open spec fn parse_spec(bytes: Seq<u8>) -> Result<((u8, u8), u16, Seq<Option<ChunkView>>), EuphError> {
    if bytes.len() < 4 {
        Err(EuphError::Truncated)
    } else if bytes.subrange(0, 4) != seq![69u8, 85u8, 80u8, 72u8] {
        Err(EuphError::InvalidMagic)
    } else if bytes.len() < header_len() + 4 {
        Err(EuphError::Truncated)
    } else {
        match read_table(bytes, header_len() + 4, u32_le_at(bytes, header_len()), empty_slots()) {
            Err(e) => Err(e),
            Ok(slots) => Ok(((bytes[4], bytes[5]), (bytes[6] + 256 * bytes[7]) as u16, slots)),
        }
    }
}

/// A parsed container: its version, its flag word, and its chunks by kind.
#[derive(Debug)]
pub struct EuphContainer {
    version: (u8, u8),
    flags: u16,
    chunks: Vec<Option<ChunkData>>,
}

/// A container seen as (version, flags, one slot per kind).
pub type ContainerView = ((u8, u8), u16, Seq<Option<ChunkView>>);

spec fn slots_view(s: Seq<Option<ChunkData>>) -> Seq<Option<ChunkView>> {
    Seq::new(
        s.len(),
        |i: int|
            match s[i] {
                Some(c) => Some(c@),
                None => None,
            },
    )
}

impl View for EuphContainer {
    type V = ContainerView;

    closed spec fn view(&self) -> ContainerView {
        (self.version, self.flags, slots_view(self.chunks@))
    }
}

/// The chunk of kind `t` that a container view holds, if any.
pub open spec fn chunk_of(c: ContainerView, t: ChunkType) -> Option<ChunkView> {
    c.2[slot_of(t)]
}

impl EuphContainer {
    /// Whether the container holds six slots, one per kind.
    pub closed spec fn wf(&self) -> bool {
        self.chunks@.len() == 6
    }

    /// Parses a container from its bytes.
    ///
    /// The header is the magic `EUPH`, a 2-byte version, a 2-byte flag word,
    /// an 8-byte length and a 4-byte checksum (neither checked), then a 4-byte
    /// chunk count and the chunk table (see `read_table`). All integers are
    /// little-endian.
    pub fn parse(bytes: &[u8]) -> (r: Result<EuphContainer, EuphError>)
        ensures
            r is Ok == parse_spec(bytes@) is Ok,
            r matches Ok(c) ==> c.wf() && Ok::<ContainerView, EuphError>(c@) == parse_spec(bytes@),
            r matches Err(e) ==> Err::<ContainerView, EuphError>(e) == parse_spec(bytes@),
    {
        if bytes.len() < 4 {
            return Err(EuphError::Truncated);
        }
        if !(bytes[0] == 69u8 && bytes[1] == 85u8 && bytes[2] == 80u8 && bytes[3] == 72u8) {
            assert(bytes@.subrange(0, 4) != seq![69u8, 85u8, 80u8, 72u8]) by {
                let h = bytes@.subrange(0, 4);
                assert(h[0] == bytes@[0] && h[1] == bytes@[1] && h[2] == bytes@[2] && h[3]
                    == bytes@[3]);
            }
            return Err(EuphError::InvalidMagic);
        }
        assert(bytes@.subrange(0, 4) =~= seq![69u8, 85u8, 80u8, 72u8]);
        if bytes.len() < 24 {
            return Err(EuphError::Truncated);
        }
        let version = (bytes[4], bytes[5]);
        let flags = (bytes[6] as u16) + 256 * (bytes[7] as u16);
        let count = read_u32_le(bytes, 20);
        match Self::read_chunks(bytes, 24, count) {
            Err(e) => Err(e),
            Ok(chunks) => Ok(EuphContainer { version, flags, chunks }),
        }
    }

    fn read_chunks(bytes: &[u8], start: usize, count: u32) -> (r: Result<
        Vec<Option<ChunkData>>,
        EuphError,
    >)
        requires
            start <= bytes@.len(),
        ensures
            r matches Ok(v) ==> v@.len() == 6 && Ok::<Seq<Option<ChunkView>>, EuphError>(
                slots_view(v@),
            ) == read_table(bytes@, start as int, count as nat, empty_slots()),
            r matches Err(e) ==> Err::<Seq<Option<ChunkView>>, EuphError>(e) == read_table(
                bytes@,
                start as int,
                count as nat,
                empty_slots(),
            ),
    {
        let n: usize = bytes.len();
        let mut slots: Vec<Option<ChunkData>> = Vec::new();
        let mut k: usize = 0;
        while k < 6
            invariant
                k <= 6,
                slots@.len() == k,
                forall|j: int| 0 <= j < k ==> slots@[j] is None,
            decreases 6 - k,
        {
            slots.push(None);
            k = k + 1;
        }
        assert(slots_view(slots@) =~= empty_slots());
        let ghost total = read_table(bytes@, start as int, count as nat, empty_slots());
        let mut at: usize = start;
        let mut i: u32 = 0;
        while i < count
            invariant
                n == bytes@.len(),
                at <= n,
                i <= count,
                slots@.len() == 6,
                total == read_table(bytes@, start as int, count as nat, empty_slots()),
                total == read_table(bytes@, at as int, (count - i) as nat, slots_view(slots@)),
            decreases count - i,
        {
            if n - at < 4 {
                return Err(EuphError::Truncated);
            }
            let code = read_u32_le(bytes, at);
            match ChunkType::from_tag(code) {
                None => {
                    at = at + 4;
                },
                Some(t) => {
                    if n - at < 24 {
                        return Err(EuphError::Truncated);
                    }
                    let offset = read_u64_le(bytes, at + 4);
                    let size = read_u64_le(bytes, at + 12);
                    let flags = read_u32_le(bytes, at + 20);
                    let data: Vec<u8> = if size == 0 {
                        Vec::new()
                    } else {
                        if offset >= n as u64 || size > (n as u64) - offset {
                            return Err(EuphError::Truncated);
                        }
                        slice_to_vec(slice_subrange(bytes, offset as usize, (offset + size) as usize))
                    };
                    assert(data@ =~= entry_bytes(bytes@, offset as nat, size as nat));
                    let ghost before = slots_view(slots@);
                    let c = ChunkData { offset, size, flags, data };
                    let ghost cv = c@;
                    slots.set(t.slot(), Some(c));
                    assert(slots_view(slots@) =~= before.update(slot_of(t), Some(cv)));
                    at = at + 24;
                },
            }
            i = i + 1;
        }
        Ok(slots)
    }

    /// The version pair from the header.
    pub fn version(&self) -> (r: (u8, u8))
        ensures
            r == self@.0,
    {
        self.version
    }

    /// The flag word from the header.
    pub fn flags(&self) -> (r: u16)
        ensures
            r == self@.1,
    {
        self.flags
    }

    /// The chunk of kind `t`, if the container has one.
    pub fn chunk(&self, t: ChunkType) -> (r: Option<&ChunkData>)
        requires
            self.wf(),
        ensures
            r is Some == chunk_of(self@, t) is Some,
            r matches Some(c) ==> chunk_of(self@, t) == Some(c@),
    {
        match &self.chunks[t.slot()] {
            Some(c) => Some(c),
            None => None,
        }
    }

    /// The bytes of the audio chunk, if there is one.
    pub fn get_audio_data(&self) -> (r: Option<&[u8]>)
        requires
            self.wf(),
        ensures
            r is Some == chunk_of(self@, ChunkType::Audio) is Some,
            r matches Some(d) ==> d@ == chunk_of(self@, ChunkType::Audio)->Some_0.3,
    {
        match self.chunk(ChunkType::Audio) {
            Some(c) => Some(c.data()),
            None => None,
        }
    }

    /// The audio bytes and the model bytes that an enhancement pass needs:
    /// `MissingAudioChunk` without audio, else `MissingAiModel` without a model.
    pub fn enhancement_inputs(&self) -> (r: Result<(&[u8], &[u8]), EuphError>)
        requires
            self.wf(),
        ensures
            chunk_of(self@, ChunkType::Audio) is None ==> r == Err::<(&[u8], &[u8]), EuphError>(
                EuphError::MissingAudioChunk,
            ),
            chunk_of(self@, ChunkType::Audio) is Some && chunk_of(self@, ChunkType::AiModel) is None
                ==> r == Err::<(&[u8], &[u8]), EuphError>(EuphError::MissingAiModel),
            r matches Ok(p) ==> chunk_of(self@, ChunkType::Audio) matches Some(a) && chunk_of(
                self@,
                ChunkType::AiModel,
            ) matches Some(m) && p.0@ == a.3 && p.1@ == m.3,
    {
        let audio = match self.get_audio_data() {
            Some(a) => a,
            None => return Err(EuphError::MissingAudioChunk),
        };
        let model = match self.chunk(ChunkType::AiModel) {
            Some(m) => m.data(),
            None => return Err(EuphError::MissingAiModel),
        };
        Ok((audio, model))
    }
}

} // verus!
