use ravr_dsp::{ChunkType, EuphContainer, EuphError};

fn header(count: u32) -> Vec<u8> {
    let mut b = b"EUPH".to_vec();
    b.extend_from_slice(&[1, 0]);
    b.extend_from_slice(&0x0005u16.to_le_bytes());
    b.extend_from_slice(&0u64.to_le_bytes());
    b.extend_from_slice(&0u32.to_le_bytes());
    b.extend_from_slice(&count.to_le_bytes());
    b
}

fn entry(b: &mut Vec<u8>, code: u32, offset: u64, size: u64, flags: u32) {
    b.extend_from_slice(&code.to_le_bytes());
    b.extend_from_slice(&offset.to_le_bytes());
    b.extend_from_slice(&size.to_le_bytes());
    b.extend_from_slice(&flags.to_le_bytes());
}

#[test]
fn chunk_type_codes() {
    let all = [
        (ChunkType::Audio, 0x41554449u32),
        (ChunkType::Metadata, 0x4D455441),
        (ChunkType::AiModel, 0x41494D4F),
        (ChunkType::DspChain, 0x44535043),
        (ChunkType::Relativistic, 0x52454C41),
        (ChunkType::Signature, 0x5349474E),
    ];
    for (t, code) in all {
        assert_eq!(t.tag(), code);
        assert_eq!(ChunkType::from_tag(code), Some(t));
    }
    assert_eq!(ChunkType::from_tag(0), None);
    assert_eq!(ChunkType::from_tag(0x41554448), None);
}

#[test]
fn parse_empty_table() {
    let c = EuphContainer::parse(&header(0)).unwrap();
    assert_eq!(c.version(), (1, 0));
    assert_eq!(c.flags(), 5);
    assert!(c.get_audio_data().is_none());
    assert!(c.chunk(ChunkType::Signature).is_none());
}

#[test]
fn parse_audio_chunk() {
    let mut b = header(1);
    entry(&mut b, 0x41554449, 48, 3, 1);
    b.extend_from_slice(&[10, 20, 30]);
    assert_eq!(b.len(), 51);
    let c = EuphContainer::parse(&b).unwrap();
    assert_eq!(c.get_audio_data(), Some(&[10u8, 20, 30][..]));
    let a = c.chunk(ChunkType::Audio).unwrap();
    assert_eq!(a.offset(), 48);
    assert_eq!(a.size(), 3);
    assert_eq!(a.flags(), 1);
    assert_eq!(a.data(), &[10, 20, 30]);
}

#[test]
fn later_chunk_of_same_kind_replaces_earlier() {
    let mut b = header(2);
    entry(&mut b, 0x41554449, 72, 1, 0);
    entry(&mut b, 0x41554449, 73, 1, 0);
    b.extend_from_slice(&[1, 2]);
    let c = EuphContainer::parse(&b).unwrap();
    assert_eq!(c.get_audio_data(), Some(&[2u8][..]));
}

#[test]
fn unknown_code_skips_four_bytes() {
    let mut b = header(2);
    b.extend_from_slice(&0xDEADBEEFu32.to_le_bytes());
    entry(&mut b, 0x4D455441, 52, 2, 0);
    b.extend_from_slice(b"{}");
    let c = EuphContainer::parse(&b).unwrap();
    assert_eq!(c.chunk(ChunkType::Metadata).unwrap().data(), b"{}");
}

#[test]
fn empty_chunk_may_point_anywhere() {
    let mut b = header(1);
    entry(&mut b, 0x5349474E, 1_000_000, 0, 0);
    let c = EuphContainer::parse(&b).unwrap();
    assert_eq!(c.chunk(ChunkType::Signature).unwrap().data(), &[] as &[u8]);
}

#[test]
fn parse_truncated_header() {
    assert_eq!(EuphContainer::parse(b"EU").unwrap_err(), EuphError::Truncated);
    assert_eq!(EuphContainer::parse(b"EUPH\x01\x00").unwrap_err(), EuphError::Truncated);
}

#[test]
fn parse_invalid_magic() {
    let mut b = header(0);
    b[0] = b'X';
    assert_eq!(EuphContainer::parse(&b).unwrap_err(), EuphError::InvalidMagic);
}

#[test]
fn parse_truncated_table() {
    let mut b = header(1);
    b.extend_from_slice(&0x41554449u32.to_le_bytes());
    b.extend_from_slice(&[0; 10]);
    assert_eq!(EuphContainer::parse(&b).unwrap_err(), EuphError::Truncated);
    assert_eq!(EuphContainer::parse(&header(1)).unwrap_err(), EuphError::Truncated);
}

#[test]
fn parse_chunk_past_end() {
    let mut b = header(1);
    entry(&mut b, 0x41554449, 48, 4, 0);
    b.extend_from_slice(&[1, 2, 3]);
    assert_eq!(EuphContainer::parse(&b).unwrap_err(), EuphError::Truncated);
}

#[test]
fn enhancement_inputs_need_audio_then_model() {
    let c = EuphContainer::parse(&header(0)).unwrap();
    assert_eq!(c.enhancement_inputs().unwrap_err(), EuphError::MissingAudioChunk);

    let mut b = header(1);
    entry(&mut b, 0x41554449, 48, 1, 0);
    b.push(7);
    let c = EuphContainer::parse(&b).unwrap();
    assert_eq!(c.enhancement_inputs().unwrap_err(), EuphError::MissingAiModel);

    let mut b = header(2);
    entry(&mut b, 0x41554449, 72, 1, 0);
    entry(&mut b, 0x41494D4F, 73, 2, 0);
    b.extend_from_slice(&[7, 8, 9]);
    let c = EuphContainer::parse(&b).unwrap();
    let (audio, model) = c.enhancement_inputs().unwrap();
    assert_eq!(audio, &[7]);
    assert_eq!(model, &[8, 9]);
}
