use ravr_dsp::{create_euph_from_audio, validate_euph_file, DecodeError, EuphDecoder, EuphEncoder};

#[test]
fn empty_encoder_writes_header_only() {
    let e = EuphEncoder::new();
    assert_eq!(e.encode(), vec![b'E', b'U', b'P', b'H', 1, 0, 0, 0, 0, 0]);
}

#[test]
fn encode_audio_and_metadata_layout() {
    let mut e = EuphEncoder::new();
    e.add_audio_data(&[9, 8, 7]);
    e.add_metadata("{}");
    let b = e.encode();
    let mut want = b"EUPH".to_vec();
    want.extend_from_slice(&[1, 0]);
    want.extend_from_slice(&2u32.to_le_bytes());
    want.extend_from_slice(b"AUDI");
    want.extend_from_slice(&3u32.to_le_bytes());
    want.extend_from_slice(&[9, 8, 7]);
    want.extend_from_slice(b"META");
    want.extend_from_slice(&2u32.to_le_bytes());
    want.extend_from_slice(b"{}");
    assert_eq!(b, want);
}

#[test]
fn create_from_audio_matches_encoder() {
    let mut e = EuphEncoder::new();
    e.add_audio_data(&[1, 2]);
    e.add_metadata("{\"genre\":\"x\"}");
    assert_eq!(create_euph_from_audio(&[1, 2], "{\"genre\":\"x\"}"), e.encode());
}

#[test]
fn decode_reads_back_chunk_count() {
    let bytes = create_euph_from_audio(&[1, 2, 3, 4], "{}");
    let mut d = EuphDecoder::new();
    assert_eq!(d.decode(&bytes), Ok(()));
    assert_eq!(d.get_chunk_count(), 2);
}

#[test]
fn decoded_names_are_four_bytes_so_long_names_do_not_match() {
    let bytes = create_euph_from_audio(&[1, 2, 3, 4], "{}");
    let mut d = EuphDecoder::new();
    d.decode(&bytes).unwrap();
    assert_eq!(d.get_audio_data(), None);
    assert_eq!(d.get_metadata(), None);
}

#[test]
fn decode_finds_chunk_whose_tag_is_a_full_name() {
    let mut bytes = b"EUPH".to_vec();
    bytes.extend_from_slice(&[1, 0]);
    bytes.extend_from_slice(&1u32.to_le_bytes());
    bytes.extend_from_slice(b"AB\0\0");
    bytes.extend_from_slice(&2u32.to_le_bytes());
    bytes.extend_from_slice(&[5, 6]);
    let mut d = EuphDecoder::new();
    assert_eq!(d.decode(&bytes), Ok(()));
    assert_eq!(d.get_chunk_count(), 1);
}

#[test]
fn decode_too_short() {
    let mut d = EuphDecoder::new();
    assert_eq!(d.decode(b"EUPH"), Err(DecodeError::TooShort));
    assert_eq!(d.decode(&[b'E', b'U', b'P', b'H', 1, 0, 0, 0, 0]), Err(DecodeError::TooShort));
}

#[test]
fn decode_wrong_magic() {
    let mut d = EuphDecoder::new();
    assert_eq!(d.decode(b"RIFF\x01\x00\x00\x00\x00\x00"), Err(DecodeError::WrongMagic));
}

#[test]
fn decode_chunk_header_past_end() {
    let mut bytes = b"EUPH".to_vec();
    bytes.extend_from_slice(&[1, 0]);
    bytes.extend_from_slice(&1u32.to_le_bytes());
    bytes.extend_from_slice(b"AUD");
    let mut d = EuphDecoder::new();
    assert_eq!(d.decode(&bytes), Err(DecodeError::ChunkPastEnd));
}

#[test]
fn decode_chunk_data_past_end_keeps_earlier_chunks() {
    let mut bytes = b"EUPH".to_vec();
    bytes.extend_from_slice(&[1, 0]);
    bytes.extend_from_slice(&2u32.to_le_bytes());
    bytes.extend_from_slice(b"ONE\0");
    bytes.extend_from_slice(&1u32.to_le_bytes());
    bytes.push(42);
    bytes.extend_from_slice(b"TWO\0");
    bytes.extend_from_slice(&10u32.to_le_bytes());
    bytes.push(1);
    let mut d = EuphDecoder::new();
    assert_eq!(d.decode(&bytes), Err(DecodeError::ChunkDataPastEnd));
    assert_eq!(d.get_chunk_count(), 1);
}

#[test]
fn header_fault_leaves_chunks() {
    let bytes = create_euph_from_audio(&[1], "{}");
    let mut d = EuphDecoder::new();
    d.decode(&bytes).unwrap();
    assert_eq!(d.decode(b"nope"), Err(DecodeError::TooShort));
    assert_eq!(d.get_chunk_count(), 2);
}

#[test]
fn error_messages() {
    assert_eq!(DecodeError::TooShort.message(), "Invalid EUPH file: too short");
    assert_eq!(DecodeError::WrongMagic.message(), "Invalid EUPH file: wrong magic");
    assert_eq!(DecodeError::ChunkPastEnd.message(), "Invalid EUPH file: chunk extends beyond file");
    assert_eq!(
        DecodeError::ChunkDataPastEnd.message(),
        "Invalid EUPH file: chunk data extends beyond file"
    );
}

#[test]
fn validate_checks_length_and_magic() {
    assert!(validate_euph_file(b"EUPH\x01\x00\x00\x00"));
    assert!(!validate_euph_file(b"EUPH\x01\x00\x00"));
    assert!(!validate_euph_file(b"EUPX\x01\x00\x00\x00"));
    assert!(!validate_euph_file(b""));
}
