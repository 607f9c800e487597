use ravr_dsp::{
    is_silent_sample, lossless_compress, lossless_decompress, pack_lossless, unpack_lossless,
    CodecError,
};

fn bits(xs: &[f32]) -> Vec<u32> {
    xs.iter().map(|x| x.to_bits()).collect()
}

#[test]
fn silence_test_on_bits_matches_float_comparison() {
    let values = [
        0.0f32,
        -0.0,
        0.0001,
        -0.0001,
        0.000099999,
        -0.000099999,
        0.00010001,
        1.0e-40,
        -1.0e-40,
        1.0,
        -3.5,
        f32::INFINITY,
        f32::NEG_INFINITY,
        f32::NAN,
        -f32::NAN,
        f32::MIN_POSITIVE,
        f32::from_bits(0x38D1_B716),
        f32::from_bits(0x38D1_B717),
        f32::from_bits(0xB8D1_B716),
    ];
    for v in values {
        assert_eq!(is_silent_sample(v.to_bits()), v.abs() < 0.0001, "value {:?}", v);
    }
}

#[test]
fn pack_runs_and_literals() {
    let s = bits(&[0.0, 0.00001, 0.5, -0.0, -1.0]);
    let mut want = Vec::new();
    want.extend_from_slice(&[0xFF; 4]);
    want.extend_from_slice(&2u32.to_le_bytes());
    want.extend_from_slice(&0.5f32.to_le_bytes());
    want.extend_from_slice(&[0xFF; 4]);
    want.extend_from_slice(&1u32.to_le_bytes());
    want.extend_from_slice(&(-1.0f32).to_le_bytes());
    assert_eq!(pack_lossless(&s), want);
}

#[test]
fn pack_trailing_run_and_empty() {
    assert_eq!(pack_lossless(&[]), Vec::<u8>::new());
    let s = bits(&[0.25, 0.0, 0.0, 0.0]);
    let mut want = 0.25f32.to_le_bytes().to_vec();
    want.extend_from_slice(&[0xFF; 4]);
    want.extend_from_slice(&3u32.to_le_bytes());
    assert_eq!(pack_lossless(&s), want);
}

#[test]
fn unpack_reads_back_with_silence_as_zero() {
    let s = bits(&[0.00002, -0.00003, 0.75, 0.0, -2.0]);
    let back = unpack_lossless(&pack_lossless(&s));
    assert_eq!(back, bits(&[0.0, 0.0, 0.75, 0.0, -2.0]));
}

#[test]
fn unpack_stops_on_short_tail() {
    let mut b = 1.5f32.to_le_bytes().to_vec();
    b.extend_from_slice(&[1, 2, 3]);
    assert_eq!(unpack_lossless(&b), bits(&[1.5]));
    let mut m = vec![0xFF; 4];
    m.extend_from_slice(&[5, 0]);
    assert_eq!(unpack_lossless(&m), Vec::<u32>::new());
}

#[test]
fn compress_then_decompress() {
    let s = bits(&[0.0, 0.0, 0.0, 0.125, -0.5, 0.00005, 1.0]);
    let z = lossless_compress(&s).unwrap();
    assert_ne!(z, pack_lossless(&s));
    let back = lossless_decompress(&z).unwrap();
    assert_eq!(back, bits(&[0.0, 0.0, 0.0, 0.125, -0.5, 0.0, 1.0]));
}

#[test]
fn decompress_rejects_garbage() {
    assert_eq!(
        lossless_decompress(&[1, 2, 3, 4, 5]),
        Err(CodecError::DecompressionFailed)
    );
}

#[test]
fn codec_error_messages() {
    assert_eq!(CodecError::CompressionFailed.message(), "ZSTD compression failed");
    assert_eq!(CodecError::DecompressionFailed.message(), "ZSTD decompression failed");
    assert_eq!(CodecError::UnknownProfile.message(), "Unknown compression profile");
}
