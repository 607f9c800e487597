//! Building blocks of a real-time stereo audio chain, and the EUPH byte
//! formats that carry its audio.
//!
//! - `delay_line`: the fixed-length circular delay line under the reverb's
//!   comb and allpass filters.
//! - `framing`: a flat chunk framing (`EuphEncoder` / `EuphDecoder`).
//! - `container`: the chunk-table container (`EuphContainer::parse`).
//! - `lossless`: lossless packing of float samples (silence runs) under zstd.
//! - `bytes`: little-endian fields and byte-string helpers both formats share.

pub mod bytes;
pub mod container;
pub mod delay_line;
pub mod framing;
pub mod lossless;

pub use container::{ChunkData, ChunkType, EuphContainer, EuphError};
pub use delay_line::DelayLine;
pub use lossless::{
    compress_bytes, decompress_bytes, is_silent_sample, lossless_compress, lossless_decompress, pack_lossless, unpack_lossless,
    CodecError,
};
pub use framing::{create_euph_from_audio, validate_euph_file, DecodeError, EuphDecoder, EuphEncoder};
