//! CAFE (Compression Adaptive Filtering Experiment): the verified core of a
//! chunk-based image format whose pixels are transformed (predictive filters,
//! byte-shuffle, interlacing, sub-byte packing, palette quantization) so that
//! a general-purpose compressor (Zstandard) compresses them well.

pub mod ancillary;
pub mod bytes;
pub mod chunk;
pub mod codec;
pub mod color;
pub mod constants;
pub mod decode;
pub mod depth_laws;
pub mod encode;
pub mod error;
pub mod filter;
pub mod filter_choice;
pub mod header;
pub mod indexed;
pub mod indexed_encode;
pub mod interlace;
pub mod interlace_roundtrip;
pub mod layout_laws;
pub mod meta_roundtrip;
pub mod packing;
pub mod palette;
pub mod palette_laws;
pub mod pixel_laws;
pub mod predictor_laws;
pub mod quantize;
pub mod roundtrip;
pub mod sample_laws;
pub mod shuffle;
pub mod simd;
pub mod simd_packing;
pub mod stream;
pub mod stream_decode;
pub mod zorder;
