//! Format constants (signature, chunk types, enumerations, security ceilings).

use vstd::prelude::*;

verus! {

// --- Format version (documentation/tooling version, never written to a file) ---
pub const FORMAT_VERSION_MAJOR: u32 = 1;
pub const FORMAT_VERSION_MINOR: u32 = 0;

/// File signature: `\x89CAFE\r\n\x1a\n`.
pub const SIGNATURE: [u8; 9] = [0x89, 0x43, 0x41, 0x46, 0x45, 0x0D, 0x0A, 0x1A, 0x0A];

// --- Chunk types ---
pub const CHUNK_IHDR: [u8; 4] = [0x49, 0x48, 0x44, 0x52];
pub const CHUNK_IDIM: [u8; 4] = [0x69, 0x44, 0x49, 0x4D];
pub const CHUNK_PLTE: [u8; 4] = [0x50, 0x4C, 0x54, 0x45];
pub const CHUNK_IDAT: [u8; 4] = [0x49, 0x44, 0x41, 0x54];
pub const CHUNK_IEND: [u8; 4] = [0x49, 0x45, 0x4E, 0x44];
pub const CHUNK_EXIF: [u8; 4] = [0x65, 0x58, 0x49, 0x46];
pub const CHUNK_JSON: [u8; 4] = [0x6A, 0x53, 0x4F, 0x4E];
pub const CHUNK_ICCP: [u8; 4] = [0x69, 0x43, 0x43, 0x50];
pub const CHUNK_XMPD: [u8; 4] = [0x78, 0x4D, 0x50, 0x64];
pub const CHUNK_ZDIC: [u8; 4] = [0x7A, 0x44, 0x49, 0x43];
pub const CHUNK_CHDR: [u8; 4] = [0x63, 0x48, 0x44, 0x52];

// --- Chunk codec flags ---
pub const FLAG_RAW: u8 = 0x00;
pub const FLAG_ZSTD: u8 = 0x01;

// --- Color types ---
pub const COLOR_TYPE_GRAY: u8 = 0;
pub const COLOR_TYPE_RGB: u8 = 2;
pub const COLOR_TYPE_INDEXED: u8 = 3;
pub const COLOR_TYPE_GRAY_ALPHA: u8 = 4;
pub const COLOR_TYPE_RGBA: u8 = 6;

// --- Sample formats ---
pub const SAMPLE_FORMAT_UINT: u8 = 0;
pub const SAMPLE_FORMAT_FLOAT: u8 = 1;
pub const SAMPLE_FORMAT_HALF: u8 = 2;

pub const COMPRESSION_METHOD_ZSTD_BIT: u8 = 0x01;
pub const FILTER_METHOD_NONE: u8 = 0;
pub const FILTER_METHOD_BYTE_SHUFFLE: u8 = 1;
pub const FILTER_METHOD_PREDICTIVE: u8 = 2;
/// Per-row predictive filter: one filter code byte per row.
pub const FILTER_METHOD_PREDICTIVE_PER_ROW: u8 = 3;
pub const INTERLACE_NONE: u8 = 0;

// --- Predictive filter codes ---
pub const F_NONE: u8 = 0;
pub const F_SUB: u8 = 1;
pub const F_UP: u8 = 2;
pub const F_AVERAGE: u8 = 3;
pub const F_PAETH: u8 = 4;
pub const F_MED: u8 = 5;
pub const F_GRADIENT: u8 = 6;
pub const F_SMEDIAN: u8 = 7;
pub const F_2NDORDER: u8 = 8;
pub const F_4WAY_H: u8 = 9;
pub const F_4WAY_V: u8 = 10;
pub const F_4WAY_D1: u8 = 11;
pub const F_4WAY_D2: u8 = 12;
pub const F_CONTEXT: u8 = 13;
pub const F_TR_DIRECTIONAL: u8 = 14;
pub const F_WEIGHTED: u8 = 15;
pub const NUM_FILTERS: u8 = 16;
/// Filter candidates considered for per-row selection (all but `F_WEIGHTED`).
pub const NUM_FILTERS_PER_ROW: u8 = 15;

// --- Interlacing ---
pub const INTERLACE_ADAM7: u8 = 1;
pub const INTERLACE_EVEN_ODD: u8 = 2;
pub const ADAM7_NUM_PASSES: usize = 7;
pub const EVEN_ODD_NUM_PASSES: usize = 2;

pub const DEFAULT_TILE_ROWS: u32 = 64;
pub const ZSTD_LEVEL: i32 = 19;
/// Bytes per pixel of 8-bit RGBA.
pub const BPP: usize = 4;

/// Largest number of bytes a single chunk may decompress to (1 GiB).
pub const MAX_DECOMPRESSED_CHUNK_SIZE: u64 = 1073741824;
/// Largest tile grid (`tiles_x * tiles_y`) accepted from an `iDIM` chunk.
pub const MAX_TILE_COUNT: u64 = 1048576;
/// Largest number of entries accepted from a `PLTE` chunk.
pub const MAX_PALETTE_ENTRIES: usize = 256;

} // verus!
