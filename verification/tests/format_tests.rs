use cafe::ancillary::{iDim, read_chdr_chunk, read_idim_chunk, read_plte_chunk, write_chdr_chunk, write_idim_chunk, write_plte_chunk, ChdrFields};
use cafe::chunk::write_chunk;
use cafe::codec::{compress_with_fallback, decompress_chunk};
use cafe::color::{
    bytes_per_pixel, bytes_per_pixel_with_format, bytes_per_row_for_bit_depth, compress_sample_32bit_to_8, compress_sample_n_to_8bits,
    convert_color_type_to_rgba, convert_rgba_to_color_type, expand_sample_8_to_32bit, expand_sample_8_to_n_bits, pack_samples_row,
    read_u16_be, read_u32_be, reduce_sample_8_to_n_bits, unpack_samples_row,
};
use cafe::constants::{
    ADAM7_NUM_PASSES, CHUNK_IDAT, CHUNK_IDIM, CHUNK_IEND, CHUNK_IHDR, CHUNK_PLTE, COLOR_TYPE_GRAY, COLOR_TYPE_GRAY_ALPHA,
    COLOR_TYPE_INDEXED, COLOR_TYPE_RGB, COLOR_TYPE_RGBA, COMPRESSION_METHOD_ZSTD_BIT, EVEN_ODD_NUM_PASSES, FILTER_METHOD_BYTE_SHUFFLE,
    FILTER_METHOD_NONE, FLAG_RAW, FLAG_ZSTD, INTERLACE_ADAM7, INTERLACE_EVEN_ODD, INTERLACE_NONE, SAMPLE_FORMAT_FLOAT,
    SAMPLE_FORMAT_HALF, SAMPLE_FORMAT_UINT, SIGNATURE,
};
use cafe::decode::decode_bytes;
use cafe::encode::EncodeOptions;
use cafe::error::CafeError;
use cafe::header::compute_decompress_budget;
use cafe::indexed::{dequantize_from_palette, quantize_to_palette, PaletteAlgorithm};
use cafe::indexed_encode::encode_indexed;
use cafe::interlace::{
    adam7_pass_dimensions, adam7_pass_params, apply_adam7_interlace, apply_even_odd_interlace, extract_adam7_pass, reconstruct_adam7,
    reconstruct_even_odd,
};
use cafe::palette::{Palette, PaletteEntry};
use cafe::zorder::{morton_code, morton_decode};

fn ihdr(w: u32, h: u32, bd: u8, ct: u8, fm: u8, il: u8) -> Vec<u8> {
    let mut ihdr = Vec::new();
    ihdr.extend_from_slice(&w.to_be_bytes());
    ihdr.extend_from_slice(&h.to_be_bytes());
    ihdr.push(bd);
    ihdr.push(SAMPLE_FORMAT_UINT);
    ihdr.push(ct);
    ihdr.push(COMPRESSION_METHOD_ZSTD_BIT);
    ihdr.push(fm);
    ihdr.push(il);
    ihdr
}

fn file_with(ihdr_payload: &[u8], chunks: &[([u8; 4], u8, Vec<u8>)]) -> Vec<u8> {
    let mut evil = Vec::new();
    evil.extend_from_slice(&SIGNATURE);
    evil.extend_from_slice(&write_chunk(&CHUNK_IHDR, FLAG_RAW, ihdr_payload));
    for (t, f, d) in chunks {
        evil.extend_from_slice(&write_chunk(t, *f, d));
    }
    evil.extend_from_slice(&write_chunk(&CHUNK_IEND, FLAG_RAW, &[]));
    evil
}

fn idim_payload(tw: u16, th: u16, tx: u16, ty: u16, so: u8) -> Vec<u8> {
    let mut idim = Vec::new();
    idim.extend_from_slice(&tw.to_be_bytes());
    idim.extend_from_slice(&th.to_be_bytes());
    idim.extend_from_slice(&tx.to_be_bytes());
    idim.extend_from_slice(&ty.to_be_bytes());
    idim.push(so);
    idim
}

fn entry(r: u8, g: u8, b: u8, a: u8) -> PaletteEntry {
    PaletteEntry { r, g, b, a }
}

// --- decoding: refusals -----------------------------------------------------

#[test]
fn test_signature_validation() {
    let buf = vec![0x00; 100];
    assert!(decode_bytes(&buf).is_err());
    assert!(matches!(decode_bytes(&buf), Err(CafeError::InvalidSignature)));
}

#[test]
fn test_reconstruct_adam7_huge_dims_no_panic() {
    let passes: [Vec<u8>; ADAM7_NUM_PASSES] = Default::default();
    let res = reconstruct_adam7(&passes, 65_536, 65_536);
    assert!(res.is_err(), "dimensions that overflow u32 must return error, not panic");
}

#[test]
fn test_reconstruct_even_odd_huge_dims_no_panic() {
    let passes: [Vec<u8>; EVEN_ODD_NUM_PASSES] = Default::default();
    let res = reconstruct_even_odd(&passes, 65_536, 65_536);
    assert!(res.is_err(), "dimensions that overflow u32 must return error, not panic");
}

#[test]
fn test_reconstruct_adam7_inconsistent_data() {
    let mut passes: [Vec<u8>; ADAM7_NUM_PASSES] = Default::default();
    passes[0] = vec![0u8; 16];
    let res = reconstruct_adam7(&passes, 4, 4);
    assert!(res.is_err(), "inconsistent data must be rejected");
}

#[test]
fn test_decode_adversarial_huge_interlace_dims() {
    let evil = file_with(&ihdr(65_536, 65_536, 8, COLOR_TYPE_RGBA, FILTER_METHOD_NONE, INTERLACE_ADAM7), &[]);
    assert!(decode_bytes(&evil).is_err(), "forged file must be rejected without panic");
}

#[test]
fn test_decode_adversarial_inconsistent_idim_geometry() {
    let evil = file_with(
        &ihdr(8, 8, 8, COLOR_TYPE_RGBA, FILTER_METHOD_NONE, INTERLACE_NONE),
        &[(CHUNK_IDIM, FLAG_RAW, idim_payload(5, 1, 3, 8, 0))],
    );
    match decode_bytes(&evil) {
        Ok(_) => panic!("inconsistent iDIM geometry must be rejected"),
        Err(e) => {
            let msg = format!("{e:?}");
            assert!(msg.contains("iDIM"), "expected iDIM-consistency error, got: {msg}");
        }
    }
}

#[test]
fn test_decode_adversarial_idim_zero_tile_dims() {
    let evil = file_with(
        &ihdr(8, 8, 8, COLOR_TYPE_RGBA, FILTER_METHOD_NONE, INTERLACE_NONE),
        &[(CHUNK_IDIM, FLAG_RAW, idim_payload(0, 1, 1, 8, 0))],
    );
    assert!(decode_bytes(&evil).is_err(), "iDIM with tile_width=0 must be rejected without panic");
}

#[test]
fn test_decode_adversarial_idim_excessive_tile_count() {
    let evil = file_with(
        &ihdr(65_535, 65_535, 8, COLOR_TYPE_RGBA, FILTER_METHOD_NONE, INTERLACE_NONE),
        &[(CHUNK_IDIM, FLAG_RAW, idim_payload(1, 1, 65_535, 65_535, 0))],
    );
    assert!(evil.len() < 100, "PoC file should be tiny (was {} bytes)", evil.len());
    match decode_bytes(&evil) {
        Ok(_) => panic!("excessive iDIM tile count must be rejected"),
        Err(e) => {
            let msg = format!("{e:?}");
            assert!(msg.contains("tile count") || msg.contains("tiles_x"), "expected tile-count-limit error, got: {msg}");
        }
    }
}

#[test]
fn test_idim_tile_dimensions_saturates_on_inconsistent_geometry() {
    let idim = iDim { tile_width: 200, tile_height: 200, tiles_x: 2, tiles_y: 2, scan_order: 0 };
    let (w, h) = idim.tile_dimensions(1, 1, 8, 8);
    assert_eq!((w, h), (0, 0));
}

#[test]
fn test_decode_adversarial_overflow_idat() {
    let row = vec![42u8; 64];
    let evil = file_with(
        &ihdr(4, 4, 8, COLOR_TYPE_RGBA, FILTER_METHOD_NONE, INTERLACE_NONE),
        &[(CHUNK_IDAT, FLAG_RAW, row.clone()), (CHUNK_IDAT, FLAG_RAW, row)],
    );
    assert!(decode_bytes(&evil).is_err(), "excess IDAT must be rejected");
}

#[test]
fn test_decode_adversarial_idat_decompress_budget() {
    let bomb = vec![0u8; 1024 * 1024];
    let compressed = zstd::encode_all(bomb.as_slice(), 19).unwrap();
    let evil = file_with(
        &ihdr(4, 4, 8, COLOR_TYPE_RGBA, FILTER_METHOD_NONE, INTERLACE_NONE),
        &[(CHUNK_IDAT, FLAG_ZSTD, compressed)],
    );
    assert!(decode_bytes(&evil).is_err(), "decompression beyond IHDR budget must be rejected");
}

#[test]
fn test_decode_adversarial_idat_cumulative_budget() {
    let piece = [7u8; 32];
    let compressed = zstd::encode_all(piece.as_slice(), 19).unwrap();
    let chunks: Vec<([u8; 4], u8, Vec<u8>)> = (0..5).map(|_| (CHUNK_IDAT, FLAG_ZSTD, compressed.clone())).collect();
    let evil = file_with(&ihdr(4, 4, 8, COLOR_TYPE_RGBA, FILTER_METHOD_NONE, INTERLACE_NONE), &chunks);
    assert!(decode_bytes(&evil).is_err(), "sum of IDATs beyond IHDR budget must be rejected");
}

#[test]
fn test_decode_adversarial_duplicate_ihdr_budget_bypass() {
    let piece = vec![0u8; 800 * 1024];
    let compressed = zstd::encode_all(piece.as_slice(), 3).unwrap();
    let mut chunks: Vec<([u8; 4], u8, Vec<u8>)> =
        vec![(CHUNK_IHDR, FLAG_RAW, ihdr(4, 4, 8, COLOR_TYPE_RGBA, FILTER_METHOD_NONE, INTERLACE_NONE))];
    for _ in 0..10 {
        chunks.push((CHUNK_IDAT, FLAG_ZSTD, compressed.clone()));
    }
    let evil = file_with(&ihdr(20_000, 20_000, 8, COLOR_TYPE_RGBA, FILTER_METHOD_NONE, INTERLACE_NONE), &chunks);
    assert!(decode_bytes(&evil).is_err(), "duplicate IHDR (budget-bypass attempt) must be rejected");
}

#[test]
fn test_decode_adversarial_indexed_without_plte() {
    let evil = file_with(
        &ihdr(2, 2, 8, COLOR_TYPE_INDEXED, FILTER_METHOD_NONE, INTERLACE_NONE),
        &[(CHUNK_IDAT, FLAG_RAW, vec![0u8, 1, 2, 3])],
    );
    assert!(decode_bytes(&evil).is_err(), "INDEXED without PLTE must be rejected");
}

#[test]
fn test_decode_adversarial_plte_excessive_entries() {
    let mut plte_payload = Vec::new();
    plte_payload.push(0u8);
    for i in 0..300u32 {
        plte_payload.push((i % 256) as u8);
        plte_payload.push((i % 256) as u8);
        plte_payload.push((i % 256) as u8);
    }
    let evil = file_with(
        &ihdr(2, 2, 8, COLOR_TYPE_INDEXED, FILTER_METHOD_NONE, INTERLACE_NONE),
        &[(CHUNK_PLTE, FLAG_RAW, plte_payload)],
    );
    match decode_bytes(&evil) {
        Ok(_) => panic!("PLTE with 300 entries must be rejected"),
        Err(e) => {
            let msg = format!("{e:?}");
            assert!(msg.contains("PLTE") && msg.contains("300"), "expected PLTE entry-count-limit error, got: {msg}");
        }
    }
}

#[test]
fn test_decode_adversarial_byte_shuffle_bad_size() {
    let evil = file_with(
        &ihdr(4, 2, 8, COLOR_TYPE_RGBA, FILTER_METHOD_BYTE_SHUFFLE, INTERLACE_NONE),
        &[(CHUNK_IDAT, FLAG_RAW, vec![0u8; 10])],
    );
    assert!(decode_bytes(&evil).is_err(), "byte-shuffle with inconsistent size must be rejected");
}

#[test]
fn test_decode_adversarial_byte_shuffle_invalid_bpp() {
    let evil = file_with(
        &ihdr(4, 2, 8, COLOR_TYPE_RGB, FILTER_METHOD_BYTE_SHUFFLE, INTERLACE_NONE),
        &[(CHUNK_IDAT, FLAG_RAW, vec![0u8; 24])],
    );
    assert!(decode_bytes(&evil).is_err(), "byte-shuffle with invalid bpp must be rejected");
}

#[test]
fn test_decode_adversarial_byte_shuffle_with_interlace() {
    let evil = file_with(
        &ihdr(4, 4, 8, COLOR_TYPE_RGBA, FILTER_METHOD_BYTE_SHUFFLE, INTERLACE_ADAM7),
        &[(CHUNK_IDAT, FLAG_RAW, vec![0u8; 16])],
    );
    assert!(decode_bytes(&evil).is_err(), "byte-shuffle + interlace must be rejected");
}

#[test]
fn test_compute_decompress_budget_values() {
    assert_eq!(compute_decompress_budget(INTERLACE_NONE, COLOR_TYPE_RGBA, 4, 4, 16), 68);
    assert_eq!(compute_decompress_budget(INTERLACE_NONE, COLOR_TYPE_INDEXED, 4, 4, 2), 20);
    assert_eq!(compute_decompress_budget(INTERLACE_ADAM7, COLOR_TYPE_RGBA, 4, 4, 16), 71);
    assert_eq!(compute_decompress_budget(INTERLACE_EVEN_ODD, COLOR_TYPE_RGBA, 4, 4, 16), 68);
}

#[test]
fn test_decode_adversarial_idim_with_indexed_color_type() {
    // a whole-file decode of indexed pixels tiled in 2D is refused
    let mut plte = vec![0u8];
    plte.extend_from_slice(&[255, 0, 0]);
    plte.extend_from_slice(&[0, 255, 0]);
    let evil = file_with(
        &ihdr(8, 8, 8, COLOR_TYPE_INDEXED, FILTER_METHOD_NONE, INTERLACE_NONE),
        &[(CHUNK_IDIM, FLAG_RAW, idim_payload(4, 4, 2, 2, 0)), (CHUNK_PLTE, FLAG_RAW, plte), (CHUNK_IDAT, FLAG_RAW, vec![0u8; 16])],
    );
    assert!(decode_bytes(&evil).is_err());
}

// --- palettes -----------------------------------------------------------------

#[test]
fn test_plte_palette_creation() {
    let mut palette = Palette::new(true);
    palette.entries.push(entry(255, 0, 0, 255));
    palette.entries.push(entry(0, 255, 0, 255));
    palette.entries.push(entry(0, 0, 255, 255));
    assert_eq!(palette.entries.len(), 3);
    assert_eq!(palette.bit_depth(), 2);
}

#[test]
fn test_plte_bit_depth_calculation() {
    let mut palette = Palette::new(false);
    palette.entries.push(entry(0, 0, 0, 0xFF));
    assert_eq!(palette.bit_depth(), 1);
    palette.entries.push(entry(255, 255, 255, 0xFF));
    assert_eq!(palette.bit_depth(), 1);
    palette.entries.push(entry(128, 128, 128, 0xFF));
    assert_eq!(palette.bit_depth(), 2);
    for i in 0..13 {
        palette.entries.push(entry(i as u8, i as u8, i as u8, 0xFF));
    }
    assert_eq!(palette.bit_depth(), 4);
    for i in 0..240 {
        palette.entries.push(entry(i as u8, (i * 2) as u8, (i * 3) as u8, 0xFF));
        if palette.entries.len() >= 256 {
            break;
        }
    }
    assert_eq!(palette.bit_depth(), 8);
}

#[test]
fn test_palette_find_closest() {
    let mut palette = Palette::new(true);
    palette.entries.push(entry(0, 0, 0, 255));
    palette.entries.push(entry(255, 0, 0, 255));
    palette.entries.push(entry(0, 255, 0, 255));
    let closest = palette.find_closest(&entry(255, 5, 5, 255));
    assert_eq!(closest, 1);
}

#[test]
fn test_quantize_palette() {
    let mut rgba = Vec::new();
    for _ in 0..100 {
        rgba.extend_from_slice(&[255, 0, 0, 255]);
    }
    for _ in 0..100 {
        rgba.extend_from_slice(&[0, 255, 0, 255]);
    }
    let (indices, palette) = quantize_to_palette(&rgba, 100, 256, PaletteAlgorithm::NearestNeighbor);
    assert!(palette.entries.len() <= 256);
    assert_eq!(indices.len(), 200);
}

#[test]
fn test_quantize_palette_weighted() {
    let mut rgba = Vec::new();
    for _ in 0..100 {
        rgba.extend_from_slice(&[255, 0, 0, 255]);
    }
    for _ in 0..100 {
        rgba.extend_from_slice(&[0, 255, 0, 255]);
    }
    let (indices, palette) = quantize_to_palette(&rgba, 100, 256, PaletteAlgorithm::NearestNeighborWeighted);
    assert_eq!(palette.entries.len(), 2);
    assert_eq!(indices.len(), 200);
    assert!(indices[0..100].iter().all(|&i| i == indices[0]));
    assert!(indices[100..200].iter().all(|&i| i == indices[100]));
    assert_ne!(indices[0], indices[100]);
}

#[test]
fn test_quantize_weighted_prefers_perceptually_closer_palette_entry() {
    let candidate = entry(0, 0, 255, 255);
    let entry_a = entry(255, 0, 0, 255);
    let entry_b = entry(128, 128, 128, 255);
    assert!(candidate.redmean_distance(&entry_b) < candidate.redmean_distance(&entry_a));
    assert!(candidate.distance_squared(&entry_b) < candidate.distance_squared(&entry_a));
    let mut rgba = Vec::new();
    rgba.extend_from_slice(&entry_a.to_rgba());
    rgba.extend_from_slice(&entry_b.to_rgba());
    rgba.extend_from_slice(&candidate.to_rgba());
    let (indices, palette) = quantize_to_palette(&rgba, 3, 256, PaletteAlgorithm::NearestNeighborWeighted);
    assert_eq!(palette.entries.len(), 3);
    assert_eq!(indices.len(), 3);
    assert_eq!(indices[0], 0);
    assert_eq!(indices[1], 1);
    assert_eq!(indices[2], 2);
}

#[test]
fn test_dequantize_roundtrip() {
    let mut palette = Palette::new(true);
    palette.entries.push(entry(255, 0, 0, 255));
    palette.entries.push(entry(0, 255, 0, 255));
    let indices = vec![0, 1, 0, 1, 0];
    let rgba = dequantize_from_palette(&indices, &palette, 5, 1);
    assert_eq!(rgba.len(), 20);
    assert_eq!(&rgba[0..4], &[255, 0, 0, 255]);
    assert_eq!(&rgba[4..8], &[0, 255, 0, 255]);
}

#[test]
fn test_dequantize_out_of_range_is_opaque_black() {
    let mut palette = Palette::new(true);
    palette.entries.push(entry(1, 2, 3, 4));
    assert_eq!(dequantize_from_palette(&[0, 7], &palette, 2, 1), vec![1, 2, 3, 4, 0, 0, 0, 255]);
}

#[test]
fn test_write_plte_chunk() {
    let mut palette = Palette::new(true);
    palette.entries.push(entry(255, 0, 0, 255));
    palette.entries.push(entry(0, 255, 0, 255));
    let chunk = write_plte_chunk(&palette, 19).unwrap();
    assert!(chunk.len() > 10);
    assert_eq!(&chunk[4..8], b"PLTE");
    assert_eq!(chunk[8], FLAG_RAW);
}

#[test]
fn test_plte_compressed_roundtrip() {
    let mut palette = Palette::new(true);
    palette.entries.push(entry(255, 0, 0, 128));
    palette.entries.push(entry(0, 255, 0, 255));
    palette.entries.push(entry(0, 0, 255, 255));
    let mut payload = Vec::new();
    payload.push(1u8);
    for e in &palette.entries {
        payload.extend_from_slice(&[e.r, e.g, e.b, e.a]);
    }
    let compressed = zstd::encode_all(payload.as_slice(), 19).unwrap();
    let decoded = read_plte_chunk(FLAG_ZSTD, &compressed).unwrap();
    assert_eq!(decoded.entries.len(), 3);
    assert_eq!(decoded.entries[0], palette.entries[0]);
    assert_eq!(decoded.entries[2].a, 255);
}

#[test]
fn test_plte_write_read_without_alpha() {
    let mut palette = Palette::new(false);
    palette.entries.push(entry(9, 8, 7, 6));
    let chunk = write_plte_chunk(&palette, 3).unwrap();
    let len = u32::from_be_bytes([chunk[0], chunk[1], chunk[2], chunk[3]]) as usize;
    let back = read_plte_chunk(chunk[8], &chunk[9..9 + len]).unwrap();
    assert_eq!(back.entries, vec![entry(9, 8, 7, 255)]);
    assert!(!back.has_alpha);
}

// --- iDIM and Z-order ------------------------------------------------------------

#[test]
fn test_idim_creation() {
    let idim = iDim::new(128, 128, 512, 512, 0);
    assert_eq!(idim.tile_width, 128);
    assert_eq!(idim.tile_height, 128);
    assert_eq!(idim.tiles_x, 4);
    assert_eq!(idim.tiles_y, 4);
    assert_eq!(idim.scan_order, 0);
}

#[test]
fn test_idim_tile_dimensions() {
    let idim = iDim::new(128, 128, 500, 500, 0);
    assert_eq!(idim.tile_dimensions(0, 0, 500, 500), (128, 128));
    assert_eq!(idim.tile_dimensions(3, 3, 500, 500), (116, 116));
}

#[test]
fn test_idim_tile_order_row_major() {
    let idim = iDim::new(64, 64, 256, 256, 0);
    let order = idim.tile_order().expect("valid scan_order");
    assert_eq!(order.len(), 16);
    assert_eq!(order[0], (0, 0));
    assert_eq!(order[1], (1, 0));
    assert_eq!(order[2], (2, 0));
    assert_eq!(order[3], (3, 0));
    assert_eq!(order[4], (0, 1));
    assert_eq!(order[15], (3, 3));
}

#[test]
fn test_write_idim_chunk() {
    let idim = iDim { tile_width: 128, tile_height: 128, tiles_x: 4, tiles_y: 4, scan_order: 0 };
    let chunk = write_idim_chunk(&idim).expect("Failed to write iDIM");
    assert!(chunk.len() >= 21);
    assert_eq!(&chunk[4..8], b"iDIM");
}

#[test]
fn test_read_idim_chunk() {
    let payload = idim_payload(256, 256, 2, 2, 1);
    let idim_read = read_idim_chunk(FLAG_RAW, &payload).expect("Failed to read iDIM");
    assert_eq!(idim_read.tile_width, 256);
    assert_eq!(idim_read.tile_height, 256);
    assert_eq!(idim_read.tiles_x, 2);
    assert_eq!(idim_read.tiles_y, 2);
    assert_eq!(idim_read.scan_order, 1);
}

#[test]
fn test_read_idim_chunk_invalid_scan_order() {
    let payload = idim_payload(128, 128, 2, 2, 99);
    assert!(read_idim_chunk(FLAG_RAW, &payload).is_err());
}

#[test]
fn test_read_idim_chunk_too_short() {
    let payload = vec![0u8; 8];
    assert!(read_idim_chunk(FLAG_RAW, &payload).is_err());
}

#[test]
fn test_idim_roundtrip() {
    let idim_orig = iDim::new(64, 64, 512, 480, 0);
    let chunk = write_idim_chunk(&idim_orig).expect("failed to write");
    let flag = chunk[8];
    let data_len = u32::from_be_bytes([chunk[0], chunk[1], chunk[2], chunk[3]]) as usize;
    let data = &chunk[9..9 + data_len];
    let idim_read = read_idim_chunk(flag, data).expect("failed to read");
    assert_eq!(idim_read, idim_orig);
}

#[test]
fn test_morton_code_basic() {
    assert_eq!(morton_code(0, 0), 0);
    assert_eq!(morton_code(1, 0), 1);
    assert_eq!(morton_code(0, 1), 2);
    assert_eq!(morton_code(1, 1), 3);
}

#[test]
fn test_morton_code_2x2_grid() {
    let mut codes = Vec::new();
    for y in 0..2 {
        for x in 0..2 {
            codes.push(morton_code(x as u32, y as u32));
        }
    }
    assert_eq!(codes, vec![0, 1, 2, 3]);
}

#[test]
fn test_morton_code_4x4_grid() {
    let mut grid = vec![vec![0u64; 4]; 4];
    for y in 0..4 {
        for x in 0..4 {
            grid[y as usize][x as usize] = morton_code(x as u32, y as u32);
        }
    }
    assert_eq!(grid[0][0], 0);
    assert_eq!(grid[0][1], 1);
    assert_eq!(grid[1][0], 2);
    assert_eq!(grid[1][1], 3);
    assert_eq!(grid[0][2], 4);
    assert_eq!(grid[0][3], 5);
}

#[test]
fn test_morton_decode_basic() {
    assert_eq!(morton_decode(0), (0, 0));
    assert_eq!(morton_decode(1), (1, 0));
    assert_eq!(morton_decode(2), (0, 1));
    assert_eq!(morton_decode(3), (1, 1));
}

#[test]
fn test_morton_roundtrip() {
    for x in 0..16u16 {
        for y in 0..16u16 {
            let code = morton_code(x as u32, y as u32);
            let (x_dec, y_dec) = morton_decode(code);
            assert_eq!((x_dec as u16, y_dec as u16), (x, y), "Roundtrip failed for ({}, {})", x, y);
        }
    }
    assert_eq!(morton_decode(morton_code(u32::MAX, 12345)), (u32::MAX, 12345));
}

#[test]
fn test_idim_tile_order_zorder() {
    let idim = iDim::new(64, 64, 256, 256, 1);
    let order = idim.tile_order().expect("valid scan_order");
    assert_eq!(order.len(), 16);
    assert_eq!(order[0], (0, 0));
    assert_eq!(order[1], (1, 0));
    assert_eq!(order[2], (0, 1));
    assert_eq!(order[3], (1, 1));
}

#[test]
fn test_idim_tile_order_row_major_vs_zorder() {
    let order_row = iDim::new(64, 64, 256, 256, 0).tile_order().expect("valid scan_order");
    let order_z = iDim::new(64, 64, 256, 256, 1).tile_order().expect("valid scan_order");
    assert_eq!(order_row.len(), 16);
    assert_eq!(order_z.len(), 16);
    let mut row_set = order_row.to_vec();
    let mut z_set = order_z.to_vec();
    row_set.sort();
    z_set.sort();
    assert_eq!(row_set, z_set);
    assert_eq!(order_row[0..4], [(0, 0), (1, 0), (2, 0), (3, 0)]);
    assert_eq!(order_z[0..4], [(0, 0), (1, 0), (0, 1), (1, 1)]);
}

#[test]
fn test_idim_tile_order_zorder_non_square_grid() {
    // a 3 x 2 grid in Z order: every tile exactly once, in Morton order
    let order = iDim::new(10, 10, 30, 20, 1).tile_order().unwrap();
    assert_eq!(order, vec![(0, 0), (1, 0), (0, 1), (1, 1), (2, 0), (2, 1)]);
}

#[test]
fn test_idim_tile_order_invalid_scan_order() {
    let mut idim = iDim::new(64, 64, 256, 256, 0);
    idim.scan_order = 2;
    let result = idim.tile_order();
    assert!(result.is_err(), "Expected error for invalid scan_order=2");
    if let Err(e) = result {
        assert!(format!("{e:?}").contains("Unknown scan order"));
    }
}

#[test]
fn test_morton_code_properties() {
    let mut prev_code = 0u64;
    for y in 0..8 {
        for x in 0..8 {
            let code = morton_code(x as u32, y as u32);
            assert!(code >= prev_code || (x == 0 && y > 0), "Non-monotonic code at ({}, {}): {}", x, y, code);
            prev_code = code;
        }
    }
}

#[test]
fn test_idim_morton_code() {
    assert_eq!(morton_code(0, 0), 0);
    let code2 = morton_code(1, 0);
    assert!(code2 > 0);
    let code3 = morton_code(0, 1);
    assert!(code3 > 0);
    assert_ne!(code2, code3);
}

#[test]
fn test_idim_tile_coverage() {
    let idim = iDim { tile_width: 256, tile_height: 256, tiles_x: 2, tiles_y: 2, scan_order: 0 };
    let mut total_width = 0u32;
    let mut total_height = 0u32;
    for ty in 0..idim.tiles_y {
        for tx in 0..idim.tiles_x {
            let (w, h) = idim.tile_dimensions(tx, ty, 512, 512);
            if ty == 0 {
                total_width += w;
            }
            if tx == 0 {
                total_height += h;
            }
        }
    }
    assert_eq!(total_width, 512);
    assert_eq!(total_height, 512);
}

// --- Adam7 and even/odd ---------------------------------------------------------

fn pattern(width: u32, height: u32) -> Vec<u8> {
    let mut raw = vec![0u8; (width * height * 4) as usize];
    for (i, cell) in raw.iter_mut().enumerate() {
        *cell = (i as u8).wrapping_mul(7).wrapping_add(31);
    }
    raw
}

#[test]
fn test_adam7_passes_constant() {
    let passes: Vec<(u32, u32, u32, u32)> = (0..ADAM7_NUM_PASSES).map(adam7_pass_params).collect();
    assert_eq!(passes.len(), 7);
    assert_eq!(passes[0], (8, 8, 0, 0));
    assert_eq!(passes[1], (8, 8, 4, 0));
    assert_eq!(passes[6], (1, 1, 0, 0));
}

#[test]
fn test_adam7_pass_dimensions() {
    assert_eq!(adam7_pass_dimensions(16, 16, 0), (2, 2));
    assert_eq!(adam7_pass_dimensions(16, 16, 6), (16, 16));
}

#[test]
fn test_extract_adam7_pass_pass1() {
    let mut raw = vec![0u8; 8 * 8 * 4];
    raw[0] = 255;
    raw[16] = 128;
    let pass = extract_adam7_pass(&raw, 8, 8, 0);
    assert_eq!(pass.len(), 4);
    assert_eq!(pass[0], 255);
}

#[test]
fn test_extract_adam7_all_passes() {
    let raw = pattern(256, 256);
    for i in 0..7 {
        let pass_data = extract_adam7_pass(&raw, 256, 256, i);
        assert!(!pass_data.is_empty(), "Pass {} must not be empty", i);
        assert_eq!(pass_data.len() % 4, 0, "Pass {} must have integer number of pixels", i);
    }
}

#[test]
fn test_reconstruct_adam7_simple() {
    let (width, height) = (8u32, 8u32);
    let mut original = vec![0u8; (width * height * 4) as usize];
    for y in 0..height {
        for x in 0..width {
            let idx = ((y * width + x) * 4) as usize;
            original[idx] = (x * 16) as u8;
            original[idx + 1] = (y * 16) as u8;
            original[idx + 2] = 0;
            original[idx + 3] = 255;
        }
    }
    let mut passes: [Vec<u8>; ADAM7_NUM_PASSES] = Default::default();
    for (i, out) in passes.iter_mut().enumerate() {
        *out = extract_adam7_pass(&original, width, height, i);
    }
    let reconstructed = reconstruct_adam7(&passes, width, height).unwrap();
    assert_eq!(reconstructed.len(), original.len());
    assert_eq!(reconstructed, original, "Adam7 roundtrip was not bit-perfect");
}

#[test]
fn test_adam7_roundtrip_large() {
    let original = pattern(256, 256);
    let mut passes: [Vec<u8>; ADAM7_NUM_PASSES] = Default::default();
    for (p, out) in passes.iter_mut().enumerate() {
        *out = extract_adam7_pass(&original, 256, 256, p);
    }
    let reconstructed = reconstruct_adam7(&passes, 256, 256).unwrap();
    assert_eq!(reconstructed, original, "Adam7 roundtrip failed on 256x256 image");
}

#[test]
fn test_adam7_pass_coverage_progressive() {
    let (width, height) = (64u32, 64u32);
    let mut covered = vec![false; (width * height) as usize];
    for p in 0..ADAM7_NUM_PASSES {
        let (x_step, y_step, x_offset, y_offset) = adam7_pass_params(p);
        let mut y = y_offset;
        while y < height {
            let mut x = x_offset;
            while x < width {
                covered[(y * width + x) as usize] = true;
                x += x_step;
            }
            y += y_step;
        }
    }
    for (idx, &c) in covered.iter().enumerate() {
        assert!(c, "Pixel {} was not covered by any pass", idx);
    }
}

#[test]
fn test_adam7_interlace_constant() {
    assert_eq!(INTERLACE_ADAM7, 1);
    assert_eq!(INTERLACE_EVEN_ODD, 2);
    assert_eq!(ADAM7_NUM_PASSES, 7);
}

#[test]
fn test_adam7_pass_dimensions_all_passes() {
    for pass in 0..ADAM7_NUM_PASSES {
        let params = adam7_pass_params(pass);
        let (w, h) = adam7_pass_dimensions(256, 256, pass);
        if 256 > params.2 {
            assert!(w > 0, "Pass {} must have positive width", pass);
        }
        if 256 > params.3 {
            assert!(h > 0, "Pass {} must have positive height", pass);
        }
    }
}

#[test]
fn test_adam7_each_pass_extracts_data() {
    let raw = vec![42u8; 128 * 128 * 4];
    let mut total_pixels = 0u32;
    for pass in 0..7 {
        let pass_data = extract_adam7_pass(&raw, 128, 128, pass);
        assert!(!pass_data.is_empty(), "Pass {} must not be empty", pass);
        total_pixels += pass_data.len() as u32 / 4;
    }
    assert_eq!(total_pixels, 128 * 128, "Total extracted pixels does not match image size");
}

#[test]
fn test_encoder_adam7_option() {
    let mut opts = EncodeOptions::default();
    assert_eq!(opts.interlace_method, INTERLACE_NONE);
    opts.interlace_method = INTERLACE_ADAM7;
    assert_eq!(opts.interlace_method, INTERLACE_ADAM7);
}

#[test]
fn test_apply_adam7_interlace() {
    let raw = pattern(16, 16);
    let passes = apply_adam7_interlace(&raw, 16, 16);
    assert_eq!(passes.len(), 7);
    let mut total_pixels = 0u32;
    for (i, pass) in passes.iter().enumerate() {
        assert!(!pass.is_empty(), "Pass {} must not be empty", i);
        assert_eq!(pass.len() % 4, 0, "Pass {} must have multiples of 4 bytes (RGBA)", i);
        total_pixels += pass.len() as u32 / 4;
    }
    assert_eq!(total_pixels, 16 * 16);
}

#[test]
fn test_decoder_supports_adam7() {
    assert_eq!(INTERLACE_ADAM7, 1);
    assert_eq!(INTERLACE_NONE, 0);
}

#[test]
fn test_interlace_method_storage() {
    let mut opts = EncodeOptions::default();
    assert_eq!(opts.interlace_method, INTERLACE_NONE);
    opts.interlace_method = INTERLACE_ADAM7;
    assert_eq!(opts.interlace_method, INTERLACE_ADAM7);
}

fn counting_rgba(width: u32, height: u32) -> Vec<u8> {
    let mut rgba = vec![0u8; (width * height * 4) as usize];
    for i in 0..width * height {
        let idx = (i * 4) as usize;
        rgba[idx] = (i % 256) as u8;
        rgba[idx + 1] = ((i / 256) % 256) as u8;
        rgba[idx + 2] = ((i * 2) % 256) as u8;
        rgba[idx + 3] = 255;
    }
    rgba
}

#[test]
fn test_adam7_extract_reconstruct_roundtrip() {
    let original_rgba = counting_rgba(16, 16);
    let passes = apply_adam7_interlace(&original_rgba, 16, 16);
    let reconstructed = reconstruct_adam7(&passes, 16, 16).unwrap();
    assert_eq!(original_rgba.len(), reconstructed.len(), "Size mismatch");
    for (i, (o, r)) in original_rgba.iter().zip(reconstructed.iter()).enumerate() {
        assert_eq!(o, r, "Byte {} mismatch: {} != {}", i, o, r);
    }
}

#[test]
fn test_extract_reconstruct_pixel_values() {
    let (width, height) = (8u32, 8u32);
    let mut rgba = vec![0u8; (width * height * 4) as usize];
    for i in 0..width * height {
        let idx = (i * 4) as usize;
        rgba[idx] = i as u8;
        rgba[idx + 1] = i as u8;
        rgba[idx + 2] = i as u8;
        rgba[idx + 3] = 255;
    }
    let passes = apply_adam7_interlace(&rgba, width, height);
    let recovered = reconstruct_adam7(&passes, width, height).unwrap();
    for i in 0..width * height {
        let idx = (i * 4) as usize;
        assert_eq!(recovered[idx], i as u8, "Pixel {} R mismatch", i);
        assert_eq!(recovered[idx + 1], i as u8, "Pixel {} G mismatch", i);
        assert_eq!(recovered[idx + 2], i as u8, "Pixel {} B mismatch", i);
        assert_eq!(recovered[idx + 3], 255, "Pixel {} A mismatch", i);
    }
}

#[test]
fn test_extract_adam7_pixel_order() {
    let (width, height) = (8u32, 8u32);
    let mut rgba = vec![0u8; (width * height * 4) as usize];
    for i in 0..width * height {
        let idx = (i * 4) as usize;
        rgba[idx] = i as u8;
        rgba[idx + 1] = i as u8;
        rgba[idx + 2] = i as u8;
        rgba[idx + 3] = 255;
    }
    let pass0 = extract_adam7_pass(&rgba, width, height, 0);
    assert!(pass0.len() >= 4);
    assert_eq!(pass0[0], 0, "Pass 0 pixel (0,0) R should be 0");
    assert_eq!(pass0[1], 0, "Pass 0 pixel (0,0) G should be 0");
    assert_eq!(pass0[2], 0, "Pass 0 pixel (0,0) B should be 0");
    let pass1 = extract_adam7_pass(&rgba, width, height, 1);
    assert!(pass1.len() >= 4);
    assert_eq!(pass1[0], 4, "Pass 1 pixel (4,0) R should be 4");
    assert_eq!(pass1[1], 4, "Pass 1 pixel (4,0) G should be 4");
    assert_eq!(pass1[2], 4, "Pass 1 pixel (4,0) B should be 4");
}

#[test]
fn test_encoder_adam7_output() {
    let (width, height) = (16u32, 16u32);
    let mut rgba = vec![0u8; (width * height * 4) as usize];
    for i in 0..width * height {
        let idx = (i * 4) as usize;
        rgba[idx] = (i % 256) as u8;
        rgba[idx + 1] = (i / 16) as u8;
        rgba[idx + 2] = 100;
        rgba[idx + 3] = 255;
    }
    let (indices, palette) = quantize_to_palette(&rgba, width, 256, PaletteAlgorithm::NearestNeighbor);
    let rgba_from_indices: Vec<u8> = indices
        .iter()
        .flat_map(|&idx| {
            let e = &palette.entries[idx as usize];
            vec![e.r, e.g, e.b, e.a]
        })
        .collect();
    let passes = apply_adam7_interlace(&rgba_from_indices, width, height);
    let reconstructed = reconstruct_adam7(&passes, width, height).unwrap();
    let mismatches = rgba_from_indices.iter().zip(reconstructed.iter()).filter(|(o, r)| o != r).count();
    assert_eq!(mismatches, 0, "Encoder Adam7 output is corrupt");
}

#[test]
fn test_adam7_encode_decode_flow() {
    let rgba = counting_rgba(16, 16);
    let passes = apply_adam7_interlace(&rgba, 16, 16);
    let mut passes_with_flags = vec![];
    for pass_data in passes.iter() {
        let mut payload = vec![0u8];
        payload.extend_from_slice(pass_data);
        passes_with_flags.push(compress_with_fallback(&payload, 10).expect("failed to compress"));
    }
    let mut decompressed_passes: [Vec<u8>; 7] = Default::default();
    for (idx, (flag, compressed)) in passes_with_flags.iter().enumerate() {
        let decompressed = decompress_chunk(*flag, compressed).expect("failed to decompress");
        decompressed_passes[idx] = decompressed[1..].to_vec();
    }
    let reconstructed = reconstruct_adam7(&decompressed_passes, 16, 16).unwrap();
    assert_eq!(rgba, reconstructed, "Adam7 encode-decode failed");
}

#[test]
fn test_zstd_with_pass_number() {
    let pass_number = 5u8;
    let original_data = vec![1, 2, 3, 4, 5, 255, 254, 253];
    let mut payload = vec![pass_number];
    payload.extend_from_slice(&original_data);
    let (flag, compressed) = compress_with_fallback(&payload, 10).expect("compress failed");
    let decompressed = decompress_chunk(flag, &compressed).expect("decompress failed");
    assert_eq!(decompressed[0], pass_number, "Pass number mismatch");
    assert_eq!(&decompressed[1..], &original_data[..], "Data mismatch after compression roundtrip");
}

#[test]
fn test_quantize_dequantize_roundtrip() {
    let (width, height) = (16u32, 16u32);
    let mut rgba = vec![0u8; (width * height * 4) as usize];
    for i in 0..width * height {
        let idx = (i * 4) as usize;
        rgba[idx] = (i % 256) as u8;
        rgba[idx + 1] = ((i * 2) % 256) as u8;
        rgba[idx + 2] = ((i * 3) % 256) as u8;
        rgba[idx + 3] = 255;
    }
    let (indices, palette) = quantize_to_palette(&rgba, width, 256, PaletteAlgorithm::NearestNeighbor);
    let recovered = dequantize_from_palette(&indices, &palette, width, height);
    let mismatches = rgba.iter().zip(recovered.iter()).filter(|(o, r)| o != r).count();
    assert_eq!(mismatches, 0, "quantize-dequantize failed");
}

#[test]
fn test_even_odd_extract_reconstruct() {
    let rgba = counting_rgba(16, 16);
    let passes = apply_even_odd_interlace(&rgba, 16, 16);
    let reconstructed = reconstruct_even_odd(&passes, 16, 16).unwrap();
    assert_eq!(rgba, reconstructed, "even/odd roundtrip failed");
}

#[test]
fn test_encode_indexed_rejects_idim() {
    let (width, height) = (32u32, 32u32);
    let mut img_data = vec![0u8; (width * height * 4) as usize];
    let colors = [[255u8, 0, 0, 255], [0, 255, 0, 255]];
    for y in 0..height {
        for x in 0..width {
            let idx = ((y * width + x) * 4) as usize;
            let c = colors[((x + y) as usize) % colors.len()];
            img_data[idx..idx + 4].copy_from_slice(&c);
        }
    }
    let mut opts = EncodeOptions::default();
    opts.use_filter = true;
    opts.level = 5;
    opts.idim = Some(iDim::new(16, 16, width, height, 0));
    let result = encode_indexed(&img_data, width, height, &opts);
    assert!(result.is_err(), "encode_indexed must reject iDIM combined with indexed palette");
}

// --- samples and rows -------------------------------------------------------------

#[test]
fn test_bytes_per_row_for_bit_depth_1bit() {
    assert_eq!(bytes_per_row_for_bit_depth(16, 1), Ok(2));
}

#[test]
fn test_bytes_per_row_for_bit_depth_2bit() {
    assert_eq!(bytes_per_row_for_bit_depth(16, 2), Ok(4));
}

#[test]
fn test_bytes_per_row_for_bit_depth_4bit() {
    assert_eq!(bytes_per_row_for_bit_depth(16, 4), Ok(8));
}

#[test]
fn test_bytes_per_row_for_bit_depth_overflow() {
    assert_eq!(bytes_per_row_for_bit_depth(u32::MAX, 1), Ok(536870912));
}

#[test]
fn test_reduce_sample_8_to_n_bits() {
    assert_eq!(reduce_sample_8_to_n_bits(100, 1).unwrap(), 0);
    assert_eq!(reduce_sample_8_to_n_bits(128, 1).unwrap(), 1);
    assert_eq!(reduce_sample_8_to_n_bits(255, 1).unwrap(), 1);
    assert_eq!(reduce_sample_8_to_n_bits(0, 2).unwrap(), 0);
    assert_eq!(reduce_sample_8_to_n_bits(63, 2).unwrap(), 0);
    assert_eq!(reduce_sample_8_to_n_bits(64, 2).unwrap(), 1);
    assert_eq!(reduce_sample_8_to_n_bits(192, 2).unwrap(), 3);
    assert_eq!(reduce_sample_8_to_n_bits(255, 2).unwrap(), 3);
    assert_eq!(reduce_sample_8_to_n_bits(0, 4).unwrap(), 0);
    assert_eq!(reduce_sample_8_to_n_bits(15, 4).unwrap(), 0);
    assert_eq!(reduce_sample_8_to_n_bits(16, 4).unwrap(), 1);
    assert_eq!(reduce_sample_8_to_n_bits(255, 4).unwrap(), 15);
    assert_eq!(reduce_sample_8_to_n_bits(100, 8).unwrap(), 100);
}

#[test]
fn test_pack_samples_row_1bit() {
    let packed = pack_samples_row(&[0u8, 1u8], 1, 2, 1).unwrap();
    assert_eq!(packed.len(), 1);
    assert_eq!(packed[0], 0x40);
}

#[test]
fn test_unpack_samples_row_1bit() {
    let unpacked = unpack_samples_row(&[0x40u8], 1, 2, 1).unwrap();
    assert_eq!(unpacked, vec![0, 1]);
}

#[test]
fn test_pack_unpack_samples_roundtrip_4bit() {
    let original = vec![5u8, 15u8, 3u8, 7u8];
    let packed = pack_samples_row(&original, 4, 4, 1).unwrap();
    assert_eq!(unpack_samples_row(&packed, 4, 4, 1).unwrap(), original);
}

#[test]
fn test_pack_samples_row_validates_range() {
    assert!(pack_samples_row(&[5u8, 16u8], 4, 2, 1).is_err());
}

#[test]
fn test_unpack_samples_row_validates_buffer() {
    assert!(unpack_samples_row(&[0xFFu8], 4, 10, 1).is_err());
}

#[test]
fn test_pack_unpack_ga_channel_4bit() {
    let original = vec![5, 15, 3, 7];
    let packed = pack_samples_row(&original, 4, 2, 2).unwrap();
    assert_eq!(unpack_samples_row(&packed, 4, 2, 2).unwrap(), original);
}

#[test]
fn test_convert_rgba_to_grayscale_8bit() {
    let gray = convert_rgba_to_color_type(&[255, 0, 0, 255], 1, 1, COLOR_TYPE_GRAY, 8).unwrap();
    assert_eq!(gray.len(), 1);
    assert!(gray[0] > 70 && gray[0] < 85);
    // the luma (299 R + 587 G + 114 B) / 1000
    assert_eq!(gray[0], 76);
}

#[test]
fn test_convert_color_type_to_rgba_gray_8bit() {
    let rgba = convert_color_type_to_rgba(&[128u8], 1, 1, COLOR_TYPE_GRAY, 8).unwrap();
    assert_eq!(rgba, vec![128, 128, 128, 0xFF]);
}

#[test]
fn test_convert_color_type_to_rgba_rejects_short_buffers() {
    // 2x1 RGB needs 6 bytes; RGBA 2x2 needs 16; gray 3x1 needs 3.
    assert!(matches!(convert_color_type_to_rgba(&[1, 2, 3], 2, 1, COLOR_TYPE_RGB, 8), Err(CafeError::TruncatedFile(..))));
    assert!(matches!(convert_color_type_to_rgba(&[0u8; 15], 2, 2, COLOR_TYPE_RGBA, 8), Err(CafeError::TruncatedFile(..))));
    assert!(matches!(convert_color_type_to_rgba(&[7, 8], 3, 1, COLOR_TYPE_GRAY, 8), Err(CafeError::TruncatedFile(..))));
    assert_eq!(
        convert_color_type_to_rgba(&[1, 2, 3, 4, 5, 6], 2, 1, COLOR_TYPE_RGB, 8).unwrap(),
        vec![1, 2, 3, 255, 4, 5, 6, 255]
    );
}

#[test]
fn test_read_u16_be() {
    let buf = vec![0x12, 0x34, 0x56, 0x78];
    assert_eq!(read_u16_be(&buf, 0).unwrap(), 0x1234);
    assert_eq!(read_u16_be(&buf, 2).unwrap(), 0x5678);
}

#[test]
fn test_read_u16_be_underflow() {
    assert!(read_u16_be(&[0x12, 0x34], 1).is_err());
}

#[test]
fn test_read_u32_be() {
    let buf = vec![0x12, 0x34, 0x56, 0x78, 0x9A, 0xBC, 0xDE, 0xF0];
    assert_eq!(read_u32_be(&buf, 0).unwrap(), 0x12345678);
    assert_eq!(read_u32_be(&buf, 4).unwrap(), 0x9ABCDEF0);
}

#[test]
fn test_expand_sample_8_to_16bit() {
    assert_eq!(expand_sample_8_to_n_bits(255, 10).unwrap(), 1023);
    assert_eq!(expand_sample_8_to_n_bits(0, 10).unwrap(), 0);
    assert_eq!(expand_sample_8_to_n_bits(255, 12).unwrap(), 4095);
    assert_eq!(expand_sample_8_to_n_bits(255, 16).unwrap(), 65535);
}

#[test]
fn test_expand_sample_8_to_32bit() {
    assert_eq!(expand_sample_8_to_32bit(255), 0xFFFFFFFFu32);
    assert_eq!(expand_sample_8_to_32bit(0), 0);
}

#[test]
fn test_compress_sample_n_to_8bits() {
    assert_eq!(compress_sample_n_to_8bits(1023, 10).unwrap(), 255);
    assert_eq!(compress_sample_n_to_8bits(0, 10).unwrap(), 0);
    assert_eq!(compress_sample_n_to_8bits(65535, 16).unwrap(), 255);
}

#[test]
fn test_compress_sample_32bit_to_8() {
    assert_eq!(compress_sample_32bit_to_8(0xFFFFFFFFu32), 255);
    assert_eq!(compress_sample_32bit_to_8(0), 0);
}

#[test]
fn test_convert_rgba_to_grayscale_16bit() {
    let gray_16 = convert_rgba_to_color_type(&[255, 0, 0, 255], 1, 1, COLOR_TYPE_GRAY, 16).unwrap();
    assert_eq!(gray_16.len(), 2);
}

#[test]
fn test_convert_rgba_to_rgb_16bit() {
    let rgb_16 = convert_rgba_to_color_type(&[255, 128, 64, 255], 1, 1, COLOR_TYPE_RGB, 16).unwrap();
    assert_eq!(rgb_16.len(), 6);
}

#[test]
fn test_convert_rgba_to_color_type_16bit_bit_exact_all_types() {
    let rgba: Vec<u8> = vec![0, 0, 0, 0, 255, 255, 255, 255, 255, 0, 128, 64, 17, 200, 3, 250];
    for &(color_type, channels) in &[(COLOR_TYPE_GRAY, 1usize), (COLOR_TYPE_RGB, 3usize), (COLOR_TYPE_GRAY_ALPHA, 2usize), (COLOR_TYPE_RGBA, 4usize)] {
        let out = convert_rgba_to_color_type(&rgba, 4, 1, color_type, 16).unwrap();
        assert_eq!(out.len(), 4 * channels * 2, "unexpected length for color_type {color_type}");
        for chunk in out.chunks_exact(2) {
            assert_eq!(chunk[0], chunk[1], "16-bit sample {:?} is not byte-replicated for color_type {color_type}", chunk);
        }
    }
}

#[test]
fn test_convert_color_type_16bit_roundtrip_all_types() {
    let (width, height) = (37u32, 3u32);
    let n = (width * height) as usize;
    let rgba: Vec<u8> = (0..n * 4).map(|i| ((i * 53) % 256) as u8).collect();
    for &color_type in &[COLOR_TYPE_GRAY, COLOR_TYPE_RGB, COLOR_TYPE_GRAY_ALPHA, COLOR_TYPE_RGBA] {
        let encoded = convert_rgba_to_color_type(&rgba, width, height, color_type, 16).unwrap();
        let decoded = convert_color_type_to_rgba(&encoded, width, height, color_type, 16).unwrap();
        match color_type {
            COLOR_TYPE_RGBA => assert_eq!(decoded, rgba, "RGBA 16-bit roundtrip mismatch"),
            COLOR_TYPE_GRAY => {
                assert_eq!(decoded.len(), n * 4);
                for px in decoded.chunks_exact(4) {
                    assert_eq!(px[0], px[1]);
                    assert_eq!(px[1], px[2]);
                    assert_eq!(px[3], 0xFF);
                }
            }
            COLOR_TYPE_RGB => {
                assert_eq!(decoded.len(), n * 4);
                for (orig, dec) in rgba.chunks_exact(4).zip(decoded.chunks_exact(4)) {
                    assert_eq!(dec[0], orig[0]);
                    assert_eq!(dec[1], orig[1]);
                    assert_eq!(dec[2], orig[2]);
                    assert_eq!(dec[3], 0xFF);
                }
            }
            COLOR_TYPE_GRAY_ALPHA => {
                assert_eq!(decoded.len(), n * 4);
                for (orig, dec) in rgba.chunks_exact(4).zip(decoded.chunks_exact(4)) {
                    assert_eq!(dec[0], dec[1]);
                    assert_eq!(dec[1], dec[2]);
                    assert_eq!(dec[3], orig[3]);
                }
            }
            _ => unreachable!(),
        }
    }
}

#[test]
fn test_convert_rgba_to_rgba_32bit() {
    let rgba_32 = convert_rgba_to_color_type(&[255, 128, 64, 192], 1, 1, COLOR_TYPE_RGBA, 32).unwrap();
    assert_eq!(rgba_32.len(), 16);
}

#[test]
fn test_bytes_per_pixel_multi_byte() {
    assert_eq!(bytes_per_pixel(COLOR_TYPE_GRAY, 16), Some(2));
    assert_eq!(bytes_per_pixel(COLOR_TYPE_GRAY, 32), Some(4));
    assert_eq!(bytes_per_pixel(COLOR_TYPE_RGB, 16), Some(6));
    assert_eq!(bytes_per_pixel(COLOR_TYPE_RGB, 32), Some(12));
    assert_eq!(bytes_per_pixel(COLOR_TYPE_RGBA, 16), Some(8));
    assert_eq!(bytes_per_pixel(COLOR_TYPE_RGBA, 32), Some(16));
    assert_eq!(bytes_per_pixel(COLOR_TYPE_GRAY_ALPHA, 16), Some(4));
}

#[test]
fn test_bytes_per_pixel_with_format_float() {
    assert_eq!(bytes_per_pixel_with_format(COLOR_TYPE_GRAY, 32, SAMPLE_FORMAT_FLOAT), Some(4));
    assert_eq!(bytes_per_pixel_with_format(COLOR_TYPE_RGB, 32, SAMPLE_FORMAT_FLOAT), Some(12));
}

#[test]
fn test_bytes_per_pixel_with_format_half() {
    assert_eq!(bytes_per_pixel_with_format(COLOR_TYPE_GRAY, 16, SAMPLE_FORMAT_HALF), Some(2));
    assert_eq!(bytes_per_pixel_with_format(COLOR_TYPE_RGBA, 16, SAMPLE_FORMAT_HALF), Some(8));
}

#[test]
fn test_sample_format_constants() {
    assert_eq!(SAMPLE_FORMAT_UINT, 0);
    assert_eq!(SAMPLE_FORMAT_FLOAT, 1);
    assert_eq!(SAMPLE_FORMAT_HALF, 2);
}

// --- cHDR -------------------------------------------------------------------------

fn default_chdr() -> ChdrFields {
    ChdrFields {
        transfer_function: 3,
        color_primaries: 0,
        max_luminance_bits: 1.0f32.to_bits(),
        min_luminance_bits: 0.0f32.to_bits(),
        max_cll: None,
        max_fall: None,
    }
}

#[test]
fn test_write_chdr_minimal() {
    let data = write_chdr_chunk(&default_chdr(), 19).unwrap();
    assert!(data.len() > 12);
}

#[test]
fn test_write_chdr_with_optional() {
    let mut chdr = default_chdr();
    chdr.max_cll = Some(2000);
    chdr.max_fall = Some(1000);
    assert!(write_chdr_chunk(&chdr, 19).is_ok());
}

#[test]
fn test_read_chdr_minimal_raw() {
    let mut payload = Vec::new();
    payload.push(3);
    payload.push(0);
    payload.extend_from_slice(&(1.0_f32).to_bits().to_be_bytes());
    payload.extend_from_slice(&(0.0_f32).to_bits().to_be_bytes());
    let chdr = read_chdr_chunk(FLAG_RAW, &payload).unwrap();
    assert_eq!(chdr.transfer_function, 3);
    assert_eq!(chdr.color_primaries, 0);
    assert_eq!(f32::from_bits(chdr.max_luminance_bits), 1.0);
    assert_eq!(f32::from_bits(chdr.min_luminance_bits), 0.0);
    assert!(chdr.max_cll.is_none());
}

#[test]
fn test_read_chdr_with_maxcll() {
    let mut payload = Vec::new();
    payload.push(1);
    payload.push(1);
    payload.extend_from_slice(&(10000.0_f32).to_bits().to_be_bytes());
    payload.extend_from_slice(&(0.001_f32).to_bits().to_be_bytes());
    payload.extend_from_slice(&3000u32.to_be_bytes());
    let chdr = read_chdr_chunk(FLAG_RAW, &payload).unwrap();
    assert_eq!(chdr.max_cll, Some(3000));
    assert!(chdr.max_fall.is_none());
}

#[test]
fn test_read_chdr_invalid_size() {
    assert!(read_chdr_chunk(FLAG_RAW, &[0u8; 9]).is_err());
}

#[test]
fn test_read_chdr_maxfall_without_maxcll_invalid() {
    let mut payload = Vec::new();
    payload.push(1);
    payload.push(0);
    payload.extend_from_slice(&(1000.0_f32).to_bits().to_be_bytes());
    payload.extend_from_slice(&(0.0_f32).to_bits().to_be_bytes());
    payload.extend_from_slice(&100u32.to_be_bytes());
    payload.extend_from_slice(&500u32.to_be_bytes());
    assert!(read_chdr_chunk(FLAG_RAW, &payload).is_ok());
}

#[test]
fn test_chdr_write_read_roundtrip() {
    let mut chdr = default_chdr();
    chdr.max_cll = Some(1000);
    chdr.max_fall = Some(400);
    let chunk = write_chdr_chunk(&chdr, 5).unwrap();
    let len = u32::from_be_bytes([chunk[0], chunk[1], chunk[2], chunk[3]]) as usize;
    assert_eq!(read_chdr_chunk(chunk[8], &chunk[9..9 + len]).unwrap(), chdr);
}

// --- misc -------------------------------------------------------------------------

#[test]
fn test_overflow_protection_bytes_per_row_1bit() {
    let bytes = bytes_per_row_for_bit_depth(u32::MAX, 1).unwrap();
    assert!(bytes > 0);
}

#[test]
fn test_overflow_protection_bytes_per_row_4bit() {
    let _ = bytes_per_row_for_bit_depth(1_000_000_000u32, 4);
}

#[test]
fn test_pack_samples_row_boundary_1bit() {
    let packed = pack_samples_row(&[1, 0, 1, 1, 0, 1, 0, 1], 1, 8, 1).unwrap();
    assert_eq!(packed.len(), 1);
}

#[test]
fn test_pack_samples_row_boundary_4bit() {
    let packed = pack_samples_row(&[15, 14], 4, 2, 1).unwrap();
    assert_eq!(packed.len(), 1);
}

#[test]
fn test_unpack_samples_row_boundary() {
    let original = vec![15, 15, 15, 15];
    let packed = pack_samples_row(&original, 4, 4, 1).unwrap();
    assert_eq!(unpack_samples_row(&packed, 4, 4, 1).unwrap(), original);
}

#[test]
fn test_truncation_protection_pack() {
    assert!(pack_samples_row(&[16], 4, 1, 1).is_err());
}

#[test]
fn test_truncation_protection_unpack() {
    assert!(unpack_samples_row(&[0xFFu8], 4, 10, 1).is_err());
}

#[test]
fn test_expand_compress_roundtrip_16bit() {
    for value in [0u8, 1, 127, 128, 254, 255] {
        let expanded = expand_sample_8_to_n_bits(value, 16).unwrap();
        assert_eq!(compress_sample_n_to_8bits(expanded, 16).unwrap(), value);
    }
}

#[test]
fn test_expand_compress_roundtrip_12bit() {
    for value in [0u8, 16, 128, 200, 255] {
        let expanded = expand_sample_8_to_n_bits(value, 12).unwrap();
        let compressed = compress_sample_n_to_8bits(expanded, 12).unwrap();
        let diff = (compressed as i16 - value as i16).abs();
        assert!(diff <= 1, "Value {} lost too much precision", value);
    }
}

#[test]
fn test_color_conversion_rgb_to_gray_preserves_brightness() {
    assert_eq!(convert_rgba_to_color_type(&[255, 255, 255, 255], 1, 1, COLOR_TYPE_GRAY, 8).unwrap()[0], 255);
    assert_eq!(convert_rgba_to_color_type(&[0, 0, 0, 255], 1, 1, COLOR_TYPE_GRAY, 8).unwrap()[0], 0);
}

#[test]
fn test_color_conversion_consistency() {
    let original = vec![100, 150, 200, 255];
    let rgb_data = convert_rgba_to_color_type(&original, 1, 1, COLOR_TYPE_RGB, 8).unwrap();
    let back_to_rgba = convert_color_type_to_rgba(&rgb_data, 1, 1, COLOR_TYPE_RGB, 8).unwrap();
    assert_eq!(back_to_rgba, vec![100, 150, 200, 0xFF]);
}

#[test]
fn test_compression_method_bitmask() {
    assert_eq!(COMPRESSION_METHOD_ZSTD_BIT, 0b0000_0001);
    let compression_method = COMPRESSION_METHOD_ZSTD_BIT;
    assert_eq!(compression_method & 0b0000_0001, 0b0000_0001);
    assert_eq!(compression_method & 0b1111_1110, 0);
}

#[test]
fn test_no_panic_on_empty_image() {
    assert!(bytes_per_pixel_with_format(COLOR_TYPE_GRAY, 8, SAMPLE_FORMAT_UINT).is_some());
}

#[test]
fn test_no_panic_on_invalid_color_type() {
    assert!(bytes_per_pixel(99, 8).is_none());
}

#[test]
fn test_read_u16_be_boundary() {
    let buf = [0x12u8, 0x34];
    assert_eq!(read_u16_be(&buf, 0), Ok(0x1234));
    assert!(read_u16_be(&buf, 1).is_err());
}

#[test]
fn test_read_u32_be_boundary() {
    let buf = [0x12u8, 0x34, 0x56, 0x78];
    assert_eq!(read_u32_be(&buf, 0), Ok(0x12345678));
    assert!(read_u32_be(&buf, 1).is_err());
}

#[test]
fn test_sample_format_uint_default() {
    assert_eq!(SAMPLE_FORMAT_UINT, 0);
}

#[test]
fn test_bit_depth_validation_indexed() {
    assert_eq!(bytes_per_pixel(COLOR_TYPE_INDEXED, 1), Some(1));
    assert_eq!(bytes_per_pixel(COLOR_TYPE_INDEXED, 2), Some(1));
    assert_eq!(bytes_per_pixel(COLOR_TYPE_INDEXED, 4), Some(1));
    assert_eq!(bytes_per_pixel(COLOR_TYPE_INDEXED, 8), Some(1));
    assert_eq!(bytes_per_pixel(COLOR_TYPE_INDEXED, 16), None);
    assert_eq!(bytes_per_pixel(COLOR_TYPE_INDEXED, 32), None);
}

#[test]
fn test_bit_depth_validation_rgb() {
    assert_eq!(bytes_per_pixel(COLOR_TYPE_RGB, 1), None);
    assert_eq!(bytes_per_pixel(COLOR_TYPE_RGB, 2), None);
    assert_eq!(bytes_per_pixel(COLOR_TYPE_RGB, 4), None);
    assert!(bytes_per_pixel(COLOR_TYPE_RGB, 8).is_some());
    assert!(bytes_per_pixel(COLOR_TYPE_RGB, 16).is_some());
    assert!(bytes_per_pixel(COLOR_TYPE_RGB, 32).is_some());
}

#[test]
fn test_color_type_gray_supports_all_bit_depths() {
    for d in [1u8, 2, 4, 8, 10, 12, 16, 32] {
        assert!(bytes_per_pixel(COLOR_TYPE_GRAY, d).is_some());
    }
    assert!(bytes_per_pixel(COLOR_TYPE_GRAY, 3).is_none());
    assert!(bytes_per_pixel(COLOR_TYPE_GRAY, 5).is_none());
    assert!(bytes_per_pixel(COLOR_TYPE_GRAY, 33).is_none());
}

#[test]
fn test_convert_color_type_wide_depths_roundtrip_rgba() {
    let (width, height) = (5u32, 3u32);
    let rgba: Vec<u8> = (0..(width * height * 4) as usize).map(|i| ((i * 97 + 13) % 256) as u8).collect();
    for bd in [8u8, 10, 12, 16, 32] {
        let encoded = convert_rgba_to_color_type(&rgba, width, height, COLOR_TYPE_RGBA, bd).unwrap();
        let decoded = convert_color_type_to_rgba(&encoded, width, height, COLOR_TYPE_RGBA, bd).unwrap();
        assert_eq!(decoded, rgba, "bit depth {bd}");
    }
    for ct in [COLOR_TYPE_GRAY, COLOR_TYPE_RGB, COLOR_TYPE_GRAY_ALPHA] {
        let at8 = convert_color_type_to_rgba(
            &convert_rgba_to_color_type(&rgba, width, height, ct, 8).unwrap(), width, height, ct, 8).unwrap();
        for bd in [10u8, 12, 16, 32] {
            let encoded = convert_rgba_to_color_type(&rgba, width, height, ct, bd).unwrap();
            assert_eq!(convert_color_type_to_rgba(&encoded, width, height, ct, bd).unwrap(), at8, "type {ct} depth {bd}");
        }
    }
}
