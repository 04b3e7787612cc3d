use cafe::ancillary::iDim;
use cafe::chunk::{read_chunk, write_chunk};
use cafe::codec::{compress_with_fallback, compress_with_fallback_dict, decompress_chunk};
use cafe::color::{convert_color_type_to_rgba, convert_rgba_to_color_type};
use cafe::constants::{
    CHUNK_IHDR, CHUNK_JSON, CHUNK_XMPD, COLOR_TYPE_GRAY, COLOR_TYPE_GRAY_ALPHA, COLOR_TYPE_INDEXED, COLOR_TYPE_RGB, COLOR_TYPE_RGBA,
    COMPRESSION_METHOD_ZSTD_BIT, FLAG_RAW, FLAG_ZSTD, INTERLACE_ADAM7, INTERLACE_EVEN_ODD, SAMPLE_FORMAT_FLOAT, SIGNATURE,
};
use cafe::decode::decode_bytes;
use cafe::encode::{encode_raw, train_zstd_dictionary, EncodeOptions};
use cafe::error::CafeError;
use cafe::filter::FilterHeuristic;
use cafe::indexed::{dequantize_from_palette, quantize_to_palette, PaletteAlgorithm};
use cafe::indexed_encode::{encode_indexed, encode_rgba};
use cafe::stream::{Encoder, EncoderOptions};

fn image(w: u32, h: u32) -> Vec<u8> {
    let mut v = Vec::with_capacity((w * h * 4) as usize);
    for y in 0..h {
        for x in 0..w {
            v.extend_from_slice(&[(x * 9 + y) as u8, (y * 5) as u8, (x ^ y) as u8, (200 + x % 50) as u8]);
        }
    }
    v
}

fn few_colors(w: u32, h: u32) -> Vec<u8> {
    let colors = [[255u8, 0, 0, 255], [0, 255, 0, 255], [0, 0, 255, 255], [9, 9, 9, 128]];
    let mut v = Vec::new();
    for y in 0..h {
        for x in 0..w {
            v.extend_from_slice(&colors[((x / 3 + y) % 4) as usize]);
        }
    }
    v
}

fn decode_pixels(file: &[u8]) -> Vec<u8> {
    match decode_bytes(file) {
        Ok((px, _)) => px,
        Err(e) => panic!("decode failed: {e:?}"),
    }
}

#[test]
fn test_encode_decode_rgba_default_options() {
    let rgba = image(23, 17);
    let file = encode_rgba(&rgba, 23, 17, &EncodeOptions::default()).unwrap();
    assert_eq!(&file[0..9], &SIGNATURE);
    let (px, res) = decode_bytes(&file).unwrap();
    assert_eq!(px, rgba);
    assert_eq!((res.width, res.height, res.color_type, res.bit_depth), (23, 17, COLOR_TYPE_RGBA, 8));
}

#[test]
fn test_encode_decode_all_filter_modes() {
    let rgba = image(31, 20);
    for (use_filter, heuristic, shuffle) in [
        (false, FilterHeuristic::Msad, false),
        (true, FilterHeuristic::Msad, false),
        (true, FilterHeuristic::CompressionTest, false),
        (false, FilterHeuristic::Msad, true),
    ] {
        let mut o = EncodeOptions::default();
        o.use_filter = use_filter;
        o.filter_heuristic = heuristic;
        o.use_byte_shuffle = shuffle;
        o.tile_rows = 7;
        let file = encode_rgba(&rgba, 31, 20, &o).unwrap();
        assert_eq!(decode_pixels(&file), rgba);
    }
}

#[test]
fn test_encode_decode_color_types_and_depths() {
    let rgba = image(13, 9);
    for (ct, bd) in [
        (COLOR_TYPE_GRAY, 1u8),
        (COLOR_TYPE_GRAY, 2),
        (COLOR_TYPE_GRAY, 4),
        (COLOR_TYPE_GRAY, 8),
        (COLOR_TYPE_GRAY, 16),
        (COLOR_TYPE_GRAY_ALPHA, 4),
        (COLOR_TYPE_GRAY_ALPHA, 8),
        (COLOR_TYPE_RGB, 8),
        (COLOR_TYPE_RGB, 12),
        (COLOR_TYPE_RGBA, 10),
        (COLOR_TYPE_RGBA, 16),
        (COLOR_TYPE_RGBA, 32),
    ] {
        let mut o = EncodeOptions::default();
        o.target_color_type = ct;
        o.target_bit_depth = Some(bd);
        let file = encode_rgba(&rgba, 13, 9, &o).unwrap();
        let samples = convert_rgba_to_color_type(&rgba, 13, 9, ct, bd).unwrap();
        let expected = convert_color_type_to_rgba(&samples, 13, 9, ct, bd).unwrap();
        assert_eq!(decode_pixels(&file), expected, "ct={ct} bd={bd}");
    }
}

#[test]
fn test_encode_decode_interlaced() {
    let rgba = image(19, 11);
    for il in [INTERLACE_ADAM7, INTERLACE_EVEN_ODD] {
        let mut o = EncodeOptions::default();
        o.interlace_method = il;
        let file = encode_rgba(&rgba, 19, 11, &o).unwrap();
        assert_eq!(decode_pixels(&file), rgba, "interlace {il}");
    }
}

#[test]
fn test_encode_decode_idim_tiles() {
    let rgba = image(37, 29);
    for so in [0u8, 1] {
        let mut o = EncodeOptions::default();
        o.idim = Some(iDim::new(8, 6, 37, 29, so));
        let file = encode_rgba(&rgba, 37, 29, &o).unwrap();
        assert_eq!(decode_pixels(&file), rgba, "scan order {so}");
    }
}

#[test]
fn test_encode_decode_with_dictionaries() {
    let rgba = image(40, 40);
    let mut o = EncodeOptions::default();
    o.auto_dictionary = true;
    o.tile_rows = 4;
    let file = encode_rgba(&rgba, 40, 40, &o).unwrap();
    assert_eq!(decode_pixels(&file), rgba);

    let samples: Vec<Vec<u8>> = (0..20).map(|i| image(16, 4 + i % 3)).collect();
    let dict = train_zstd_dictionary(&samples);
    let mut o = EncodeOptions::default();
    o.zstd_dictionary = Some(dict.clone().unwrap_or_else(|| vec![1, 2, 3, 4, 5, 6, 7, 8]));
    let file = encode_rgba(&rgba, 40, 40, &o).unwrap();
    let (px, res) = decode_bytes(&file).unwrap();
    assert_eq!(px, rgba);
    assert_eq!(res.zstd_dictionary, o.zstd_dictionary);
}

#[test]
fn test_encode_decode_metadata() {
    let rgba = image(5, 5);
    let mut o = EncodeOptions::default();
    o.exif = Some(vec![0x45, 0x78, 0x69, 0x66, 0, 0]);
    o.icc_profile = Some(vec![7u8; 300]);
    o.xmp_metadata = Some(b"<x:xmpmeta/>".to_vec());
    o.json_metadata = vec![(b"app".to_vec(), b"{\"k\":1}".to_vec()), (b"b".to_vec(), b"[1,2]".to_vec())];
    let file = encode_rgba(&rgba, 5, 5, &o).unwrap();
    let (px, res) = decode_bytes(&file).unwrap();
    assert_eq!(px, rgba);
    assert_eq!(res.exif, o.exif);
    assert_eq!(res.icc_profile, o.icc_profile);
    assert_eq!(res.xmp_metadata, o.xmp_metadata);
    assert_eq!(res.json_metadata, o.json_metadata);
    assert!(res.compression_stats.is_some());
}

#[test]
fn test_decode_drops_invalid_json_and_xmp() {
    let rgba = image(2, 2);
    let mut file = encode_rgba(&rgba, 2, 2, &EncodeOptions::default()).unwrap();
    // insert a jSON chunk whose text is not JSON and an xMPd chunk that is not UTF-8, before IEND
    let iend = file.split_off(file.len() - 13);
    let mut payload = vec![3u8];
    payload.extend_from_slice(b"app{not json");
    file.extend_from_slice(&write_chunk(&CHUNK_JSON, FLAG_RAW, &payload));
    file.extend_from_slice(&write_chunk(&CHUNK_XMPD, FLAG_RAW, &[0xFF, 0xFE]));
    file.extend_from_slice(&iend);
    let (px, res) = decode_bytes(&file).unwrap();
    assert_eq!(px, rgba);
    assert!(res.json_metadata.is_empty());
    assert!(res.xmp_metadata.is_none());
}

#[test]
fn test_compression_method_reflects_chunks() {
    // a tiny image compresses nothing: the method byte stays 0
    let file = encode_rgba(&[1, 2, 3, 4], 1, 1, &EncodeOptions::default()).unwrap();
    assert_eq!(file[29], 0);
    // a large uniform image is compressed: the method byte says Zstandard
    let big = vec![5u8; 64 * 64 * 4];
    let file = encode_rgba(&big, 64, 64, &EncodeOptions::default()).unwrap();
    assert_eq!(file[29], COMPRESSION_METHOD_ZSTD_BIT);
    // the IHDR chunk still reads back with a valid CRC after the patch
    let c = read_chunk(&file, 9).unwrap();
    assert_eq!(c.chunk_type, CHUNK_IHDR);
}

#[test]
fn test_encode_errors() {
    let rgba = image(4, 4);
    let mut o = EncodeOptions::default();
    o.sample_format = Some(SAMPLE_FORMAT_FLOAT);
    assert!(matches!(encode_rgba(&rgba, 4, 4, &o), Err(CafeError::UnsupportedFeature(..))));
    let mut o = EncodeOptions::default();
    o.interlace_method = INTERLACE_ADAM7;
    o.target_color_type = COLOR_TYPE_GRAY;
    assert!(matches!(encode_rgba(&rgba, 4, 4, &o), Err(CafeError::UnsupportedFeature(..))));
    let mut o = EncodeOptions::default();
    o.use_byte_shuffle = true;
    o.target_color_type = COLOR_TYPE_RGB;
    assert!(matches!(encode_rgba(&rgba, 4, 4, &o), Err(CafeError::UnsupportedFeature(..))));
    let mut o = EncodeOptions::default();
    o.use_filter_per_row = true;
    assert!(matches!(encode_rgba(&rgba, 4, 4, &o), Err(CafeError::UnsupportedFeature(..))));
    assert!(matches!(encode_raw(&[0u8; 10], 4, 4, COLOR_TYPE_RGBA, 8, 0, &EncodeOptions::default()), Err(CafeError::TruncatedFile(..))));
}

#[test]
fn test_encode_indexed_roundtrip() {
    let rgba = few_colors(21, 13);
    for alg in [PaletteAlgorithm::NearestNeighbor, PaletteAlgorithm::NearestNeighborWeighted, PaletteAlgorithm::MedianCut, PaletteAlgorithm::KMeans] {
        for il in [0u8, INTERLACE_ADAM7, INTERLACE_EVEN_ODD] {
            let mut o = EncodeOptions::default();
            o.palette_algorithm = alg;
            o.interlace_method = il;
            o.tile_rows = 5;
            let file = encode_indexed(&rgba, 21, 13, &o).unwrap();
            let (ix, pal) = quantize_to_palette(&rgba, 21, 256, alg);
            let expected = dequantize_from_palette(&ix, &pal, 21, 13);
            let (px, res) = decode_bytes(&file).unwrap();
            assert_eq!(px, expected, "{alg:?} interlace {il}");
            assert_eq!(res.color_type, if il == 0 { COLOR_TYPE_INDEXED } else { COLOR_TYPE_RGBA });
        }
    }
    // the greedy palette keeps four exact colors: the image comes back as it was
    let file = encode_indexed(&rgba, 21, 13, &EncodeOptions::default()).unwrap();
    assert_eq!(decode_pixels(&file), rgba);
}

#[test]
fn test_encode_indexed_errors() {
    let rgba = few_colors(4, 4);
    let mut o = EncodeOptions::default();
    o.use_byte_shuffle = true;
    assert!(matches!(encode_indexed(&rgba, 4, 4, &o), Err(CafeError::UnsupportedFeature(..))));
    let mut o = EncodeOptions::default();
    o.use_filter_per_row = true;
    o.interlace_method = INTERLACE_ADAM7;
    assert!(matches!(encode_indexed(&rgba, 4, 4, &o), Err(CafeError::UnsupportedFeature(..))));
    assert!(matches!(encode_indexed(&[], 0, 0, &EncodeOptions::default()), Err(CafeError::UnsupportedFeature(..))));
}

#[test]
fn test_stream_encoder_row_strips() {
    let rgba = image(12, 10);
    let (mut enc, mut file) = Encoder::new(12, 10, &EncoderOptions::default()).unwrap();
    assert_eq!(enc.tile_rows(), 64);
    file.extend_from_slice(&enc.add_tile(&rgba[0..12 * 4 * 3]).unwrap());
    assert!(enc.add_tile(&[]).unwrap().is_empty());
    file.extend_from_slice(&enc.add_tile(&rgba[12 * 4 * 3..]).unwrap());
    assert!(matches!(enc.add_tile(&rgba[0..48]), Err(CafeError::UnsupportedFeature(..))));
    let (tail, cm, crc) = enc.finish_exact().unwrap();
    file.extend_from_slice(&tail);
    file[29] = cm;
    file[32..36].copy_from_slice(&crc);
    assert_eq!(decode_pixels(&file), rgba);
    // the patched IHDR has a valid CRC
    assert!(read_chunk(&file, 9).is_ok());
}

#[test]
fn test_stream_encoder_idim_and_even_odd() {
    let rgba = image(10, 7);
    let mut o = EncoderOptions::default();
    o.idim = Some((4, 4, 1));
    let (mut enc, mut file) = Encoder::new(10, 7, &o).unwrap();
    let order = iDim::new(4, 4, 10, 7, 1).tile_order().unwrap();
    for (tx, ty) in order {
        let (tw, th) = iDim::new(4, 4, 10, 7, 1).tile_dimensions(tx, ty, 10, 7);
        let mut tile = Vec::new();
        for y in 0..th {
            let row = (ty as u32 * 4 + y) as usize;
            let col = tx as usize * 4;
            tile.extend_from_slice(&rgba[(row * 10 + col) * 4..(row * 10 + col + tw as usize) * 4]);
        }
        file.extend_from_slice(&enc.add_idim_tile(&tile).unwrap());
    }
    assert!(matches!(enc.add_idim_tile(&[0u8; 4]), Err(CafeError::UnsupportedFeature(..))));
    file.extend_from_slice(&enc.finish().unwrap());
    assert_eq!(decode_pixels(&file), rgba);

    let mut o = EncoderOptions::default();
    o.even_odd_interlace = true;
    o.tile_rows = 2;
    let (mut enc, mut file) = Encoder::new(10, 7, &o).unwrap();
    assert!(matches!(enc.add_tile(&rgba), Err(CafeError::UnsupportedFeature(..))));
    for r in 0..7 {
        file.extend_from_slice(&enc.add_even_odd_rows(&rgba[r * 40..(r + 1) * 40]).unwrap());
    }
    file.extend_from_slice(&enc.finish().unwrap());
    assert_eq!(decode_pixels(&file), rgba);
}

#[test]
fn test_stream_encoder_refusals() {
    assert!(Encoder::new(0, 5, &EncoderOptions::default()).is_err());
    let mut o = EncoderOptions::default();
    o.target_color_type = COLOR_TYPE_INDEXED;
    assert!(Encoder::new(5, 5, &o).is_err());
    let (enc, _) = Encoder::new(5, 5, &EncoderOptions::default()).unwrap();
    assert!(matches!(enc.finish(), Err(CafeError::UnsupportedFeature(..))));
    let (mut enc, _) = Encoder::new(5, 5, &EncoderOptions::default()).unwrap();
    assert!(matches!(enc.add_tile(&[0u8; 7]), Err(CafeError::UnsupportedFeature(..))));
    assert!(matches!(enc.add_even_odd_rows(&[0u8; 20]), Err(CafeError::UnsupportedFeature(..))));
}

#[test]
fn test_compress_with_fallback_roundtrip_and_choice() {
    let data = vec![0u8; 5000];
    let (flag, c) = compress_with_fallback(&data, 3).unwrap();
    assert_eq!(flag, FLAG_ZSTD);
    assert!(c.len() < data.len());
    assert_eq!(decompress_chunk(flag, &c).unwrap(), data);
    let tiny = vec![1u8, 2, 3];
    let (flag, c) = compress_with_fallback(&tiny, 3).unwrap();
    assert_eq!(flag, FLAG_RAW);
    assert_eq!(c, tiny);
    let (flag, c, used) = compress_with_fallback_dict(&data, 3, None).unwrap();
    assert!(!used);
    assert_eq!(decompress_chunk(flag, &c).unwrap(), data);
}

#[test]
fn test_chunk_crc_is_crc32_of_body() {
    let c = write_chunk(&CHUNK_JSON, FLAG_RAW, b"abc");
    let crc = u32::from_be_bytes([c[12], c[13], c[14], c[15]]);
    assert_eq!(crc, crc32fast::hash(&c[4..12]));
    assert_ne!(crc, 0);
}

#[test]
fn test_idim_more_tiles_than_rows_roundtrip() {
    // 32x2 image cut into 4x1 tiles: 16 tiles, each with a filter byte,
    // more tiles than rows.
    let (width, height) = (32u32, 2u32);
    let rgba: Vec<u8> = (0..(width * height * 4) as usize).map(|i| ((i * 31 + 7) % 251) as u8).collect();
    for scan in [0u8, 1] {
        let mut opts = EncodeOptions::default();
        opts.use_filter = true;
        opts.idim = Some(iDim::new(4, 1, width, height, scan));
        let bytes = encode_rgba(&rgba, width, height, &opts).expect("encode failed");
        let (pixels, result) = decode_bytes(&bytes).expect("decode failed");
        assert_eq!(result.width, width);
        assert_eq!(result.height, height);
        assert_eq!(pixels, rgba, "scan order {scan}");
    }
}

#[test]
fn test_read_chunk_crc_mismatch_names_the_chunk() {
    let mut bytes = write_chunk(b"IDAT", 0x00, b"payload");
    let len = bytes.len();
    bytes[len - 1] ^= 0xFF;
    match read_chunk(&bytes, 0) {
        Err(CafeError::CrcMismatch { chunk_type, expected, actual }) => {
            assert_eq!(chunk_type, u32::from_be_bytes(*b"IDAT"));
            assert_eq!(expected ^ actual, 0xFF);
        }
        other => panic!("expected a CRC mismatch, got {:?}", other.map(|c| c.next_offset)),
    }
}

#[test]
fn test_streamed_chunk_header_and_footer_roundtrip() {
    let data = b"some chunk payload".to_vec();
    let bytes = write_chunk(b"jSON", 1, &data);
    let mut header = [0u8; 9];
    header.copy_from_slice(&bytes[0..9]);
    let (t, flag, len) = cafe::chunk::parse_chunk_header(&header).unwrap();
    assert_eq!(&t, b"jSON");
    assert_eq!(flag, 1);
    assert_eq!(len, data.len());
    let mut crc = [0u8; 4];
    crc.copy_from_slice(&bytes[9 + len..13 + len]);
    let c = cafe::chunk::finish_streamed_chunk(t, flag, bytes[9..9 + len].to_vec(), &crc).unwrap();
    assert_eq!(c.data, data);
    assert_eq!(c.chunk_type, *b"jSON");
}

#[test]
fn test_even_odd_single_row_roundtrip() {
    let (width, height) = (7u32, 1u32);
    let rgba: Vec<u8> = (0..(width * height * 4) as usize).map(|i| (i * 13 % 256) as u8).collect();
    let mut opts = EncodeOptions::default();
    opts.interlace_method = INTERLACE_EVEN_ODD;
    let bytes = encode_rgba(&rgba, width, height, &opts).expect("encode failed");
    let (pixels, result) = decode_bytes(&bytes).expect("decode failed");
    assert_eq!((result.width, result.height), (width, height));
    assert_eq!(pixels, rgba);
}

#[test]
fn test_interlace_refuses_wide_samples() {
    let rgba = vec![9u8; 4 * 4 * 4];
    let mut opts = EncodeOptions::default();
    opts.interlace_method = INTERLACE_ADAM7;
    opts.target_bit_depth = Some(16);
    match encode_rgba(&rgba, 4, 4, &opts) {
        Err(CafeError::UnsupportedFeature(msg, _)) => assert!(msg.contains("interlacing")),
        other => panic!("expected a refusal, got {:?}", other.map(|b| b.len())),
    }
}
