use cafe::ancillary::iDim;
use cafe::chunk::{read_chunk, write_chunk, ReadChunk};
use cafe::constants::{COLOR_TYPE_RGBA, INTERLACE_ADAM7, SIGNATURE};
use cafe::decode::{decode_bytes, DecodeResult};
use cafe::encode::EncodeOptions;
use cafe::error::CafeError;
use cafe::indexed_encode::{encode_indexed, encode_rgba};
use cafe::stream_decode::{check_signature, DecodeInfo, Decoder, Tile};

/// Feeds a `Decoder` from a buffer, chunk after chunk, the way a reader
/// over a stream would.
struct BufferDecoder<'a> {
    buf: &'a [u8],
    offset: usize,
    core: Decoder,
}

impl<'a> BufferDecoder<'a> {
    fn new(buf: &'a [u8]) -> Self {
        BufferDecoder { buf, offset: 0, core: Decoder::new() }
    }

    fn next_chunk(&mut self) -> Result<ReadChunk, CafeError> {
        if self.offset >= self.buf.len() {
            return Err(CafeError::TruncatedFile("stream ended before IEND"));
        }
        let c = read_chunk(self.buf, self.offset)?;
        self.offset = c.next_offset;
        Ok(c)
    }

    fn read_info(&mut self) -> Result<DecodeInfo, CafeError> {
        self.core.check_read_info()?;
        if self.buf.len() < 9 {
            return Err(CafeError::TruncatedFile("stream ended before IEND"));
        }
        let mut sig = [0u8; 9];
        sig.copy_from_slice(&self.buf[0..9]);
        check_signature(&sig)?;
        self.offset = 9;
        loop {
            let c = self.next_chunk()?;
            if self.core.read_info_chunk(&c.chunk_type, c.flag, c.data)? {
                break;
            }
        }
        self.core.read_info_result()
    }

    fn next_tile(&mut self) -> Result<Option<Tile>, CafeError> {
        if let Some(t) = self.core.next_tile_begin()? {
            return Ok(t);
        }
        loop {
            let c = self.next_chunk()?;
            if let Some(t) = self.core.next_tile_chunk(&c.chunk_type, c.flag, &c.data)? {
                return Ok(t);
            }
        }
    }

    fn finish(mut self) -> Result<DecodeResult, CafeError> {
        self.core.check_finish()?;
        while !self.core.is_finished() {
            let c = self.next_chunk()?;
            self.core.finish_chunk(&c.chunk_type, c.flag, &c.data)?;
        }
        self.core.finish_result()
    }
}

fn pattern(width: u32, height: u32) -> Vec<u8> {
    let mut img = vec![0u8; (width * height * 4) as usize];
    for y in 0..height {
        for x in 0..width {
            let idx = ((y * width + x) * 4) as usize;
            img[idx] = (x * 7) as u8;
            img[idx + 1] = (y * 11) as u8;
            img[idx + 2] = ((x + y) % 256) as u8;
            img[idx + 3] = 255;
        }
    }
    img
}

fn build_simple_cafe_bytes(width: u32, height: u32, tile_rows: u32) -> Vec<u8> {
    let mut opts = EncodeOptions::default();
    opts.use_filter = true;
    opts.tile_rows = tile_rows;
    opts.level = 5;
    encode_rgba(&pattern(width, height), width, height, &opts).expect("failed to encode")
}

fn assert_tiles_reassemble_to(tiles: &[Tile], width: u32, height: u32, expected_rgba: &[u8]) {
    assert!(!tiles.is_empty());
    let mut reassembled = vec![0u8; expected_rgba.len()];
    let mut rows_covered = 0u32;
    for tile in tiles {
        assert_eq!(tile.x, 0);
        assert_eq!(tile.width, width);
        assert_eq!(tile.y, rows_covered);
        assert_eq!(tile.pixels.len(), (tile.width * tile.height * 4) as usize);
        let dst_start = (tile.y * width * 4) as usize;
        let dst_end = dst_start + tile.pixels.len();
        reassembled[dst_start..dst_end].copy_from_slice(&tile.pixels);
        rows_covered += tile.height;
    }
    assert_eq!(rows_covered, height);
    assert_eq!(reassembled, expected_rgba);
}

fn assert_grid_tiles_reassemble_to(tiles: &[Tile], width: u32, height: u32, expected_rgba: &[u8]) {
    let mut reassembled = vec![0u8; expected_rgba.len()];
    let mut covered = vec![false; (width * height) as usize];
    for tile in tiles {
        assert_eq!(tile.pixels.len(), (tile.width * tile.height * 4) as usize);
        for ty in 0..tile.height {
            for tx in 0..tile.width {
                let (x, y) = (tile.x + tx, tile.y + ty);
                assert!(x < width && y < height);
                assert!(!covered[(y * width + x) as usize], "pixel covered twice");
                covered[(y * width + x) as usize] = true;
                let src = ((ty * tile.width + tx) * 4) as usize;
                let dst = ((y * width + x) * 4) as usize;
                reassembled[dst..dst + 4].copy_from_slice(&tile.pixels[src..src + 4]);
            }
        }
    }
    assert!(covered.iter().all(|c| *c));
    assert_eq!(reassembled, expected_rgba);
}

#[test]
fn test_decoder_read_info_matches_whole_image_dimensions() {
    let buf = build_simple_cafe_bytes(48, 37, 8);
    let (_pixels, whole_result) = decode_bytes(&buf).expect("whole-image decode failed");
    let mut decoder = BufferDecoder::new(&buf);
    let info = decoder.read_info().expect("read_info failed");
    assert_eq!(info.width, whole_result.width);
    assert_eq!(info.height, whole_result.height);
    assert_eq!(info.color_type, COLOR_TYPE_RGBA);
    assert_eq!(info.bit_depth, 8);
    assert!(info.supports_streaming_tiles);
}

#[test]
fn test_decoder_next_tile_loop_matches_whole_image_decode() {
    let buf = build_simple_cafe_bytes(48, 37, 8);
    let (whole_pixels, whole_result) = decode_bytes(&buf).expect("whole-image decode failed");
    let mut decoder = BufferDecoder::new(&buf);
    let info = decoder.read_info().expect("read_info failed");
    assert!(info.supports_streaming_tiles);
    let mut tiles = Vec::new();
    while let Some(tile) = decoder.next_tile().expect("next_tile failed") {
        tiles.push(tile);
    }
    assert!(decoder.next_tile().expect("next_tile after None failed").is_none());
    assert_tiles_reassemble_to(&tiles, info.width, info.height, &whole_pixels);
    assert_eq!(info.width, whole_result.width);
    assert_eq!(info.height, whole_result.height);
}

#[test]
fn test_decoder_next_tile_before_read_info_errors() {
    let buf = build_simple_cafe_bytes(8, 8, 4);
    let mut decoder = BufferDecoder::new(&buf);
    assert!(matches!(decoder.next_tile(), Err(CafeError::UnsupportedFeature(..))));
}

#[test]
fn test_decoder_read_info_truncated_stream_errors() {
    let buf = build_simple_cafe_bytes(8, 8, 4);
    let truncated = &buf[0..20];
    let mut decoder = BufferDecoder::new(truncated);
    assert!(matches!(decoder.read_info(), Err(CafeError::TruncatedFile(..))));
}

#[test]
fn test_decoder_read_info_called_twice_errors() {
    let buf = build_simple_cafe_bytes(8, 8, 4);
    let mut decoder = BufferDecoder::new(&buf);
    decoder.read_info().expect("first read_info failed");
    assert!(matches!(decoder.read_info(), Err(CafeError::UnsupportedFeature(..))));
}

#[test]
fn test_decoder_stream_indexed_matches_whole_image() {
    let (width, height) = (40u32, 33u32);
    let colors = [[255u8, 0, 0, 255], [0, 255, 0, 255], [0, 0, 255, 255], [255, 255, 0, 255]];
    let mut img = Vec::new();
    for y in 0..height {
        for x in 0..width {
            img.extend_from_slice(&colors[((x / 5 + y / 7) % 4) as usize]);
        }
    }
    let mut opts = EncodeOptions::default();
    opts.tile_rows = 10;
    let buf = encode_indexed(&img, width, height, &opts).expect("failed to encode_indexed");
    let (whole_pixels, _) = decode_bytes(&buf).expect("whole-image decode failed");
    let mut decoder = BufferDecoder::new(&buf);
    let info = decoder.read_info().expect("read_info failed");
    let mut tiles = Vec::new();
    while let Some(tile) = decoder.next_tile().expect("next_tile failed") {
        tiles.push(tile);
    }
    assert_tiles_reassemble_to(&tiles, info.width, info.height, &whole_pixels);
}

#[test]
fn test_decoder_stream_idim_matches_whole_image() {
    let (width, height) = (33u32, 23u32);
    for scan_order in [0u8, 1u8] {
        let img: Vec<u8> = (0..(width * height * 4)).map(|i| ((i * 7 + 3) % 256) as u8).collect();
        let mut opts = EncodeOptions::default();
        opts.use_filter = true;
        opts.level = 5;
        opts.idim = Some(iDim::new(8, 8, width, height, scan_order));
        let buf = encode_rgba(&img, width, height, &opts).expect("failed to encode");
        let (whole_pixels, _) = decode_bytes(&buf).expect("whole-image decode failed");
        let mut decoder = BufferDecoder::new(&buf);
        let info = decoder.read_info().expect("read_info failed");
        assert!(info.supports_streaming_tiles);
        let mut tiles = Vec::new();
        while let Some(tile) = decoder.next_tile().expect("next_tile failed") {
            tiles.push(tile);
        }
        assert!(decoder.next_tile().expect("next_tile after None failed").is_none());
        assert_grid_tiles_reassemble_to(&tiles, width, height, &whole_pixels);
    }
}

#[test]
fn test_decoder_stream_rejects_interlaced() {
    let (width, height) = (32u32, 64u32);
    let mut opts = EncodeOptions::default();
    opts.interlace_method = INTERLACE_ADAM7;
    let buf = encode_rgba(&pattern(width, height), width, height, &opts).expect("failed to encode");
    let mut decoder = BufferDecoder::new(&buf);
    let info = decoder.read_info().expect("read_info failed");
    assert!(!info.supports_streaming_tiles);
    assert!(matches!(decoder.next_tile(), Err(CafeError::UnsupportedFeature(..))));
}

#[test]
fn test_decoder_finish_returns_same_metadata_as_whole_image() {
    let (width, height) = (16u32, 16u32);
    let img = vec![128u8; (width * height * 4) as usize];
    let mut opts = EncodeOptions::default();
    opts.use_filter = true;
    opts.tile_rows = 4;
    opts.level = 5;
    opts.exif = Some(vec![0x49, 0x49, 0x2A, 0x00, 0, 0, 0, 0]);
    opts.json_metadata = vec![(b"test".to_vec(), b"{\"hello\":\"world\"}".to_vec())];
    let buf = encode_rgba(&img, width, height, &opts).expect("failed to encode");
    let (_, whole_result) = decode_bytes(&buf).expect("whole-image decode failed");

    let mut decoder = BufferDecoder::new(&buf);
    decoder.read_info().expect("read_info failed");
    while decoder.next_tile().expect("next_tile failed").is_some() {}
    let result = decoder.finish().expect("finish failed");
    assert_eq!(result.width, whole_result.width);
    assert_eq!(result.height, whole_result.height);
    assert_eq!(result.exif, whole_result.exif);
    assert_eq!(result.json_metadata, whole_result.json_metadata);

    let mut decoder2 = BufferDecoder::new(&buf);
    decoder2.read_info().expect("read_info failed");
    let result2 = decoder2.finish().expect("finish failed");
    assert_eq!(result2.exif, whole_result.exif);
    assert_eq!(result2.json_metadata, whole_result.json_metadata);
}

#[test]
fn test_decoder_signature_and_missing_ihdr() {
    let mut sig = [0u8; 9];
    sig.copy_from_slice(&build_simple_cafe_bytes(4, 4, 4)[0..9]);
    assert!(check_signature(&sig).is_ok());
    sig[0] = 0;
    assert!(matches!(check_signature(&sig), Err(CafeError::InvalidSignature)));
    let mut d = Decoder::new();
    assert!(matches!(d.read_info_result(), Err(CafeError::MissingIhdr)));
    assert!(matches!(d.next_tile_begin(), Err(CafeError::UnsupportedFeature(..))));
    assert!(matches!(d.finish_result(), Err(CafeError::MissingIhdr)));
}

fn hand_built_file(ihdr: &[u8], idat: Option<&[u8]>) -> Vec<u8> {
    let mut buf = SIGNATURE.to_vec();
    buf.extend_from_slice(&write_chunk(b"IHDR", 0, ihdr));
    if let Some(d) = idat {
        buf.extend_from_slice(&write_chunk(b"IDAT", 0, d));
    }
    buf.extend_from_slice(&write_chunk(b"IEND", 0, &[]));
    buf
}

#[test]
fn test_decoder_finish_without_read_info_is_missing_ihdr() {
    let buf = hand_built_file(&[0, 0, 0, 1, 0, 0, 0, 1, 8, 0, 6, 0, 0, 0], None);
    let decoder = BufferDecoder::new(&buf);
    assert_eq!(decoder.finish().err(), Some(CafeError::MissingIhdr));
}

#[test]
fn test_decoder_row_strip_of_partial_rows_is_refused() {
    // A 4x4 RGBA file whose only row strip holds 20 bytes: one whole row
    // of 16 bytes and 4 more.
    let buf = hand_built_file(&[0, 0, 0, 4, 0, 0, 0, 4, 8, 0, 6, 1, 0, 0], Some(&[0u8; 20]));
    let mut decoder = BufferDecoder::new(&buf);
    decoder.read_info().expect("read_info failed");
    assert!(matches!(decoder.next_tile(), Err(CafeError::TruncatedFile(..))));
}
