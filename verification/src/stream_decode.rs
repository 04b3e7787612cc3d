//! Reading a file one chunk at a time: first what the header chunks say of
//! the image, then one tile per image-data chunk, then what the file
//! declared besides. The caller reads the chunks (from any source) and
//! hands them in; the decisions are made here.

use vstd::prelude::*;

use crate::color::{bytes_per_pixel, bytes_per_pixel_spec, color_type_to_rgba_spec, convert_color_type_to_rgba, unpack_indices_row, unpack_row_spec};
use crate::constants::{
    CHUNK_CHDR, CHUNK_EXIF, CHUNK_ICCP, CHUNK_IDAT, CHUNK_IDIM, CHUNK_IEND, CHUNK_IHDR, CHUNK_JSON, CHUNK_PLTE, CHUNK_XMPD,
    CHUNK_ZDIC, COLOR_TYPE_INDEXED, INTERLACE_NONE, SAMPLE_FORMAT_FLOAT, SAMPLE_FORMAT_HALF, SIGNATURE,
};
use crate::decode::{
    chunk_step, decode_idim_tile_raw, decode_spec, initial_view, walk, lemma_ihdr_depth, decompress_idat_payload, depth_ok, handle_chdr_chunk, handle_exif_chunk, handle_iccp_chunk,
    handle_idim_chunk, handle_json_chunk, handle_plte_chunk, handle_xmpd_chunk, handle_zdic_chunk, idat_unpack_step,
    idim_tile_raw_spec, result_matches, same_image, same_type, stats_totals, tile_filters_spec, undo_tile_filters,
    CompressionStats, DecView, DecodeResult, DecoderState,
};
use crate::chunk::{lemma_read_chunk_end, read_chunk_spec};
use crate::error::CafeError;
use crate::header::{handle_ihdr_chunk, ihdr_step, DecodeState};
use crate::indexed::{dequantize_from_palette, dequantize_spec};
use crate::palette::{Palette, PaletteEntry};

verus! {

/// What the header chunks say of the image, and whether it can be read
/// tile by tile (not interlaced; 2D tiles only for direct color of at
/// least 8 bits).
#[derive(Clone, Copy, Debug, PartialEq, Eq, Structural)]
pub struct DecodeInfo {
    pub width: u32,
    pub height: u32,
    pub color_type: u8,
    pub bit_depth: u8,
    pub sample_format: u8,
    pub supports_streaming_tiles: bool,
}

/// A decoded tile: where it sits in the image, its size, and its pixels
/// (8-bit RGBA; floating-point samples as stored, for the caller to
/// convert).
pub struct Tile {
    pub x: u32,
    pub y: u32,
    pub width: u32,
    pub height: u32,
    pub pixels: Vec<u8>,
}

/// A tile as values.
pub struct TileView {
    pub x: u32,
    pub y: u32,
    pub width: u32,
    pub height: u32,
    pub pixels: Seq<u8>,
}

impl View for Tile {
    type V = TileView;

    open spec fn view(&self) -> TileView {
        TileView { x: self.x, y: self.y, width: self.width, height: self.height, pixels: self.pixels@ }
    }
}

/// A decoder fed one chunk at a time.
pub struct Decoder {
    pub state: DecoderState,
    /// Set once the header chunks have been read.
    pub info: Option<DecodeInfo>,
    /// The first image-data chunk, read while looking for the end of the
    /// header chunks.
    pub pending_idat: Option<(u8, Vec<u8>)>,
    /// `IEND` was seen.
    pub finished: bool,
    /// Rows handed out so far as row-strip tiles.
    pub rows_seen: usize,
    pub ihdr_seen: bool,
}

/// The decoder as values.
pub struct StreamView {
    pub state: DecView,
    pub info: Option<DecodeInfo>,
    pub pending_idat: Option<(u8, Seq<u8>)>,
    pub finished: bool,
    pub rows_seen: nat,
    pub ihdr_seen: bool,
}

impl View for Decoder {
    type V = StreamView;

    open spec fn view(&self) -> StreamView {
        StreamView {
            state: self.state@,
            info: self.info,
            pending_idat: match self.pending_idat {
                Some((f, d)) => Some((f, d@)),
                None => None,
            },
            finished: self.finished,
            rows_seen: self.rows_seen as nat,
            ihdr_seen: self.ihdr_seen,
        }
    }
}

/// Once the header gives the image's size, its bit depth is one the color
/// conversion takes.
pub open spec fn header_inv(hd: DecodeState) -> bool {
    hd.width is Some ==> depth_ok(hd.color_type, hd.bit_depth)
}

// ---------------------------------------------------------------------------
// Chunks other than the image's own
// ---------------------------------------------------------------------------

/// A chunk met before or between image-data chunks: `IHDR` and `IDAT` are
/// refused here, every other chunk does what it does in a whole-file decode.
pub open spec fn ancillary_step(v: DecView, t: Seq<u8>, flag: u8, data: Seq<u8>) -> Result<DecView, CafeError> {
    if t == CHUNK_IHDR@ || t == CHUNK_IDAT@ {
        Err(CafeError::UnsupportedFeature("unknown critical chunk", None))
    } else {
        chunk_step(v, t, flag, data)
    }
}

/// Handles a chunk other than `IHDR`, `IDAT` and `IEND` (those are refused
/// as unknown critical chunks).
pub fn dispatch_ancillary_chunk(state: &mut DecoderState, t: &[u8; 4], flag: u8, data: &[u8]) -> (r: Result<(), CafeError>)
    ensures
        same_image(final(state).header, old(state).header),
        match ancillary_step(old(state)@, t@, flag, data@) {
            Ok(v) => r is Ok && final(state)@ == v,
            Err(e) => r == Err::<(), CafeError>(e),
        },
{
    proof {
        reveal(chunk_step);
    }
    if same_type(t, &CHUNK_PLTE) {
        handle_plte_chunk(state, flag, data)
    } else if same_type(t, &CHUNK_EXIF) {
        handle_exif_chunk(state, flag, data)
    } else if same_type(t, &CHUNK_JSON) {
        handle_json_chunk(state, flag, data)
    } else if same_type(t, &CHUNK_ICCP) {
        handle_iccp_chunk(state, flag, data);
        Ok(())
    } else if same_type(t, &CHUNK_XMPD) {
        handle_xmpd_chunk(state, flag, data);
        Ok(())
    } else if same_type(t, &CHUNK_ZDIC) {
        handle_zdic_chunk(state, flag, data);
        Ok(())
    } else if same_type(t, &CHUNK_IDIM) {
        handle_idim_chunk(state, flag, data)
    } else if same_type(t, &CHUNK_CHDR) {
        handle_chdr_chunk(state, flag, data);
        Ok(())
    } else if 65 <= t[0] && t[0] <= 90 {
        proof {
            if t@ == CHUNK_IHDR@ {
                assert(t@[0] == 73);
            }
        }
        Err(CafeError::UnsupportedFeature("unknown critical chunk", None))
    } else {
        proof {
            assert(t@ != CHUNK_IHDR@ && t@ != CHUNK_IDAT@) by {
                assert(CHUNK_IHDR@[0] == 73 && CHUNK_IDAT@[0] == 73);
            }
        }
        Ok(())
    }
}

// ---------------------------------------------------------------------------
// Tiles
// ---------------------------------------------------------------------------

/// The palette as values.
pub open spec fn palette_view(p: Option<Palette>) -> Option<(Seq<PaletteEntry>, bool)> {
    match p {
        Some(p) => Some((p.entries@, p.has_alpha)),
        None => None,
    }
}

/// What a `w` x `h` block of stored samples becomes: indices through the
/// palette, integer samples converted to 8-bit RGBA; floating-point samples
/// are kept as stored, for the caller to convert.
pub open spec fn raw_to_rgba_spec(data: Seq<u8>, w: u32, h: u32, ct: u8, bd: u8, sf: u8, palette: Option<(Seq<PaletteEntry>, bool)>) -> Result<Seq<u8>, CafeError> {
    if ct == COLOR_TYPE_INDEXED {
        match palette {
            None => Err(CafeError::UnsupportedFeature("Color type=3 found without PLTE chunk", None)),
            Some((entries, _)) => if data.len() * 4 > usize::MAX {
                Err(CafeError::TruncatedFile("image dimensions overflow"))
            } else {
                Ok(dequantize_spec(data, entries))
            },
        }
    } else if sf == SAMPLE_FORMAT_FLOAT || sf == SAMPLE_FORMAT_HALF {
        Ok(data)
    } else {
        match bytes_per_pixel_spec(ct, bd) {
            None => Err(CafeError::UnsupportedFeature("color type and bit depth not supported together", None)),
            Some(_) => color_type_to_rgba_spec(data, w as nat, h as nat, ct, bd),
        }
    }
}

/// Converts a `width` x `height` block of stored samples to what a tile or
/// an image hands out, as `raw_to_rgba_spec` says.
pub fn convert_raw_to_rgba(data: &[u8], width: u32, height: u32, ct: u8, bd: u8, sf: u8, palette: &Option<Palette>) -> (r: Result<Vec<u8>, CafeError>)
    requires depth_ok(ct, bd),
    ensures
        match raw_to_rgba_spec(data@, width, height, ct, bd, sf, palette_view(*palette)) {
            Ok(px) => r matches Ok(v) && v@ == px,
            Err(e) => r == Err::<Vec<u8>, CafeError>(e),
        },
{
    if ct == COLOR_TYPE_INDEXED {
        match palette {
            None => Err(CafeError::UnsupportedFeature("Color type=3 found without PLTE chunk", None)),
            Some(p) => {
                if data.len() > usize::MAX / 4 {
                    return Err(CafeError::TruncatedFile("image dimensions overflow"));
                }
                Ok(dequantize_from_palette(data, p, width, height))
            },
        }
    } else if sf == SAMPLE_FORMAT_FLOAT || sf == SAMPLE_FORMAT_HALF {
        Ok(crate::bytes::copy_bytes(data))
    } else {
        match bytes_per_pixel(ct, bd) {
            None => Err(CafeError::UnsupportedFeature("color type and bit depth not supported together", None)),
            Some(_) => convert_color_type_to_rgba(data, width, height, ct, bd),
        }
    }
}

/// The first `k` packed rows of `bpr` bytes unpacked to `w` indices each.
pub open spec fn index_rows_spec(packed: Seq<u8>, bd: u8, w: nat, bpr: nat, k: nat) -> Result<Seq<u8>, CafeError>
    decreases k,
{
    if k == 0 {
        Ok(Seq::empty())
    } else {
        match index_rows_spec(packed, bd, w, bpr, (k - 1) as nat) {
            Err(e) => Err(e),
            Ok(a) => if k * bpr > packed.len() {
                Err(CafeError::TruncatedFile("index rows shorter than the tile"))
            } else {
                match unpack_row_spec(packed.subrange((k - 1) * bpr, (k * bpr) as int), bd, w) {
                    Err(e) => Err(e),
                    Ok(ix) => Ok(a + ix),
                }
            },
        }
    }
}

proof fn lemma_index_rows_err(packed: Seq<u8>, bd: u8, w: nat, bpr: nat, k: nat, m: nat)
    requires k <= m, index_rows_spec(packed, bd, w, bpr, k) is Err,
    ensures index_rows_spec(packed, bd, w, bpr, m) == index_rows_spec(packed, bd, w, bpr, k),
    decreases m,
{
    if k < m {
        lemma_index_rows_err(packed, bd, w, bpr, k, (m - 1) as nat);
    }
}

/// Unpacks `th` packed rows of indices, one index per byte.
fn unpack_index_rows(packed: &[u8], bd: u8, w: usize, bpr: usize, th: usize) -> (r: Result<Vec<u8>, CafeError>)
    ensures
        match index_rows_spec(packed@, bd, w as nat, bpr as nat, th as nat) {
            Ok(ix) => r matches Ok(v) && v@ == ix,
            Err(e) => r == Err::<Vec<u8>, CafeError>(e),
        },
{
    let mut out: Vec<u8> = Vec::new();
    let mut r: usize = 0;
    while r < th
        invariant
            r <= th,
            index_rows_spec(packed@, bd, w as nat, bpr as nat, r as nat) == Ok::<Seq<u8>, CafeError>(out@),
        decreases th - r,
    {
        assert((r as u128 + 1) * (bpr as u128) <= 0x1_0000_0000_0000_0000 * 0xffff_ffff_ffff_ffff) by (nonlinear_arith)
            requires r < 0xffff_ffff_ffff_ffff, bpr <= 0xffff_ffff_ffff_ffff;
        if (r as u128 + 1) * (bpr as u128) > packed.len() as u128 {
            proof {
                lemma_index_rows_err(packed@, bd, w as nat, bpr as nat, (r + 1) as nat, th as nat);
            }
            return Err(CafeError::TruncatedFile("index rows shorter than the tile"));
        }
        assert((r + 1) * bpr == r * bpr + bpr) by (nonlinear_arith);
        let start = r * bpr;
        let end = start + bpr;
        let row = &packed[start..end];
        assert(row@ =~= packed@.subrange(r * bpr, (r + 1) * bpr));
        let ix = match unpack_indices_row(row, bd, w) {
            Ok(ix) => ix,
            Err(e) => {
                proof {
                    lemma_index_rows_err(packed@, bd, w as nat, bpr as nat, (r + 1) as nat, th as nat);
                }
                return Err(e);
            },
        };
        crate::bytes::append_bytes(&mut out, ix.as_slice());
        r += 1;
    }
    Ok(out)
}

/// The stored samples of a row-strip payload and its row count: indices
/// (palette required) unpacked one per byte, or direct-color rows. Once
/// its filters are undone the payload must hold whole rows.
pub open spec fn strip_rows_spec(v: DecView, payload: Seq<u8>) -> Result<(Seq<u8>, nat), CafeError> {
    let hd = v.header;
    if hd.color_type == COLOR_TYPE_INDEXED {
        if v.palette is None {
            Err(CafeError::TruncatedFile("Color type=3 requires PLTE chunk before first IDAT"))
        } else {
            match tile_filters_spec(v, payload, 1) {
                Err(e) => Err(e),
                Ok((packed, th)) => if packed.len() != th * hd.bytes_per_row {
                    Err(CafeError::TruncatedFile("row strip is not whole rows"))
                } else {
                    match index_rows_spec(packed, hd.bit_depth, hd.width->0 as nat, hd.bytes_per_row as nat, th) {
                        Err(e) => Err(e),
                        Ok(ix) => Ok((ix, th)),
                    }
                },
            }
        }
    } else {
        match bytes_per_pixel_spec(hd.color_type, hd.bit_depth) {
            None => Err(CafeError::UnsupportedFeature("color type and bit depth not supported together", None)),
            Some(bpp) => match tile_filters_spec(v, payload, bpp as nat) {
                Err(e) => Err(e),
                Ok((raw, th)) => if raw.len() != th * hd.bytes_per_row {
                    Err(CafeError::TruncatedFile("row strip is not whole rows"))
                } else {
                    Ok((raw, th))
                },
            },
        }
    }
}

/// A row-strip payload as a tile starting at row `y0`, and the next tile's
/// first row: the strip may not reach past the image's height.
pub open spec fn row_strip_tile_spec(v: DecView, y0: nat, payload: Seq<u8>) -> Result<(nat, TileView), CafeError> {
    let hd = v.header;
    if v.idim is Some || hd.interlace_method_read != INTERLACE_NONE {
        Err(CafeError::UnsupportedFeature("row strips need no iDIM and no interlacing", None))
    } else if hd.width is None || hd.height is None {
        Err(CafeError::MissingIhdr)
    } else {
        let w = hd.width->0;
        let h = hd.height->0;
        match strip_rows_spec(v, payload) {
            Err(e) => Err(e),
            Ok((raw, th)) => if y0 + th > usize::MAX || y0 + th > h {
                Err(CafeError::TruncatedFile("row strip extends past the image height"))
            } else {
                match raw_to_rgba_spec(raw, w, th as u32, hd.color_type, hd.bit_depth, hd.sample_format, v.palette) {
                    Err(e) => Err(e),
                    Ok(px) => Ok(((y0 + th) as nat, TileView { x: 0, y: y0 as u32, width: w, height: th as u32, pixels: px })),
                }
            },
        }
    }
}

/// Whether `len` bytes are exactly `rows` rows of `bpr` bytes.
fn whole_rows(len: usize, rows: usize, bpr: usize) -> (b: bool)
    ensures b == (len == rows * bpr),
{
    assert((rows as u128) * (bpr as u128) <= u128::MAX) by (nonlinear_arith)
        requires rows <= usize::MAX, bpr <= usize::MAX, usize::MAX <= u64::MAX;
    (len as u128) == (rows as u128) * (bpr as u128)
}

/// Decodes a row-strip payload into a tile starting at row `y0`; returns
/// the next tile's first row and the tile.
pub fn decode_idat_as_tile_row_strip(state: &DecoderState, y0: usize, payload: Vec<u8>) -> (r: Result<(usize, Tile), CafeError>)
    requires header_inv(state.header),
    ensures
        match row_strip_tile_spec(state@, y0 as nat, payload@) {
            Ok((y, t)) => r matches Ok((y2, tile)) && y2 == y && tile@ == t,
            Err(e) => r matches Err(e2) && e2 == e,
        },
{
    if state.idim.is_some() || state.header.interlace_method_read != INTERLACE_NONE {
        return Err(CafeError::UnsupportedFeature("row strips need no iDIM and no interlacing", None));
    }
    let w = match state.header.width {
        Some(w) => w,
        None => return Err(CafeError::MissingIhdr),
    };
    let h = match state.header.height {
        Some(h) => h,
        None => return Err(CafeError::MissingIhdr),
    };
    let ct = state.header.color_type;
    let bd = state.header.bit_depth;
    let (raw, th) = if ct == COLOR_TYPE_INDEXED {
        if state.palette.is_none() {
            return Err(CafeError::TruncatedFile("Color type=3 requires PLTE chunk before first IDAT"));
        }
        let (packed, th) = match undo_tile_filters(state, payload, 1) {
            Ok(x) => x,
            Err(e) => return Err(e),
        };
        if !whole_rows(packed.len(), th, state.header.bytes_per_row) {
            return Err(CafeError::TruncatedFile("row strip is not whole rows"));
        }
        let ix = match unpack_index_rows(packed.as_slice(), bd, w as usize, state.header.bytes_per_row, th) {
            Ok(ix) => ix,
            Err(e) => return Err(e),
        };
        (ix, th)
    } else {
        let bpp = match bytes_per_pixel(ct, bd) {
            Some(b) => b,
            None => return Err(CafeError::UnsupportedFeature("color type and bit depth not supported together", None)),
        };
        let (raw, th) = match undo_tile_filters(state, payload, bpp) {
            Ok(x) => x,
            Err(e) => return Err(e),
        };
        if !whole_rows(raw.len(), th, state.header.bytes_per_row) {
            return Err(CafeError::TruncatedFile("row strip is not whole rows"));
        }
        (raw, th)
    };
    if th > usize::MAX - y0 || y0 + th > h as usize {
        return Err(CafeError::TruncatedFile("row strip extends past the image height"));
    }
    let pixels = match convert_raw_to_rgba(raw.as_slice(), w, th as u32, ct, bd, state.header.sample_format, &state.palette) {
        Ok(p) => p,
        Err(e) => return Err(e),
    };
    Ok((y0 + th, Tile { x: 0, y: y0 as u32, width: w, height: th as u32, pixels }))
}

/// A 2D-tile payload as a tile at its place in the grid, with the state
/// after it (one more tile seen).
pub open spec fn idim_tile_spec(v: DecView, payload: Seq<u8>) -> Result<(DecView, TileView), CafeError> {
    match v.idim {
        None => Err(CafeError::TruncatedFile("iDIM tile handler invoked without iDIM chunk")),
        Some(d) => match idim_tile_raw_spec(v, payload) {
            Err(e) => Err(e),
            Ok((v2, (tx, ty, tw, th, raw))) => match raw_to_rgba_spec(raw, tw as u32, th as u32, v.header.color_type, v.header.bit_depth,
                v.header.sample_format, v.palette) {
                Err(e) => Err(e),
                Ok(px) => Ok((v2, TileView {
                    x: (tx * d.tile_width) as u32,
                    y: (ty * d.tile_height) as u32,
                    width: tw as u32,
                    height: th as u32,
                    pixels: px,
                })),
            },
        },
    }
}

/// Decodes a 2D-tile payload into a tile at its place in the grid.
pub fn decode_idat_as_tile_idim(state: &mut DecoderState, payload: Vec<u8>) -> (r: Result<Tile, CafeError>)
    requires header_inv(old(state).header),
    ensures
        final(state).header == old(state).header,
        match idim_tile_spec(old(state)@, payload@) {
            Ok((v, t)) => r matches Ok(tile) && tile@ == t && final(state)@ == v,
            Err(e) => r matches Err(e2) && e2 == e,
        },
{
    let d = match state.idim {
        Some(d) => d,
        None => return Err(CafeError::TruncatedFile("iDIM tile handler invoked without iDIM chunk")),
    };
    let ghost v0 = state@;
    let (tx, ty, tw, th, raw) = match decode_idim_tile_raw(state, payload) {
        Ok(x) => x,
        Err(e) => return Err(e),
    };
    assert(state@.palette == v0.palette);
    let pixels = match convert_raw_to_rgba(raw.as_slice(), tw, th, state.header.color_type, state.header.bit_depth,
        state.header.sample_format, &state.palette) {
        Ok(p) => p,
        Err(e) => return Err(e),
    };
    assert(tx * d.tile_width <= 0xffff * 0xffff) by (nonlinear_arith) requires tx <= 0xffff, d.tile_width <= 0xffff;
    assert(ty * d.tile_height <= 0xffff * 0xffff) by (nonlinear_arith) requires ty <= 0xffff, d.tile_height <= 0xffff;
    let x = tx as u32 * d.tile_width as u32;
    let y = ty as u32 * d.tile_height as u32;
    Ok(Tile { x, y, width: tw, height: th, pixels })
}

// ---------------------------------------------------------------------------
// The decoder
// ---------------------------------------------------------------------------

/// The decoder before any chunk.
pub open spec fn fresh_stream() -> StreamView {
    StreamView {
        state: initial_view(),
        info: None,
        pending_idat: None,
        finished: false,
        rows_seen: 0,
        ihdr_seen: false,
    }
}

/// Checks the 9-byte signature.
pub fn check_signature(sig: &[u8; 9]) -> (r: Result<(), CafeError>)
    ensures
        r is Ok <==> sig@ == SIGNATURE@,
        r is Err ==> r == Err::<(), CafeError>(CafeError::InvalidSignature),
{
    let mut k: usize = 0;
    while k < 9
        invariant k <= 9, forall|j: int| 0 <= j < k ==> sig@[j] == SIGNATURE@[j],
        decreases 9 - k,
    {
        if sig[k] != SIGNATURE[k] {
            return Err(CafeError::InvalidSignature);
        }
        k += 1;
    }
    assert(sig@ =~= SIGNATURE@);
    Ok(())
}

/// What one chunk does while the header chunks are read: `IHDR` sets up
/// the image, the first `IDAT` is kept for the first tile and ends the
/// header, `IEND` ends the file, any other chunk is handled as it comes.
/// The flag says whether the header is done.
pub open spec fn info_chunk_spec(s: StreamView, t: Seq<u8>, flag: u8, data: Seq<u8>) -> Result<(StreamView, bool), CafeError> {
    if t == CHUNK_IHDR@ {
        let (res, hd) = ihdr_step(s.state.header, data);
        match res {
            Err(e) => Err(e),
            Ok(_) => Ok((StreamView { state: DecView { header: hd, ..s.state }, ihdr_seen: true, ..s }, false)),
        }
    } else if t == CHUNK_IDAT@ {
        Ok((StreamView { pending_idat: Some((flag, data)), ..s }, true))
    } else if t == CHUNK_IEND@ {
        Ok((StreamView { finished: true, ..s }, true))
    } else {
        match ancillary_step(s.state, t, flag, data) {
            Err(e) => Err(e),
            Ok(v) => Ok((StreamView { state: v, ..s }, false)),
        }
    }
}

/// What the header chunks tell: refused without `IHDR`.
pub open spec fn info_of(s: StreamView) -> Result<DecodeInfo, CafeError> {
    let hd = s.state.header;
    if !s.ihdr_seen || hd.width is None || hd.height is None {
        Err(CafeError::MissingIhdr)
    } else {
        Ok(DecodeInfo {
            width: hd.width->0,
            height: hd.height->0,
            color_type: hd.color_type,
            bit_depth: hd.bit_depth,
            sample_format: hd.sample_format,
            supports_streaming_tiles: hd.interlace_method_read == INTERLACE_NONE
                && (s.state.idim is None || (hd.color_type != COLOR_TYPE_INDEXED && hd.bit_depth >= 8)),
        })
    }
}

/// The decoder after the payload of an `IDAT` becomes a tile, and the tile.
pub open spec fn tile_from_idat_spec(s: StreamView, flag: u8, data: Seq<u8>) -> Result<(StreamView, TileView), CafeError> {
    match idat_unpack_step(s.state, flag, data) {
        Err(e) => Err(e),
        Ok((v1, d)) => if v1.idim is Some {
            match idim_tile_spec(v1, d) {
                Err(e) => Err(e),
                Ok((v2, t)) => Ok((StreamView { state: v2, ..s }, t)),
            }
        } else {
            match row_strip_tile_spec(v1, s.rows_seen, d) {
                Err(e) => Err(e),
                Ok((y, t)) => Ok((StreamView { state: v1, rows_seen: y, ..s }, t)),
            }
        },
    }
}

/// The start of asking for the next tile: refused before the header is
/// read or when the file cannot be read tile by tile; nothing more after
/// `IEND`; the kept first `IDAT` when there is one; otherwise (`None`) a
/// chunk is needed.
pub open spec fn next_tile_begin_spec(s: StreamView) -> Result<(StreamView, Option<Option<TileView>>), CafeError> {
    match s.info {
        None => Err(CafeError::UnsupportedFeature("next_tile called before read_info", None)),
        Some(info) => if !info.supports_streaming_tiles {
            Err(CafeError::UnsupportedFeature("tiles cannot be streamed for this file (interlaced, or iDIM with indexed color or bit depth below 8)", None))
        } else if s.finished {
            Ok((s, Some(None)))
        } else {
            match s.pending_idat {
                Some((f, d)) => match tile_from_idat_spec(StreamView { pending_idat: None, ..s }, f, d) {
                    Err(e) => Err(e),
                    Ok((s2, t)) => Ok((s2, Some(Some(t)))),
                },
                None => Ok((s, None)),
            }
        },
    }
}

/// A chunk read while looking for the next tile: an `IDAT` gives the tile,
/// `IEND` ends the file (no more tiles), any other chunk is handled and
/// another is needed (`None`).
pub open spec fn next_tile_chunk_spec(s: StreamView, t: Seq<u8>, flag: u8, data: Seq<u8>) -> Result<(StreamView, Option<Option<TileView>>), CafeError> {
    if t == CHUNK_IDAT@ {
        match tile_from_idat_spec(s, flag, data) {
            Err(e) => Err(e),
            Ok((s2, tile)) => Ok((s2, Some(Some(tile)))),
        }
    } else if t == CHUNK_IEND@ {
        Ok((StreamView { finished: true, ..s }, Some(None)))
    } else {
        match ancillary_step(s.state, t, flag, data) {
            Err(e) => Err(e),
            Ok(v) => Ok((StreamView { state: v, ..s }, None)),
        }
    }
}

/// A chunk read while draining the file at the end: image data is
/// decompressed within the budget and dropped, `IEND` ends the file, any
/// other chunk is handled.
pub open spec fn finish_chunk_spec(s: StreamView, t: Seq<u8>, flag: u8, data: Seq<u8>) -> Result<StreamView, CafeError> {
    if t == CHUNK_IDAT@ {
        match idat_unpack_step(s.state, flag, data) {
            Err(e) => Err(e),
            Ok((v, _)) => Ok(StreamView { state: v, ..s }),
        }
    } else if t == CHUNK_IEND@ {
        Ok(StreamView { finished: true, ..s })
    } else {
        match ancillary_step(s.state, t, flag, data) {
            Err(e) => Err(e),
            Ok(v) => Ok(StreamView { state: v, ..s }),
        }
    }
}

impl Decoder {
    /// A decoder before any chunk.
    pub fn new() -> (d: Decoder)
        ensures d@ == fresh_stream(), header_inv(d.state.header),
    {
        Decoder {
            state: DecoderState::new(),
            info: None,
            pending_idat: None,
            finished: false,
            rows_seen: 0,
            ihdr_seen: false,
        }
    }

    /// The header chunks are read only once: refused after they were.
    pub fn check_read_info(&self) -> (r: Result<(), CafeError>)
        ensures
            r is Ok <==> self.info is None,
            r is Err ==> r == Err::<(), CafeError>(CafeError::UnsupportedFeature("read_info already called", None)),
    {
        if self.info.is_some() {
            Err(CafeError::UnsupportedFeature("read_info already called", None))
        } else {
            Ok(())
        }
    }

    /// Handles one chunk read before the first image-data chunk, as
    /// `info_chunk_spec` says; true when the header is done.
    pub fn read_info_chunk(&mut self, t: &[u8; 4], flag: u8, data: Vec<u8>) -> (r: Result<bool, CafeError>)
        requires header_inv(old(self).state.header),
        ensures
            header_inv(final(self).state.header),
            match info_chunk_spec(old(self)@, t@, flag, data@) {
                Ok((s, done)) => r == Ok::<bool, CafeError>(done) && final(self)@ == s,
                Err(e) => r == Err::<bool, CafeError>(e),
            },
    {
        proof {
            lemma_ihdr_depth(self.state.header, data@);
        }
        if same_type(t, &CHUNK_IHDR) {
            match handle_ihdr_chunk(&mut self.state.header, data.as_slice()) {
                Ok(()) => {},
                Err(e) => return Err(e),
            }
            self.ihdr_seen = true;
            Ok(false)
        } else if same_type(t, &CHUNK_IDAT) {
            self.pending_idat = Some((flag, data));
            Ok(true)
        } else if same_type(t, &CHUNK_IEND) {
            self.finished = true;
            Ok(true)
        } else {
            match dispatch_ancillary_chunk(&mut self.state, t, flag, data.as_slice()) {
                Ok(()) => Ok(false),
                Err(e) => Err(e),
            }
        }
    }

    /// Ends the reading of the header chunks: what they say of the image,
    /// as `info_of` says; kept, so that tiles can be asked for.
    pub fn read_info_result(&mut self) -> (r: Result<DecodeInfo, CafeError>)
        ensures
            match info_of(old(self)@) {
                Ok(info) => r == Ok::<DecodeInfo, CafeError>(info) && final(self)@ == (StreamView { info: Some(info), ..old(self)@ }),
                Err(e) => r == Err::<DecodeInfo, CafeError>(e) && final(self)@ == old(self)@,
            },
            final(self).state.header == old(self).state.header,
    {
        if !self.ihdr_seen {
            return Err(CafeError::MissingIhdr);
        }
        let width = match self.state.header.width {
            Some(w) => w,
            None => return Err(CafeError::MissingIhdr),
        };
        let height = match self.state.header.height {
            Some(h) => h,
            None => return Err(CafeError::MissingIhdr),
        };
        let hd = self.state.header;
        let supports = hd.interlace_method_read == INTERLACE_NONE
            && (self.state.idim.is_none() || (hd.color_type != COLOR_TYPE_INDEXED && hd.bit_depth >= 8));
        let info = DecodeInfo {
            width,
            height,
            color_type: hd.color_type,
            bit_depth: hd.bit_depth,
            sample_format: hd.sample_format,
            supports_streaming_tiles: supports,
        };
        self.info = Some(info);
        Ok(info)
    }

    /// Decompresses the payload of an `IDAT` and decodes it into a tile, as
    /// `tile_from_idat_spec` says.
    fn decode_idat_chunk_as_tile(&mut self, flag: u8, data: &[u8]) -> (r: Result<Tile, CafeError>)
        requires header_inv(old(self).state.header),
        ensures
            final(self).state.header == old(self).state.header,
            match tile_from_idat_spec(old(self)@, flag, data@) {
                Ok((s, t)) => r matches Ok(tile) && tile@ == t && final(self)@ == s,
                Err(e) => r matches Err(e2) && e2 == e,
            },
    {
        let d = match decompress_idat_payload(&mut self.state, flag, data) {
            Ok(d) => d,
            Err(e) => return Err(e),
        };
        if self.state.idim.is_some() {
            decode_idat_as_tile_idim(&mut self.state, d)
        } else {
            match decode_idat_as_tile_row_strip(&self.state, self.rows_seen, d) {
                Ok((y, tile)) => {
                    self.rows_seen = y;
                    Ok(tile)
                },
                Err(e) => Err(e),
            }
        }
    }

    /// Starts asking for the next tile, as `next_tile_begin_spec` says.
    pub fn next_tile_begin(&mut self) -> (r: Result<Option<Option<Tile>>, CafeError>)
        requires header_inv(old(self).state.header),
        ensures
            header_inv(final(self).state.header),
            match next_tile_begin_spec(old(self)@) {
                Ok((s, None)) => r matches Ok(None) && final(self)@ == s,
                Ok((s, Some(None))) => r matches Ok(Some(None)) && final(self)@ == s,
                Ok((s, Some(Some(t)))) => r matches Ok(Some(Some(tile))) && tile@ == t && final(self)@ == s,
                Err(e) => r matches Err(e2) && e2 == e,
            },
    {
        let supports = match &self.info {
            None => return Err(CafeError::UnsupportedFeature("next_tile called before read_info", None)),
            Some(info) => info.supports_streaming_tiles,
        };
        if !supports {
            return Err(CafeError::UnsupportedFeature("tiles cannot be streamed for this file (interlaced, or iDIM with indexed color or bit depth below 8)", None));
        }
        if self.finished {
            return Ok(Some(None));
        }
        let mut pending: Option<(u8, Vec<u8>)> = None;
        std::mem::swap(&mut pending, &mut self.pending_idat);
        match pending {
            Some((flag, data)) => match self.decode_idat_chunk_as_tile(flag, data.as_slice()) {
                Ok(tile) => Ok(Some(Some(tile))),
                Err(e) => Err(e),
            },
            None => Ok(None),
        }
    }

    /// Handles a chunk read while looking for the next tile, as
    /// `next_tile_chunk_spec` says.
    pub fn next_tile_chunk(&mut self, t: &[u8; 4], flag: u8, data: &[u8]) -> (r: Result<Option<Option<Tile>>, CafeError>)
        requires header_inv(old(self).state.header),
        ensures
            header_inv(final(self).state.header),
            match next_tile_chunk_spec(old(self)@, t@, flag, data@) {
                Ok((s, None)) => r matches Ok(None) && final(self)@ == s,
                Ok((s, Some(None))) => r matches Ok(Some(None)) && final(self)@ == s,
                Ok((s, Some(Some(tile)))) => r matches Ok(Some(Some(t2))) && t2@ == tile && final(self)@ == s,
                Err(e) => r matches Err(e2) && e2 == e,
            },
    {
        if same_type(t, &CHUNK_IDAT) {
            match self.decode_idat_chunk_as_tile(flag, data) {
                Ok(tile) => Ok(Some(Some(tile))),
                Err(e) => Err(e),
            }
        } else if same_type(t, &CHUNK_IEND) {
            self.finished = true;
            Ok(Some(None))
        } else {
            match dispatch_ancillary_chunk(&mut self.state, t, flag, data) {
                Ok(()) => Ok(None),
                Err(e) => Err(e),
            }
        }
    }

    /// Draining the file needs its header: refused with `MissingIhdr` until
    /// an `IHDR` chunk was read.
    pub fn check_finish(&self) -> (r: Result<(), CafeError>)
        ensures
            r is Ok <==> self.ihdr_seen,
            r is Err ==> r == Err::<(), CafeError>(CafeError::MissingIhdr),
    {
        if self.ihdr_seen {
            Ok(())
        } else {
            Err(CafeError::MissingIhdr)
        }
    }

    /// `IEND` was seen.
    pub fn is_finished(&self) -> (r: bool)
        ensures r == self.finished,
    {
        self.finished
    }

    /// Handles a chunk read while draining the file, as `finish_chunk_spec`
    /// says.
    pub fn finish_chunk(&mut self, t: &[u8; 4], flag: u8, data: &[u8]) -> (r: Result<(), CafeError>)
        requires header_inv(old(self).state.header),
        ensures
            header_inv(final(self).state.header),
            match finish_chunk_spec(old(self)@, t@, flag, data@) {
                Ok(s) => r is Ok && final(self)@ == s,
                Err(e) => r == Err::<(), CafeError>(e),
            },
    {
        if same_type(t, &CHUNK_IDAT) {
            match decompress_idat_payload(&mut self.state, flag, data) {
                Ok(_) => Ok(()),
                Err(e) => Err(e),
            }
        } else if same_type(t, &CHUNK_IEND) {
            self.finished = true;
            Ok(())
        } else {
            dispatch_ancillary_chunk(&mut self.state, t, flag, data)
        }
    }

    /// What the file declared besides its pixels, once drained: refused
    /// without an image size.
    pub fn finish_result(self) -> (r: Result<DecodeResult, CafeError>)
        ensures
            match r {
                Ok(res) => result_matches(res, self.state@),
                Err(e) => (self.state.header.width is None || self.state.header.height is None) && e == CafeError::MissingIhdr,
            },
    {
        let width = match self.state.header.width {
            Some(w) => w,
            None => return Err(CafeError::MissingIhdr),
        };
        let height = match self.state.header.height {
            Some(h) => h,
            None => return Err(CafeError::MissingIhdr),
        };
        let state = self.state;
        let stats = if state.chunk_stats.len() == 0 {
            None
        } else {
            let (o, c) = stats_totals(&state.chunk_stats);
            Some(CompressionStats { total_original: o, total_compressed: c, chunks: state.chunk_stats })
        };
        Ok(DecodeResult {
            width,
            height,
            color_type: state.header.color_type,
            bit_depth: state.header.bit_depth,
            sample_format: state.header.sample_format,
            exif: state.exif,
            json_metadata: state.json_metadata,
            compression_stats: stats,
            icc_profile: state.icc_profile,
            xmp_metadata: state.xmp_metadata,
            zstd_dictionary: state.zstd_dictionary,
            chdr_metadata: state.chdr,
        })
    }
}


// ---------------------------------------------------------------------------
// The streamed header against the whole-file decode
// ---------------------------------------------------------------------------

/// The decoder fed the chunks of `buf` from `offset`, one after another, as
/// `read_info_chunk` takes them, until the header is done: the state then,
/// or the first error (the buffer ending first is a truncated file).
pub open spec fn stream_header_walk(buf: Seq<u8>, offset: nat, s: StreamView) -> Result<StreamView, CafeError>
    decreases buf.len() - offset,
{
    if offset >= buf.len() {
        Err(CafeError::TruncatedFile("stream ended before IEND"))
    } else {
        match read_chunk_spec(buf, offset) {
            Err(e) => Err(e),
            Ok((t, flag, data, next)) => match info_chunk_spec(s, t, flag, data) {
                Err(e) => Err(e),
                Ok((s2, done)) => if done {
                    Ok(s2)
                } else if next <= offset {
                    Err(CafeError::TruncatedFile("chunk does not advance"))
                } else {
                    proof {
                        lemma_read_chunk_end(buf, offset);
                    }
                    stream_header_walk(buf, next, s2)
                },
            },
        }
    }
}

/// What the streaming decoder's `read_info` tells of `buf`: the signature
/// is checked, then the header chunks are read.
pub open spec fn stream_info_spec(buf: Seq<u8>) -> Result<DecodeInfo, CafeError> {
    if buf.len() < 9 {
        Err(CafeError::TruncatedFile("file shorter than the signature"))
    } else if buf.subrange(0, 9) != SIGNATURE@ {
        Err(CafeError::InvalidSignature)
    } else {
        match stream_header_walk(buf, 9, fresh_stream()) {
            Err(e) => Err(e),
            Ok(s) => info_of(s),
        }
    }
}

/// Two headers describe the same image in the same layout.
pub open spec fn same_layout(a: DecodeState, b: DecodeState) -> bool {
    &&& same_image(a, b)
    &&& a.sample_format == b.sample_format
    &&& a.interlace_method_read == b.interlace_method_read
}

proof fn lemma_step_keeps_layout(v: DecView, t: Seq<u8>, flag: u8, data: Seq<u8>)
    requires v.header.width is Some, chunk_step(v, t, flag, data) is Ok,
    ensures same_layout(chunk_step(v, t, flag, data)->Ok_0.header, v.header),
{
    reveal(chunk_step);
}

proof fn lemma_walk_keeps_layout(buf: Seq<u8>, offset: nat, v: DecView)
    requires v.header.width is Some, walk(buf, offset, v) is Ok,
    ensures same_layout(walk(buf, offset, v)->Ok_0.header, v.header),
    decreases buf.len() - offset,
{
    if offset < buf.len() {
        if let Ok((t, flag, data, next)) = read_chunk_spec(buf, offset) {
            if t != CHUNK_IEND@ {
                lemma_step_keeps_layout(v, t, flag, data);
                let v2 = chunk_step(v, t, flag, data)->Ok_0;
                lemma_read_chunk_end(buf, offset);
                if next > offset {
                    lemma_walk_keeps_layout(buf, next, v2);
                }
            }
        }
    }
}

proof fn lemma_header_walk_agrees(buf: Seq<u8>, offset: nat, s: StreamView)
    requires
        stream_header_walk(buf, offset, s) is Ok,
        stream_header_walk(buf, offset, s)->Ok_0.state.header.width is Some,
        walk(buf, offset, s.state) is Ok,
    ensures
        same_layout(walk(buf, offset, s.state)->Ok_0.header, stream_header_walk(buf, offset, s)->Ok_0.state.header),
    decreases buf.len() - offset,
{
    reveal(chunk_step);
    let (t, flag, data, next) = read_chunk_spec(buf, offset)->Ok_0;
    lemma_read_chunk_end(buf, offset);
    assert(CHUNK_IDAT@ != CHUNK_IEND@) by { assert(CHUNK_IDAT@[1] != CHUNK_IEND@[1]); }
    assert(CHUNK_IHDR@ != CHUNK_IEND@) by { assert(CHUNK_IHDR@[1] != CHUNK_IEND@[1]); }
    assert(CHUNK_IHDR@ != CHUNK_IDAT@) by { assert(CHUNK_IHDR@[2] != CHUNK_IDAT@[2]); }
    if t == CHUNK_IDAT@ {
        lemma_step_keeps_layout(s.state, t, flag, data);
        lemma_walk_keeps_layout(buf, next, chunk_step(s.state, t, flag, data)->Ok_0);
    } else if t != CHUNK_IEND@ {
        let s2 = info_chunk_spec(s, t, flag, data)->Ok_0.0;
        assert(chunk_step(s.state, t, flag, data) == Ok::<DecView, CafeError>(s2.state));
        lemma_header_walk_agrees(buf, next, s2);
    }
}

/// The streamed header is the whole file's: when `read_info` and
/// `decode_bytes` both succeed on `buf`, they report the same size, color
/// type, bit depth and sample format.
pub proof fn lemma_stream_info_matches_decode(buf: Seq<u8>)
    ensures
        stream_info_spec(buf) is Ok && decode_spec(buf) is Ok ==> {
            let info = stream_info_spec(buf)->Ok_0;
            let v = decode_spec(buf)->Ok_0.1;
            &&& v.header.width == Some(info.width)
            &&& v.header.height == Some(info.height)
            &&& v.header.color_type == info.color_type
            &&& v.header.bit_depth == info.bit_depth
            &&& v.header.sample_format == info.sample_format
        },
{
    if stream_info_spec(buf) is Ok && decode_spec(buf) is Ok {
        let s = stream_header_walk(buf, 9, fresh_stream())->Ok_0;
        assert(fresh_stream().state == initial_view());
        assert(s.state.header.width is Some);
        lemma_header_walk_agrees(buf, 9, fresh_stream());
    }
}

} // verus!
