//! Whole files from RGBA pixels: through a palette (indexed color), or
//! converted to the color type the options ask for.

use vstd::prelude::*;

use crate::ancillary::{plte_payload, write_plte_chunk};
use crate::bytes::append_bytes;
use crate::chunk::{chunk_bytes, write_chunk};
use crate::codec::{compress_with_fallback_spec, opt_bytes};
use crate::color::{
    bytes_per_row_for_bit_depth, convert_rgba_to_color_type, pack_indices_row, pack_row_spec, packable_depth, rgba_to_color_type_spec,
    row_bytes,
};
use crate::constants::{
    CHUNK_IHDR, CHUNK_PLTE, COLOR_TYPE_INDEXED, COLOR_TYPE_RGBA, COMPRESSION_METHOD_ZSTD_BIT, FILTER_METHOD_NONE,
    FILTER_METHOD_PREDICTIVE, FILTER_METHOD_PREDICTIVE_PER_ROW, FLAG_RAW, INTERLACE_ADAM7, INTERLACE_EVEN_ODD, INTERLACE_NONE,
    SAMPLE_FORMAT_UINT, SIGNATURE,
};
use crate::encode::{
    append_common_metadata_chunks, append_zdic_chunk_if_present, build_interlaced_idats, build_row_tiled_idats, encode_raw, encode_raw_spec,
    iend_chunk, ihdr_chunk_spec, interlaced_idats, is_interlaced, json_views, lemma_patched_ihdr, metadata_chunks, opt_slice,
    opt_vec, patch_ihdr_compression_method, row_tile_count, row_tile_idats, zdic_part, EncodeOptions, TileFilter,
};
use crate::error::CafeError;
use crate::filter::FilterHeuristic;
use crate::header::build_ihdr_payload;
use crate::indexed::{dequantize_from_palette, dequantize_spec, lemma_one_index_per_pixel, quantize_to_palette, quantize_to_palette_spec};
use crate::palette::{palette_bit_depth_spec, Palette, PaletteEntry};
use crate::decode::decode_spec;
use crate::meta_roundtrip::meta_reported;
use crate::roundtrip::{decodes_to, lemma_rgba8_pixels, raw_roundtrip, reports_image, stored_rows, idat_payloads_ok};

verus! {

// ---------------------------------------------------------------------------
// Indexed color
// ---------------------------------------------------------------------------

/// The `IHDR` filter method of an indexed file (byte-shuffle is refused).
pub open spec fn indexed_filter_method(o: EncodeOptions) -> u8 {
    if o.use_filter && o.use_filter_per_row {
        FILTER_METHOD_PREDICTIVE_PER_ROW
    } else if o.use_filter {
        FILTER_METHOD_PREDICTIVE
    } else {
        FILTER_METHOD_NONE
    }
}

/// The first `k` rows of `w` indices each, packed at `bd` bits.
pub open spec fn index_rows(ix: Seq<u8>, w: nat, bd: u8, k: nat) -> Result<Seq<u8>, CafeError>
    decreases k,
{
    if k == 0 {
        Ok(Seq::empty())
    } else {
        match index_rows(ix, w, bd, (k - 1) as nat) {
            Err(e) => Err(e),
            Ok(acc) => match pack_row_spec(ix.subrange((k - 1) * w, (k * w) as int), bd, w) {
                Err(e) => Err(e),
                Ok(p) => Ok(acc + p),
            },
        }
    }
}

/// How the packed index rows are filtered: as the options say, without
/// byte-shuffle.
pub open spec fn indexed_tile_filter(o: EncodeOptions) -> TileFilter {
    TileFilter {
        use_byte_shuffle: false,
        use_filter: o.use_filter,
        use_filter_per_row: o.use_filter_per_row,
        heuristic: o.filter_heuristic,
        level: o.level,
    }
}

/// The `IDAT`s of an indexed image: interlaced, the passes of its RGBA
/// pixels; otherwise row tiles of packed indices (one byte per unit for
/// the filter).
#[verifier::opaque]
pub open spec fn indexed_idats(ix: Seq<u8>, entries: Seq<PaletteEntry>, w: u32, h: u32, bd: u8, o: EncodeOptions)
    -> Result<(Seq<u8>, bool, bool), CafeError>
{
    if is_interlaced(o.interlace_method) {
        interlaced_idats(o.interlace_method, dequantize_spec(ix, entries), w, h, o.level, opt_vec(o.zstd_dictionary))
    } else {
        match index_rows(ix, w as nat, bd, h as nat) {
            Err(e) => Err(e),
            Ok(packed) => row_tile_idats(packed, h as nat, o.tile_rows as nat, row_bytes(w as nat, bd as nat), 1, w,
                indexed_tile_filter(o), opt_vec(o.zstd_dictionary), row_tile_count(h as nat, o.tile_rows as nat)),
        }
    }
}

/// The `PLTE` chunk of a palette.
pub open spec fn plte_chunk_spec(entries: Seq<PaletteEntry>, has_alpha: bool, level: i32) -> Result<Seq<u8>, CafeError> {
    match compress_with_fallback_spec(plte_payload(entries, has_alpha), level) {
        Err(e) => Err(e),
        Ok((flag, data)) => Ok(chunk_bytes(CHUNK_PLTE@, flag, data)),
    }
}

/// The `PLTE` chunk, written only when the file stores indices.
#[verifier::opaque]
pub open spec fn plte_part(interlaced: bool, entries: Seq<PaletteEntry>, has_alpha: bool, level: i32) -> Result<Seq<u8>, CafeError> {
    if interlaced { Ok(Seq::empty()) } else { plte_chunk_spec(entries, has_alpha, level) }
}

/// The option checks of the indexed encoder once the palette is built: a
/// palette of 1 to 256 entries, no byte-shuffle, and the per-row filter
/// only with the sum of residuals and without interlace.
pub open spec fn indexed_option_error(n_entries: nat, o: EncodeOptions) -> bool {
    n_entries == 0 || n_entries > 256 || o.use_byte_shuffle
        || (o.use_filter && o.use_filter_per_row && (o.filter_heuristic != FilterHeuristic::Msad || o.interlace_method != INTERLACE_NONE))
}

/// The `eXIF`, `jSON`, `iCCP` and `xMPd` chunks the options carry.
#[verifier::opaque]
pub open spec fn options_metadata(o: EncodeOptions) -> Result<(Seq<u8>, bool), CafeError> {
    metadata_chunks(opt_vec(o.exif), json_views(o.json_metadata@), opt_vec(o.icc_profile), opt_vec(o.xmp_metadata), o.level)
}

fn append_options_metadata(out: &mut Vec<u8>, o: &EncodeOptions) -> (r: Result<bool, CafeError>)
    ensures
        match options_metadata(*o) {
            Ok((c, z)) => r == Ok::<bool, CafeError>(z) && final(out)@ == old(out)@ + c,
            Err(e) => r == Err::<bool, CafeError>(e),
        },
{
    proof {
        reveal(options_metadata);
    }
    append_common_metadata_chunks(out, &o.exif, &o.json_metadata, &o.icc_profile, &o.xmp_metadata, o.level)
}

/// The indexed file once the palette is built and the options checked: the
/// signature, `IHDR` (color type 3 with the palette's bit depth, or RGBA at
/// 8 bits when interlaced), the metadata chunks, `zDIC` when a dictionary
/// is given, `PLTE` (not when interlaced), the `IDAT`s and `IEND`. The
/// compression method says whether a metadata, `zDIC` or `IDAT` chunk is
/// compressed.
#[verifier::opaque]
pub open spec fn indexed_file_spec(ix: Seq<u8>, entries: Seq<PaletteEntry>, has_alpha: bool, w: u32, h: u32, o: EncodeOptions)
    -> Result<Seq<u8>, CafeError>
{
    let bd = palette_bit_depth_spec(entries.len());
    let il = o.interlace_method;
    let interlaced = is_interlaced(il);
    let ct: u8 = if interlaced { COLOR_TYPE_RGBA } else { COLOR_TYPE_INDEXED };
    let ihdr_bd: u8 = if interlaced { 8 } else { bd };
    let dict = opt_vec(o.zstd_dictionary);
    match options_metadata(o) {
        Err(e) => Err(e),
        Ok((mc, mz)) => match indexed_idats(ix, entries, w, h, bd, o) {
            Err(e) => Err(e),
            Ok((idat, iz, _)) => match zdic_part(true, dict, o.level) {
                Err(e) => Err(e),
                Ok((zc, zz)) => match plte_part(interlaced, entries, has_alpha, o.level) {
                    Err(e) => Err(e),
                    Ok(pc) => {
                        let cm: u8 = if mz || iz || zz { COMPRESSION_METHOD_ZSTD_BIT } else { 0 };
                        Ok(SIGNATURE@ + ihdr_chunk_spec(w, h, ihdr_bd, SAMPLE_FORMAT_UINT, ct, cm, indexed_filter_method(o), il)
                            + mc + zc + pc + idat + iend_chunk())
                    },
                },
            },
        },
    }
}

/// The indexed file of a `w` x `h` RGBA image: no 2D tiling; a palette of
/// at most 256 colors built as the options say, the options checked
/// (`indexed_option_error`), then the file `indexed_file_spec` says.
pub open spec fn encode_indexed_spec(rgba: Seq<u8>, w: u32, h: u32, o: EncodeOptions) -> Result<Seq<u8>, CafeError> {
    if o.idim is Some {
        Err(CafeError::UnsupportedFeature("iDIM (2D tiling) with indexed palette not supported", None))
    } else {
        let (ix, entries, has_alpha) = quantize_to_palette_spec(rgba, 256, o.palette_algorithm);
        if indexed_option_error(entries.len(), o) {
            Err(CafeError::UnsupportedFeature("palette size or options not supported with indexed color", None))
        } else {
            indexed_file_spec(ix, entries, has_alpha, w, h, o)
        }
    }
}

proof fn lemma_indexed_layout(
    head: Seq<u8>, mc: Seq<u8>, zc: Seq<u8>, pc: Seq<u8>, idat: Seq<u8>, iend: Seq<u8>,
    after_meta: Seq<u8>, after_zdic: Seq<u8>, after_plte: Seq<u8>, all: Seq<u8>,
)
    requires
        after_meta == head + mc,
        after_zdic == after_meta + zc,
        after_plte == after_zdic + pc,
        all == after_plte + idat + iend,
    ensures all == head + (mc + zc + pc + idat + iend),
{
    assert(all =~= head + (mc + zc + pc + idat + iend));
}

proof fn lemma_index_rows_err(ix: Seq<u8>, w: nat, bd: u8, k: nat, m: nat)
    requires k <= m, index_rows(ix, w, bd, k) is Err,
    ensures index_rows(ix, w, bd, m) == index_rows(ix, w, bd, k),
    decreases m,
{
    if k < m {
        lemma_index_rows_err(ix, w, bd, k, (m - 1) as nat);
    }
}

fn pack_index_rows(ix: &[u8], width: u32, height: u32, bd: u8, bpr: usize) -> (r: Result<Vec<u8>, CafeError>)
    requires
        ix@.len() == width * height,
        packable_depth(bd),
        bpr == row_bytes(width as nat, bd as nat),
    ensures
        match index_rows(ix@, width as nat, bd, height as nat) {
            Ok(p) => r matches Ok(v) && v@ == p && p.len() == height * bpr,
            Err(e) => r == Err::<Vec<u8>, CafeError>(e),
        },
{
    let w = width as usize;
    let h = height as usize;
    let total = ix.len();
    let mut out: Vec<u8> = Vec::new();
    let mut row: usize = 0;
    while row < h
        invariant
            w == width, h == height, row <= h, total == ix@.len(),
            ix@.len() == width * height,
            packable_depth(bd),
            bpr == row_bytes(width as nat, bd as nat),
            index_rows(ix@, width as nat, bd, row as nat) == Ok::<Seq<u8>, CafeError>(out@),
            out@.len() == row * bpr,
        decreases h - row,
    {
        assert((row + 1) * w <= h * w && row * w + w == (row + 1) * w && h * w == width * height) by (nonlinear_arith)
            requires row < h, w == width, h == height;
        let s = row * w;
        let e = s + w;
        let slice = &ix[s..e];
        assert(slice@ =~= ix@.subrange(row * w, (row + 1) * w));
        let packed = match pack_indices_row(slice, bd) {
            Ok(p) => p,
            Err(err) => {
                proof {
                    lemma_index_rows_err(ix@, width as nat, bd, (row + 1) as nat, height as nat);
                }
                return Err(err);
            },
        };
        proof {
            if bd != 8 {
                assert(packed@.len() == crate::packing::packed_len(w as nat, bd as nat));
            }
            assert(packed@.len() == bpr);
            assert((row + 1) * bpr == row * bpr + bpr) by (nonlinear_arith);
        }
        append_bytes(&mut out, packed.as_slice());
        row += 1;
    }
    Ok(out)
}

fn build_indexed_idats(ix: &Vec<u8>, palette: &Palette, width: u32, height: u32, bd: u8, o: &EncodeOptions)
    -> (r: Result<(Vec<u8>, bool, bool), CafeError>)
    requires
        ix@.len() == width * height,
        ix@.len() * 4 <= usize::MAX,
        packable_depth(bd),
        o.tile_rows > 0 || is_interlaced(o.interlace_method),
    ensures
        match indexed_idats(ix@, palette.entries@, width, height, bd, *o) {
            Ok((c, z, u)) => r matches Ok((v, z2, u2)) && v@ == c && z2 == z && u2 == u,
            Err(e) => r == Err::<(Vec<u8>, bool, bool), CafeError>(e),
        },
{
    proof {
        reveal(indexed_idats);
    }
    let il = o.interlace_method;
    if il == INTERLACE_ADAM7 || il == INTERLACE_EVEN_ODD {
        let rgba = dequantize_from_palette(ix.as_slice(), palette, width, height);
        build_interlaced_idats(il, rgba.as_slice(), width, height, o.level, opt_slice(&o.zstd_dictionary))
    } else {
        let bpr = match bytes_per_row_for_bit_depth(width, bd) {
            Ok(b) => b,
            Err(e) => return Err(e),
        };
        let packed = match pack_index_rows(ix.as_slice(), width, height, bd, bpr) {
            Ok(p) => p,
            Err(e) => return Err(e),
        };
        let f = TileFilter {
            use_byte_shuffle: false,
            use_filter: o.use_filter,
            use_filter_per_row: o.use_filter_per_row,
            heuristic: o.filter_heuristic,
            level: o.level,
        };
        build_row_tiled_idats(packed.as_slice(), height, o.tile_rows, bpr, 1, width, f, opt_slice(&o.zstd_dictionary))
    }
}

fn append_plte_part(out: &mut Vec<u8>, interlaced: bool, palette: &Palette, level: i32) -> (r: Result<(), CafeError>)
    ensures
        match plte_part(interlaced, palette.entries@, palette.has_alpha, level) {
            Ok(c) => r is Ok && final(out)@ == old(out)@ + c,
            Err(e) => r == Err::<(), CafeError>(e),
        },
{
    proof {
        reveal(plte_part);
    }
    if interlaced {
        assert(old(out)@ + Seq::<u8>::empty() =~= old(out)@);
        return Ok(());
    }
    let pc = match write_plte_chunk(palette, level) {
        Ok(c) => c,
        Err(e) => return Err(e),
    };
    append_bytes(out, pc.as_slice());
    Ok(())
}

#[verifier::rlimit(100)]
#[verifier::spinoff_prover]
fn assemble_indexed(ix: &Vec<u8>, palette: &Palette, width: u32, height: u32, o: &EncodeOptions) -> (r: Result<Vec<u8>, CafeError>)
    requires
        ix@.len() == width * height,
        ix@.len() * 4 <= usize::MAX,
        1 <= palette.entries@.len() <= 256,
        o.tile_rows > 0 || is_interlaced(o.interlace_method),
    ensures
        match indexed_file_spec(ix@, palette.entries@, palette.has_alpha, width, height, *o) {
            Ok(f) => r matches Ok(v) && v@ == f,
            Err(e) => r == Err::<Vec<u8>, CafeError>(e),
        },
{
    proof {
        reveal(indexed_file_spec);
    }
    let bd = palette.bit_depth();
    let il = o.interlace_method;
    let interlaced = il == INTERLACE_ADAM7 || il == INTERLACE_EVEN_ODD;
    let fm = if o.use_filter && o.use_filter_per_row {
        FILTER_METHOD_PREDICTIVE_PER_ROW
    } else if o.use_filter {
        FILTER_METHOD_PREDICTIVE
    } else {
        FILTER_METHOD_NONE
    };
    let ct: u8 = if interlaced { COLOR_TYPE_RGBA } else { COLOR_TYPE_INDEXED };
    let ihdr_bd: u8 = if interlaced { 8 } else { bd };
    let mut out: Vec<u8> = Vec::new();
    append_bytes(&mut out, SIGNATURE.as_slice());
    let ihdr = build_ihdr_payload(width, height, ihdr_bd, SAMPLE_FORMAT_UINT, ct, 0, fm, il);
    let ihdr_c = write_chunk(&CHUNK_IHDR, FLAG_RAW, ihdr.as_slice());
    append_bytes(&mut out, ihdr_c.as_slice());
    let ghost after_ihdr = out@;
    let mz = match append_options_metadata(&mut out, o) {
        Ok(z) => z,
        Err(e) => return Err(e),
    };
    let ghost after_meta = out@;
    let (idat, iz, _used) = match build_indexed_idats(ix, palette, width, height, bd, o) {
        Ok(x) => x,
        Err(e) => return Err(e),
    };
    let zz = match append_zdic_chunk_if_present(&mut out, true, &o.zstd_dictionary, o.level) {
        Ok(z) => z,
        Err(e) => return Err(e),
    };
    let ghost after_zdic = out@;
    match append_plte_part(&mut out, interlaced, palette, o.level) {
        Ok(_) => {},
        Err(e) => return Err(e),
    }
    let ghost after_plte = out@;
    append_bytes(&mut out, idat.as_slice());
    let empty: Vec<u8> = Vec::new();
    let iend = write_chunk(&crate::constants::CHUNK_IEND, FLAG_RAW, empty.as_slice());
    append_bytes(&mut out, iend.as_slice());
    let cm: u8 = if mz || iz || zz { COMPRESSION_METHOD_ZSTD_BIT } else { 0 };
    proof {
        let mc = options_metadata(*o)->Ok_0.0;
        let zc = zdic_part(true, opt_vec(o.zstd_dictionary), o.level)->Ok_0.0;
        let pc = plte_part(interlaced, palette.entries@, palette.has_alpha, o.level)->Ok_0;
        assert(empty@ =~= Seq::<u8>::empty());
        let i0 = ihdr_chunk_spec(width, height, ihdr_bd, SAMPLE_FORMAT_UINT, ct, 0, fm, il);
        assert(after_ihdr =~= SIGNATURE@ + i0);
        lemma_indexed_layout(SIGNATURE@ + i0, mc, zc, pc, idat@, iend_chunk(), after_meta, after_zdic, after_plte, out@);
        let rest = mc + zc + pc + idat@ + iend_chunk();
        lemma_patched_ihdr(width, height, ihdr_bd, SAMPLE_FORMAT_UINT, ct, cm, fm, il, rest);
        let i1 = ihdr_chunk_spec(width, height, ihdr_bd, SAMPLE_FORMAT_UINT, ct, cm, fm, il);
        assert(SIGNATURE@ + i1 + rest =~= SIGNATURE@ + i1 + mc + zc + pc + idat@ + iend_chunk());
    }
    patch_ihdr_compression_method(&mut out, cm);
    Ok(out)
}

/// Encodes a `width` x `height` RGBA image (4 bytes per pixel, row after
/// row) through a palette of at most 256 colors: see `encode_indexed_spec`
/// for the file it writes and the errors.
pub fn encode_indexed(rgba: &[u8], width: u32, height: u32, o: &EncodeOptions) -> (r: Result<Vec<u8>, CafeError>)
    requires
        rgba@.len() == width * height * 4,
        o.tile_rows > 0 || is_interlaced(o.interlace_method),
    ensures
        match encode_indexed_spec(rgba@, width, height, *o) {
            Ok(f) => r matches Ok(v) && v@ == f,
            Err(e) => r == Err::<Vec<u8>, CafeError>(e),
        },
{
    if o.idim.is_some() {
        return Err(CafeError::UnsupportedFeature("iDIM (2D tiling) with indexed palette not supported", None));
    }
    let rl = rgba.len();
    let (indices, palette) = quantize_to_palette(rgba, width, 256, o.palette_algorithm);
    proof {
        lemma_one_index_per_pixel(rgba@, 256, o.palette_algorithm);
        assert(rgba@.len() / 4 == width * height);
        assert(indices@.len() * 4 == rgba@.len());
    }
    let n = palette.entries.len();
    if n == 0 || n > 256 {
        return Err(CafeError::UnsupportedFeature("palette size or options not supported with indexed color", None));
    }
    if o.use_byte_shuffle {
        return Err(CafeError::UnsupportedFeature("palette size or options not supported with indexed color", None));
    }
    if o.use_filter && o.use_filter_per_row {
        let msad = match o.filter_heuristic {
            FilterHeuristic::Msad => true,
            _ => false,
        };
        if !msad || o.interlace_method != INTERLACE_NONE {
            return Err(CafeError::UnsupportedFeature("palette size or options not supported with indexed color", None));
        }
    }
    assemble_indexed(&indices, &palette, width, height, o)
}

// ---------------------------------------------------------------------------
// Direct color
// ---------------------------------------------------------------------------

/// The sample format the options ask for (unsigned integers when none).
pub open spec fn sample_format_of(o: EncodeOptions) -> u8 {
    match o.sample_format {
        Some(s) => s,
        None => SAMPLE_FORMAT_UINT,
    }
}

/// The integer bit depth the options ask for (8 when none).
pub open spec fn int_depth_of(o: EncodeOptions) -> u8 {
    match o.target_bit_depth {
        Some(d) => d,
        None => 8,
    }
}

/// The file of a `w` x `h` RGBA image with integer samples: the pixels
/// converted to the color type and bit depth the options ask for, then
/// encoded as `encode_raw_spec` says. Float and half samples come from a
/// floating-point conversion that this library does not hold: for them
/// the result is `UnsupportedFeature`, and the caller converts the pixels
/// itself and hands the samples to `encode_raw`.
pub open spec fn encode_rgba_spec(rgba: Seq<u8>, w: u32, h: u32, o: EncodeOptions) -> Result<Seq<u8>, CafeError> {
    if sample_format_of(o) != SAMPLE_FORMAT_UINT {
        Err(CafeError::UnsupportedFeature("float and half samples are converted before encoding", None))
    } else {
        match rgba_to_color_type_spec(rgba, w as nat, h as nat, o.target_color_type, int_depth_of(o)) {
            Err(e) => Err(e),
            Ok(raw) => encode_raw_spec(raw, w, h, o.target_color_type, int_depth_of(o), SAMPLE_FORMAT_UINT, o),
        }
    }
}

/// Encodes a `width` x `height` RGBA image (4 bytes per pixel, row after
/// row) with integer samples, as `encode_rgba_spec` says.
pub fn encode_rgba(rgba: &[u8], width: u32, height: u32, o: &EncodeOptions) -> (r: Result<Vec<u8>, CafeError>)
    requires o.tile_rows > 0,
    ensures
        match encode_rgba_spec(rgba@, width, height, *o) {
            Ok(f) => r matches Ok(v) && v@ == f,
            Err(e) => r == Err::<Vec<u8>, CafeError>(e),
        },
        // decoding the file gives the converted samples back
        r matches Ok(bytes) ==> (raw_roundtrip(width, height, o.target_color_type, int_depth_of(*o), SAMPLE_FORMAT_UINT, *o)
            && idat_payloads_ok(rgba_to_color_type_spec(rgba@, width as nat, height as nat, o.target_color_type, int_depth_of(*o))->Ok_0,
                width, height, o.target_color_type, int_depth_of(*o), SAMPLE_FORMAT_UINT, *o)
            ==> decodes_to(bytes@,
                stored_rows(rgba_to_color_type_spec(rgba@, width as nat, height as nat, o.target_color_type, int_depth_of(*o))->Ok_0,
                    width, height, o.target_color_type, int_depth_of(*o), SAMPLE_FORMAT_UINT, *o),
                width, height, o.target_color_type, int_depth_of(*o), SAMPLE_FORMAT_UINT)),
        // and reports the metadata written
        r matches Ok(bytes) ==> (raw_roundtrip(width, height, o.target_color_type, int_depth_of(*o), SAMPLE_FORMAT_UINT, *o)
            && idat_payloads_ok(rgba_to_color_type_spec(rgba@, width as nat, height as nat, o.target_color_type, int_depth_of(*o))->Ok_0,
                width, height, o.target_color_type, int_depth_of(*o), SAMPLE_FORMAT_UINT, *o)
            ==> (decode_spec(bytes@) matches Ok((_, v)) ==> meta_reported(v, *o))),
        // kept as 8-bit RGBA, the pixels come back as they were
        r matches Ok(bytes) ==> (o.target_color_type == COLOR_TYPE_RGBA && int_depth_of(*o) == 8 && rgba@.len() == width * height * 4
            && raw_roundtrip(width, height, COLOR_TYPE_RGBA, 8, SAMPLE_FORMAT_UINT, *o)
            && idat_payloads_ok(rgba@, width, height, COLOR_TYPE_RGBA, 8, SAMPLE_FORMAT_UINT, *o)
            ==> (decode_spec(bytes@) matches Ok((px, v)) && px == rgba@
                && reports_image(v, width, height, COLOR_TYPE_RGBA, 8, SAMPLE_FORMAT_UINT))),
{
    let sf = match o.sample_format {
        Some(s) => s,
        None => SAMPLE_FORMAT_UINT,
    };
    if sf != SAMPLE_FORMAT_UINT {
        return Err(CafeError::UnsupportedFeature("float and half samples are converted before encoding", None));
    }
    let bd = match o.target_bit_depth {
        Some(d) => d,
        None => 8,
    };
    let raw = match convert_rgba_to_color_type(rgba, width, height, o.target_color_type, bd) {
        Ok(v) => v,
        Err(e) => return Err(e),
    };
    let r = encode_raw(raw.as_slice(), width, height, o.target_color_type, bd, SAMPLE_FORMAT_UINT, o);
    proof {
        if r is Ok && o.target_color_type == COLOR_TYPE_RGBA && bd == 8 && rgba@.len() == width * height * 4
            && raw_roundtrip(width, height, COLOR_TYPE_RGBA, 8, SAMPLE_FORMAT_UINT, *o)
            && idat_payloads_ok(rgba@, width, height, COLOR_TYPE_RGBA, 8, SAMPLE_FORMAT_UINT, *o) {
            assert(raw@ == rgba@);
            lemma_rgba8_pixels(rgba@, width, height, *o);
        }
    }
    r
}

} // verus!
