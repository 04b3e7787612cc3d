//! The streaming encoder: the header is produced up front, then one `IDAT`
//! per submitted tile (or per batch of interlace rows), then the end of the
//! file. Every step hands back the bytes to write; writing them is the
//! caller's business.

use vstd::prelude::*;

use crate::ancillary::{chdr_payload, div_ceil_spec, iDim, idim_payload, tile_extent, write_chdr_chunk, write_idim_chunk, ChdrFields};
use crate::bytes::append_bytes;
use crate::chunk::{chunk_bytes, crc32, crc32_of, write_chunk};
use crate::codec::opt_bytes;
use crate::color::{
    be32_bytes, bytes_per_pixel, bytes_per_pixel_spec, bytes_per_pixel_with_format, container_depth, convert_rgba_to_color_type,
    push_be32, rgba_to_color_type_spec,
};
use crate::constants::{
    CHUNK_CHDR, CHUNK_IDIM, CHUNK_IEND, CHUNK_IHDR, CHUNK_ZDIC, COLOR_TYPE_INDEXED, COLOR_TYPE_RGBA, COMPRESSION_METHOD_ZSTD_BIT,
    DEFAULT_TILE_ROWS, FILTER_METHOD_BYTE_SHUFFLE, FILTER_METHOD_NONE, FILTER_METHOD_PREDICTIVE, FILTER_METHOD_PREDICTIVE_PER_ROW,
    FLAG_RAW, INTERLACE_EVEN_ODD, INTERLACE_NONE, MAX_TILE_COUNT, SAMPLE_FORMAT_FLOAT, SAMPLE_FORMAT_HALF, SAMPLE_FORMAT_UINT,
    SIGNATURE, ZSTD_LEVEL,
};
use crate::encode::{
    append_common_metadata_chunks, append_opt_chunk, build_idat_chunk, chunk_uses_zstd, idat_chunk, iend_chunk, ihdr_chunk_spec,
    json_views, metadata_chunks, opt_chunk, opt_slice, opt_vec, packed_chunk, then_chunk, tile_payload, apply_single_tile_filter,
    TileFilter,
};
use crate::error::CafeError;
use crate::filter::FilterHeuristic;
use crate::header::{build_ihdr_payload, bytes_per_row_for_direct_color, direct_row_bytes, ihdr_payload_spec};
use crate::zorder::tile_order_spec;

verus! {

// ---------------------------------------------------------------------------
// Options and layout
// ---------------------------------------------------------------------------

/// What the streaming encoder writes and how.
pub struct EncoderOptions {
    /// Color type to store (0, 2, 4 or 6; indexed color is refused).
    pub target_color_type: u8,
    /// Bit depth of integer samples (8 when not given).
    pub target_bit_depth: Option<u8>,
    /// Sample format (unsigned integer when not given).
    pub sample_format: Option<u8>,
    pub use_filter: bool,
    pub use_filter_per_row: bool,
    pub filter_heuristic: FilterHeuristic,
    pub use_byte_shuffle: bool,
    /// 2D tiling: tile width, tile height, scan order.
    pub idim: Option<(u16, u16, u8)>,
    /// Rows go in two passes, even rows then odd rows.
    pub even_odd_interlace: bool,
    pub level: i32,
    /// Rows per `IDAT` of each even/odd pass (and the suggested tile height).
    pub tile_rows: u32,
    pub exif: Option<Vec<u8>>,
    /// `(namespace, JSON text)` pairs.
    pub json_metadata: Vec<(Vec<u8>, Vec<u8>)>,
    pub icc_profile: Option<Vec<u8>>,
    /// UTF-8 text.
    pub xmp_metadata: Option<Vec<u8>>,
    pub zstd_dictionary: Option<Vec<u8>>,
    pub chdr_metadata: Option<ChdrFields>,
}

impl EncoderOptions {
    /// RGBA, 8-bit unsigned samples, block predictive filter chosen by the
    /// sum of residuals, no 2D tiling or interlace, level 19, 64-row tiles,
    /// no metadata and no dictionary.
    pub fn new() -> (o: EncoderOptions)
        ensures
            o.target_color_type == COLOR_TYPE_RGBA, o.target_bit_depth is None, o.sample_format is None,
            o.use_filter, !o.use_filter_per_row, o.filter_heuristic == FilterHeuristic::Msad, !o.use_byte_shuffle,
            o.idim is None, !o.even_odd_interlace, o.level == ZSTD_LEVEL, o.tile_rows == DEFAULT_TILE_ROWS,
            o.exif is None, o.json_metadata@.len() == 0, o.icc_profile is None, o.xmp_metadata is None,
            o.zstd_dictionary is None, o.chdr_metadata is None,
    {
        EncoderOptions {
            target_color_type: COLOR_TYPE_RGBA,
            target_bit_depth: None,
            sample_format: None,
            use_filter: true,
            use_filter_per_row: false,
            filter_heuristic: FilterHeuristic::Msad,
            use_byte_shuffle: false,
            idim: None,
            even_odd_interlace: false,
            level: ZSTD_LEVEL,
            tile_rows: DEFAULT_TILE_ROWS,
            exif: None,
            json_metadata: Vec::new(),
            icc_profile: None,
            xmp_metadata: None,
            zstd_dictionary: None,
            chdr_metadata: None,
        }
    }
}

impl Default for EncoderOptions {
    /// The options `EncoderOptions::new` gives.
    fn default() -> (o: EncoderOptions)
        ensures
            o.target_color_type == COLOR_TYPE_RGBA, o.target_bit_depth is None, o.sample_format is None,
            o.use_filter, !o.use_filter_per_row, o.filter_heuristic == FilterHeuristic::Msad, !o.use_byte_shuffle,
            o.idim is None, !o.even_odd_interlace, o.level == ZSTD_LEVEL, o.tile_rows == DEFAULT_TILE_ROWS,
            o.exif is None, o.json_metadata@.len() == 0, o.icc_profile is None, o.xmp_metadata is None,
            o.zstd_dictionary is None, o.chdr_metadata is None,
    {
        EncoderOptions::new()
    }
}

/// The sample format the options ask for.
pub open spec fn stream_format(o: EncoderOptions) -> u8 {
    match o.sample_format {
        Some(s) => s,
        None => SAMPLE_FORMAT_UINT,
    }
}

/// The bit depth: 32 for float, 16 for half, else the integer depth (8
/// when not given).
pub open spec fn stream_depth(o: EncoderOptions) -> u8 {
    let sf = stream_format(o);
    if sf == SAMPLE_FORMAT_FLOAT {
        32
    } else if sf == SAMPLE_FORMAT_HALF {
        16
    } else {
        match o.target_bit_depth {
            Some(d) => d,
            None => 8,
        }
    }
}

/// The `IHDR` filter method: none for even/odd interlace, else as the
/// filter options say.
pub open spec fn stream_filter_method(o: EncoderOptions) -> u8 {
    if o.even_odd_interlace {
        FILTER_METHOD_NONE
    } else if o.use_byte_shuffle {
        FILTER_METHOD_BYTE_SHUFFLE
    } else if o.use_filter && o.use_filter_per_row {
        FILTER_METHOD_PREDICTIVE_PER_ROW
    } else if o.use_filter {
        FILTER_METHOD_PREDICTIVE
    } else {
        FILTER_METHOD_NONE
    }
}

/// The tiling of a `w` x `h` image that the `iDIM` option describes.
pub open spec fn idim_of(tw: u16, th: u16, w: u32, h: u32, so: u8) -> iDim {
    iDim {
        tile_width: tw,
        tile_height: th,
        tiles_x: div_ceil_spec(w as int, tw as int) as u16,
        tiles_y: div_ceil_spec(h as int, th as int) as u16,
        scan_order: so,
    }
}

/// Whether even/odd interlace is asked for with something it does not
/// take: the per-row filter, byte-shuffle, or samples other than 8-bit
/// unsigned RGBA.
pub open spec fn even_odd_refused(o: EncoderOptions) -> bool {
    o.even_odd_interlace && (o.use_filter_per_row || o.use_byte_shuffle || stream_format(o) != SAMPLE_FORMAT_UINT
        || o.target_color_type != COLOR_TYPE_RGBA || stream_depth(o) != 8)
}

/// The checks of `Encoder::new`, in order, and what they give: bytes per
/// pixel, bytes per row and the tiling. Every refusal is
/// `UnsupportedFeature`.
pub open spec fn stream_layout(w: u32, h: u32, o: EncoderOptions) -> Result<(usize, nat, Option<iDim>), CafeError> {
    let sf = stream_format(o);
    let bd = stream_depth(o);
    let ct = o.target_color_type;
    if w == 0 || h == 0 || ct == COLOR_TYPE_INDEXED {
        Err(CafeError::UnsupportedFeature("Encoder: dimensions must be nonzero and the color type direct", None))
    } else {
        match bytes_per_pixel_spec(ct, bd) {
            None => Err(CafeError::UnsupportedFeature("color type and bit depth not supported together", None)),
            Some(bpp) => if sf != SAMPLE_FORMAT_UINT && (match container_depth(8, sf) {
                Some(d) => bytes_per_pixel_spec(ct, d) is None,
                None => true,
            }) {
                Err(CafeError::UnsupportedFeature("sample format not supported for this color type", None))
            } else {
                match direct_row_bytes(w, ct, bd, bpp) {
                    None => Err(CafeError::UnsupportedFeature("row size in bytes overflows", None)),
                    Some(bpr) => if o.use_filter && o.use_filter_per_row && o.filter_heuristic != FilterHeuristic::Msad {
                        Err(CafeError::UnsupportedFeature("use_filter_per_row needs the Msad heuristic", None))
                    } else if o.use_byte_shuffle && !(bpp == 2 || bpp == 4 || bpp == 8 || bpp == 16) {
                        Err(CafeError::UnsupportedFeature("byte shuffle needs 2, 4, 8 or 16 bytes per pixel", None))
                    } else {
                        match o.idim {
                            Some((tw, th, so)) => if o.even_odd_interlace || bd < 8 || (o.use_filter && o.use_filter_per_row)
                                || tw == 0 || th == 0 || so > 1 {
                                Err(CafeError::UnsupportedFeature("iDIM: tile layout not supported with these options", None))
                            } else {
                                let d = idim_of(tw, th, w, h, so);
                                if d.tiles_x * d.tiles_y > MAX_TILE_COUNT {
                                    Err(CafeError::UnsupportedFeature("iDIM: tiles_x * tiles_y exceeds maximum allowed tile count", None))
                                } else if even_odd_refused(o) {
                                    Err(CafeError::UnsupportedFeature("even/odd interlace not supported with these options", None))
                                } else {
                                    Ok((bpp, bpr, Some(d)))
                                }
                            },
                            None => if even_odd_refused(o) {
                                Err(CafeError::UnsupportedFeature("even/odd interlace not supported with these options", None))
                            } else {
                                Ok((bpp, bpr, None))
                            },
                        }
                    },
                }
            },
        }
    }
}

/// The chunks after `IHDR`: `iDIM` (with the tile order it implies),
/// `cHDR`, the metadata chunks and `zDIC`, each when there is one; and
/// whether one of them is compressed.
#[verifier::opaque]
pub open spec fn stream_header_chunks(o: EncoderOptions, d: Option<iDim>) -> Result<(Seq<u8>, Seq<(u16, u16)>, bool), CafeError> {
    let first: Result<(Seq<u8>, Seq<(u16, u16)>), CafeError> = match d {
        None => Ok((Seq::empty(), Seq::empty())),
        Some(d) => match tile_order_spec(d) {
            Err(e) => Err(e),
            Ok(order) => Ok((chunk_bytes(CHUNK_IDIM@, FLAG_RAW, idim_payload(d)), order)),
        },
    };
    match first {
        Err(e) => Err(e),
        Ok((ic, order)) => match (match o.chdr_metadata {
            None => Ok((Seq::empty(), false)),
            Some(c) => then_chunk(Ok((Seq::empty(), false)), packed_chunk(CHUNK_CHDR@, chdr_payload(c), o.level)),
        }) {
            Err(e) => Err(e),
            Ok((cc, cz)) => match metadata_chunks(opt_vec(o.exif), json_views(o.json_metadata@), opt_vec(o.icc_profile),
                opt_vec(o.xmp_metadata), o.level) {
                Err(e) => Err(e),
                Ok((mc, mz)) => match opt_chunk(opt_vec(o.zstd_dictionary), CHUNK_ZDIC@, o.level) {
                    Err(e) => Err(e),
                    Ok((zc, zz)) => Ok((ic + cc + mc + zc, order, cz || mz || zz)),
                },
            },
        },
    }
}

/// The start of the file: the signature, `IHDR` (its compression method
/// says Zstandard, as nothing can be patched afterwards), and the header
/// chunks.
pub open spec fn stream_start(w: u32, h: u32, o: EncoderOptions, hc: Seq<u8>) -> Seq<u8> {
    SIGNATURE@ + ihdr_chunk_spec(w, h, stream_depth(o), stream_format(o), o.target_color_type, COMPRESSION_METHOD_ZSTD_BIT,
        stream_filter_method(o), if o.even_odd_interlace { INTERLACE_EVEN_ODD } else { INTERLACE_NONE })
}

// ---------------------------------------------------------------------------
// The encoder
// ---------------------------------------------------------------------------

/// A streaming encoder between its header and its end.
pub struct Encoder {
    pub width: u32,
    pub height: u32,
    pub level: i32,
    pub tile_rows_hint: u32,
    pub target_color_type: u8,
    pub bit_depth: u8,
    pub sample_format: u8,
    pub bpp: usize,
    pub bytes_per_row: usize,
    pub filter: TileFilter,
    pub zstd_dictionary: Option<Vec<u8>>,
    pub idim: Option<iDim>,
    /// The tile positions in the order `add_idim_tile` takes them.
    pub idim_tile_order: Vec<(u16, u16)>,
    pub idim_next_tile_idx: usize,
    pub even_odd_interlace: bool,
    pub rows_written: u32,
    /// Some chunk written so far is compressed.
    pub uses_zstd: bool,
    /// Type, flag and payload of the `IHDR` chunk.
    pub ihdr_type_flag_data: Vec<u8>,
    /// Rows of the even pass not yet written.
    pub pending_even: Vec<u8>,
    /// Rows of the odd pass not yet written.
    pub pending_odd: Vec<u8>,
}

impl Encoder {
    /// What every encoder satisfies between calls.
    pub open spec fn wf(&self) -> bool {
        &&& self.width > 0 && self.height > 0
        &&& self.rows_written <= self.height
        &&& self.idim_next_tile_idx <= self.idim_tile_order@.len()
        &&& bytes_per_pixel_spec(self.target_color_type, self.bit_depth) == Some(self.bpp)
        &&& direct_row_bytes(self.width, self.target_color_type, self.bit_depth, self.bpp) == Some(self.bytes_per_row as nat)
        &&& self.filter.level == self.level
        &&& self.ihdr_type_flag_data@.len() == 19
        &&& (self.even_odd_interlace ==> self.bpp == 4 && self.idim is None && self.width * 4 <= usize::MAX)
        &&& (self.idim matches Some(d) ==> tile_order_spec(d) == Ok::<Seq<(u16, u16)>, CafeError>(self.idim_tile_order@))
    }
}

/// The encoder `Encoder::new` sets up.
pub open spec fn fresh_encoder(e: Encoder, w: u32, h: u32, o: EncoderOptions, bpp: usize, bpr: nat, d: Option<iDim>,
    order: Seq<(u16, u16)>, z: bool) -> bool
{
    &&& e.width == w && e.height == h && e.level == o.level && e.tile_rows_hint == o.tile_rows
    &&& e.target_color_type == o.target_color_type && e.bit_depth == stream_depth(o) && e.sample_format == stream_format(o)
    &&& e.bpp == bpp && e.bytes_per_row == bpr
    &&& e.filter == (TileFilter {
            use_byte_shuffle: o.use_byte_shuffle,
            use_filter: o.use_filter,
            use_filter_per_row: o.use_filter_per_row,
            heuristic: o.filter_heuristic,
            level: o.level,
        })
    &&& opt_vec(e.zstd_dictionary) == opt_vec(o.zstd_dictionary)
    &&& e.idim == d && e.idim_tile_order@ == order && e.idim_next_tile_idx == 0
    &&& e.even_odd_interlace == o.even_odd_interlace && e.rows_written == 0 && e.uses_zstd == z
    &&& e.ihdr_type_flag_data@ == ihdr_chunk_spec(w, h, stream_depth(o), stream_format(o), o.target_color_type,
            COMPRESSION_METHOD_ZSTD_BIT, stream_filter_method(o), if o.even_odd_interlace { INTERLACE_EVEN_ODD } else { INTERLACE_NONE })
            .subrange(4, 23)
    &&& e.pending_even@.len() == 0 && e.pending_odd@.len() == 0
}

fn check_stream_layout(width: u32, height: u32, o: &EncoderOptions) -> (r: Result<(usize, usize, Option<iDim>), CafeError>)
    ensures
        match stream_layout(width, height, *o) {
            Ok((bpp, bpr, d)) => r matches Ok((b, rb, d2)) && b == bpp && rb == bpr && d2 == d,
            Err(e) => r == Err::<(usize, usize, Option<iDim>), CafeError>(e),
        },
{
    if width == 0 || height == 0 || o.target_color_type == COLOR_TYPE_INDEXED {
        return Err(CafeError::UnsupportedFeature("Encoder: dimensions must be nonzero and the color type direct", None));
    }
    let sf = match o.sample_format {
        Some(s) => s,
        None => SAMPLE_FORMAT_UINT,
    };
    let bd: u8 = if sf == SAMPLE_FORMAT_FLOAT {
        32
    } else if sf == SAMPLE_FORMAT_HALF {
        16
    } else {
        match o.target_bit_depth {
            Some(d) => d,
            None => 8,
        }
    };
    let ct = o.target_color_type;
    let bpp = match bytes_per_pixel(ct, bd) {
        Some(b) => b,
        None => return Err(CafeError::UnsupportedFeature("color type and bit depth not supported together", None)),
    };
    if sf != SAMPLE_FORMAT_UINT {
        match bytes_per_pixel_with_format(ct, 8, sf) {
            Some(_) => {},
            None => return Err(CafeError::UnsupportedFeature("sample format not supported for this color type", None)),
        }
    }
    let bpr = match bytes_per_row_for_direct_color(width, ct, bd, bpp) {
        Ok(b) => b,
        Err(e) => return Err(e),
    };
    let per_row = o.use_filter && o.use_filter_per_row;
    if per_row {
        let msad = match o.filter_heuristic {
            FilterHeuristic::Msad => true,
            _ => false,
        };
        if !msad {
            return Err(CafeError::UnsupportedFeature("use_filter_per_row needs the Msad heuristic", None));
        }
    }
    if o.use_byte_shuffle && !(bpp == 2 || bpp == 4 || bpp == 8 || bpp == 16) {
        return Err(CafeError::UnsupportedFeature("byte shuffle needs 2, 4, 8 or 16 bytes per pixel", None));
    }
    let eo_refused = o.even_odd_interlace && (o.use_filter_per_row || o.use_byte_shuffle || sf != SAMPLE_FORMAT_UINT
        || ct != COLOR_TYPE_RGBA || bd != 8);
    match o.idim {
        Some((tw, th, so)) => {
            if o.even_odd_interlace || bd < 8 || per_row || tw == 0 || th == 0 || so > 1 {
                return Err(CafeError::UnsupportedFeature("iDIM: tile layout not supported with these options", None));
            }
            let d = iDim::new(tw, th, width, height, so);
            assert((d.tiles_x as u64) * (d.tiles_y as u64) <= 0xffff * 0xffff) by (nonlinear_arith)
                requires d.tiles_x <= 0xffff, d.tiles_y <= 0xffff;
            if (d.tiles_x as u64) * (d.tiles_y as u64) > MAX_TILE_COUNT {
                return Err(CafeError::UnsupportedFeature("iDIM: tiles_x * tiles_y exceeds maximum allowed tile count", None));
            }
            if eo_refused {
                return Err(CafeError::UnsupportedFeature("even/odd interlace not supported with these options", None));
            }
            Ok((bpp, bpr, Some(d)))
        },
        None => {
            if eo_refused {
                return Err(CafeError::UnsupportedFeature("even/odd interlace not supported with these options", None));
            }
            Ok((bpp, bpr, None))
        },
    }
}

fn header_chunks_exec(o: &EncoderOptions, d: &Option<iDim>) -> (r: Result<(Vec<u8>, Vec<(u16, u16)>, bool), CafeError>)
    ensures
        match stream_header_chunks(*o, *d) {
            Ok((c, order, z)) => r matches Ok((v, ov, z2)) && v@ == c && ov@ == order && z2 == z,
            Err(e) => r == Err::<(Vec<u8>, Vec<(u16, u16)>, bool), CafeError>(e),
        },
        r matches Ok((_, ov, _)) ==> match *d {
            Some(dd) => tile_order_spec(dd) == Ok::<Seq<(u16, u16)>, CafeError>(ov@),
            None => ov@.len() == 0,
        },
{
    proof {
        reveal(stream_header_chunks);
    }
    let mut out: Vec<u8> = Vec::new();
    let order: Vec<(u16, u16)> = match d {
        None => Vec::new(),
        Some(d) => {
            let c = match write_idim_chunk(d) {
                Ok(c) => c,
                Err(e) => return Err(e),
            };
            let ord = match d.tile_order() {
                Ok(v) => v,
                Err(e) => return Err(e),
            };
            append_bytes(&mut out, c.as_slice());
            ord
        },
    };
    let ghost ic = out@;
    let mut z = false;
    match &o.chdr_metadata {
        Some(c) => {
            let ch = match write_chdr_chunk(c, o.level) {
                Ok(ch) => ch,
                Err(e) => return Err(e),
            };
            z = chunk_uses_zstd(ch.as_slice());
            append_bytes(&mut out, ch.as_slice());
            assert(Seq::<u8>::empty() + ch@ =~= ch@);
        },
        None => {},
    }
    let ghost after_chdr = out@;
    let mz = match append_common_metadata_chunks(&mut out, &o.exif, &o.json_metadata, &o.icc_profile, &o.xmp_metadata, o.level) {
        Ok(z) => z,
        Err(e) => return Err(e),
    };
    let ghost after_meta = out@;
    let zz = match append_opt_chunk(&mut out, &o.zstd_dictionary, &CHUNK_ZDIC, o.level) {
        Ok(z) => z,
        Err(e) => return Err(e),
    };
    proof {
        let cc = after_chdr.subrange(ic.len() as int, after_chdr.len() as int);
        assert(after_chdr =~= ic + cc);
        let mc = after_meta.subrange(after_chdr.len() as int, after_meta.len() as int);
        let zc = out@.subrange(after_meta.len() as int, out@.len() as int);
        assert(out@ =~= ic + cc + mc + zc);
        match d {
            None => assert(ic =~= Seq::<u8>::empty()),
            Some(_) => {},
        }
    }
    Ok((out, order, z || mz || zz))
}

impl Encoder {
    /// Checks the options (see `stream_layout`) and returns the encoder with
    /// the bytes that start the file: the signature, `IHDR` and the header
    /// chunks (see `stream_header_chunks`).
    pub fn new(width: u32, height: u32, opts: &EncoderOptions) -> (r: Result<(Encoder, Vec<u8>), CafeError>)
        ensures
            match stream_layout(width, height, *opts) {
                Err(e) => r == Err::<(Encoder, Vec<u8>), CafeError>(e),
                Ok((bpp, bpr, d)) => match stream_header_chunks(*opts, d) {
                    Err(e) => r == Err::<(Encoder, Vec<u8>), CafeError>(e),
                    Ok((hc, order, z)) => r matches Ok((enc, bytes)) && enc.wf()
                        && fresh_encoder(enc, width, height, *opts, bpp, bpr, d, order, z)
                        && bytes@ == stream_start(width, height, *opts, hc) + hc,
                },
            },
    {
        let (bpp, bpr, d) = match check_stream_layout(width, height, opts) {
            Ok(x) => x,
            Err(e) => return Err(e),
        };
        let sf = match opts.sample_format {
            Some(s) => s,
            None => SAMPLE_FORMAT_UINT,
        };
        let bd: u8 = if sf == SAMPLE_FORMAT_FLOAT {
            32
        } else if sf == SAMPLE_FORMAT_HALF {
            16
        } else {
            match opts.target_bit_depth {
                Some(d) => d,
                None => 8,
            }
        };
        let fm = if opts.even_odd_interlace {
            FILTER_METHOD_NONE
        } else if opts.use_byte_shuffle {
            FILTER_METHOD_BYTE_SHUFFLE
        } else if opts.use_filter && opts.use_filter_per_row {
            FILTER_METHOD_PREDICTIVE_PER_ROW
        } else if opts.use_filter {
            FILTER_METHOD_PREDICTIVE
        } else {
            FILTER_METHOD_NONE
        };
        let il = if opts.even_odd_interlace { INTERLACE_EVEN_ODD } else { INTERLACE_NONE };
        let ihdr = build_ihdr_payload(width, height, bd, sf, opts.target_color_type, COMPRESSION_METHOD_ZSTD_BIT, fm, il);
        let ihdr_chunk = write_chunk(&CHUNK_IHDR, FLAG_RAW, ihdr.as_slice());
        let (hc, order, z) = match header_chunks_exec(opts, &d) {
            Ok(x) => x,
            Err(e) => return Err(e),
        };
        let mut out: Vec<u8> = Vec::new();
        append_bytes(&mut out, SIGNATURE.as_slice());
        append_bytes(&mut out, ihdr_chunk.as_slice());
        append_bytes(&mut out, hc.as_slice());
        let tfd = crate::bytes::copy_bytes(&ihdr_chunk.as_slice()[4..23]);
        let dict = match &opts.zstd_dictionary {
            Some(v) => Some(crate::bytes::copy_bytes(v.as_slice())),
            None => None,
        };
        let enc = Encoder {
            width,
            height,
            level: opts.level,
            tile_rows_hint: opts.tile_rows,
            target_color_type: opts.target_color_type,
            bit_depth: bd,
            sample_format: sf,
            bpp,
            bytes_per_row: bpr,
            filter: TileFilter {
                use_byte_shuffle: opts.use_byte_shuffle,
                use_filter: opts.use_filter,
                use_filter_per_row: opts.use_filter_per_row,
                heuristic: opts.filter_heuristic,
                level: opts.level,
            },
            zstd_dictionary: dict,
            idim: d,
            idim_tile_order: order,
            idim_next_tile_idx: 0,
            even_odd_interlace: opts.even_odd_interlace,
            rows_written: 0,
            uses_zstd: z,
            ihdr_type_flag_data: tfd,
            pending_even: Vec::new(),
            pending_odd: Vec::new(),
        };
        proof {
            assert(tfd@ =~= ihdr_chunk@.subrange(4, 23));
            assert(out@ =~= stream_start(width, height, *opts, hc@) + hc@);
            if opts.even_odd_interlace {
                assert(bd == 8 && opts.target_color_type == COLOR_TYPE_RGBA);
                assert(bpp == 4);
            }
            assert(opt_vec(enc.zstd_dictionary) == opt_vec(opts.zstd_dictionary));
            assert(enc.ihdr_type_flag_data@.len() == 19);
            assert(enc.wf());
        }
        Ok((enc, out))
    }

    /// The suggested tile height given at creation (tiles may be of any
    /// height).
    pub fn tile_rows(&self) -> (r: u32)
        ensures r == self.tile_rows_hint,
    {
        self.tile_rows_hint
    }
}


// ---------------------------------------------------------------------------
// Tiles
// ---------------------------------------------------------------------------

/// The encoder's settings: everything but the progress (rows and tiles
/// submitted, pending interlace rows, whether a chunk was compressed).
pub open spec fn same_setup(a: Encoder, b: Encoder) -> bool {
    &&& a.width == b.width && a.height == b.height && a.level == b.level && a.tile_rows_hint == b.tile_rows_hint
    &&& a.target_color_type == b.target_color_type && a.bit_depth == b.bit_depth && a.sample_format == b.sample_format
    &&& a.bpp == b.bpp && a.bytes_per_row == b.bytes_per_row && a.filter == b.filter
    &&& opt_vec(a.zstd_dictionary) == opt_vec(b.zstd_dictionary)
    &&& a.idim == b.idim && a.idim_tile_order@ == b.idim_tile_order@
    &&& a.even_odd_interlace == b.even_odd_interlace && a.ihdr_type_flag_data@ == b.ihdr_type_flag_data@
}

/// The rows in `len` bytes of RGBA strip, once checked: only without 2D
/// tiling or interlace, whole rows, and no more than the declared height
/// in all. Every refusal is `UnsupportedFeature`.
pub open spec fn strip_rows(e: Encoder, len: nat) -> Result<nat, CafeError> {
    if e.idim is Some || e.even_odd_interlace || e.width * 4 > usize::MAX || len % ((e.width * 4) as nat) != 0
        || e.rows_written + len / ((e.width * 4) as nat) > e.height {
        Err(CafeError::UnsupportedFeature("add_tile: needs row tiling, whole RGBA rows and no more rows than the height", None))
    } else {
        Ok(len / ((e.width * 4) as nat))
    }
}

/// The samples of `th` rows of `w` RGBA pixels in the encoder's color type
/// and depth. Float and half samples come from a floating-point conversion
/// this library does not hold: `UnsupportedFeature`, and the caller
/// converts and hands the samples over itself.
pub open spec fn strip_samples(e: Encoder, rgba: Seq<u8>, w: u32, th: nat) -> Result<Seq<u8>, CafeError> {
    if e.target_color_type == COLOR_TYPE_RGBA && e.sample_format == SAMPLE_FORMAT_UINT && e.bit_depth == 8 {
        Ok(rgba)
    } else if e.sample_format == SAMPLE_FORMAT_UINT {
        rgba_to_color_type_spec(rgba, w as nat, th, e.target_color_type, e.bit_depth)
    } else {
        Err(CafeError::UnsupportedFeature("float and half samples are converted before encoding", None))
    }
}

/// The `IDAT` of `th` rows of samples (`bpr` bytes per row, `stride_w`
/// pixels wide), filtered and compressed as the encoder says.
pub open spec fn strip_chunk(e: Encoder, raw: Seq<u8>, th: nat, bpr: nat, stride_w: u32) -> Result<(Seq<u8>, bool, bool), CafeError> {
    match tile_payload(raw, th, bpr, e.bpp as nat, stride_w, e.filter) {
        Err(x) => Err(x),
        Ok(p) => idat_chunk(p, e.level, opt_vec(e.zstd_dictionary)),
    }
}

/// The next 2D tile's width, height and bytes per row, once checked: only
/// with 2D tiling and not past the last tile, and `len` must be the tile's
/// RGBA size. Every refusal is `UnsupportedFeature`.
#[verifier::opaque]
pub open spec fn idim_tile_dims(e: Encoder, len: nat) -> Result<(u32, u32, nat), CafeError> {
    if e.even_odd_interlace || e.idim is None || e.idim_next_tile_idx >= e.idim_tile_order@.len() {
        Err(CafeError::UnsupportedFeature("add_idim_tile: no iDIM tile expected", None))
    } else {
        let (tx, ty) = e.idim_tile_order@[e.idim_next_tile_idx as int];
        let d = e.idim->0;
        let tw = tile_extent(tx as int, d.tile_width as int, e.width as int);
        let th = tile_extent(ty as int, d.tile_height as int, e.height as int);
        if tw * e.bpp > usize::MAX || tw * th * 4 > usize::MAX || len != tw * th * 4 {
            Err(CafeError::UnsupportedFeature("add_idim_tile: tile buffer does not match the tile size", None))
        } else {
            Ok((tw as u32, th as u32, (tw * e.bpp) as nat))
        }
    }
}

impl Encoder {
    fn emit(&self, raw: &[u8], th: usize, bpr: usize, stride_w: u32) -> (r: Result<(Vec<u8>, bool), CafeError>)
        requires self.wf(),
        ensures
            match strip_chunk(*self, raw@, th as nat, bpr as nat, stride_w) {
                Ok((c, z, _)) => r matches Ok((v, z2)) && v@ == c && z2 == z,
                Err(e) => r == Err::<(Vec<u8>, bool), CafeError>(e),
            },
    {
        let payload = match apply_single_tile_filter(raw, th, bpr, self.bpp, stride_w, self.filter) {
            Ok(p) => p,
            Err(e) => return Err(e),
        };
        let dict = opt_slice(&self.zstd_dictionary);
        match build_idat_chunk(payload.as_slice(), self.level, dict) {
            Ok((c, z, _)) => Ok((c, z)),
            Err(e) => Err(e),
        }
    }

    /// Checks a strip of `len` RGBA bytes (see `strip_rows`) and returns its
    /// row count.
    pub fn check_strip(&self, len: usize) -> (r: Result<u32, CafeError>)
        requires self.wf(),
        ensures
            match strip_rows(*self, len as nat) {
                Ok(th) => r == Ok::<u32, CafeError>(th as u32),
                Err(e) => r == Err::<u32, CafeError>(e),
            },
    {
        if self.idim.is_some() || self.even_odd_interlace {
            return Err(CafeError::UnsupportedFeature("add_tile: needs row tiling, whole RGBA rows and no more rows than the height", None));
        }
        let rb: u128 = (self.width as u128) * 4;
        if rb > usize::MAX as u128 {
            return Err(CafeError::UnsupportedFeature("add_tile: needs row tiling, whole RGBA rows and no more rows than the height", None));
        }
        let rbu = rb as usize;
        if len % rbu != 0 {
            return Err(CafeError::UnsupportedFeature("add_tile: needs row tiling, whole RGBA rows and no more rows than the height", None));
        }
        let th = len / rbu;
        if (self.rows_written as u128) + (th as u128) > self.height as u128 {
            return Err(CafeError::UnsupportedFeature("add_tile: needs row tiling, whole RGBA rows and no more rows than the height", None));
        }
        Ok(th as u32)
    }

    /// Encodes a strip of whole RGBA rows (their count read off the length)
    /// and returns its `IDAT` (nothing for an empty strip); see
    /// `strip_rows`, `strip_samples` and `strip_chunk`.
    pub fn add_tile(&mut self, rgba_tile: &[u8]) -> (r: Result<Vec<u8>, CafeError>)
        requires old(self).wf(),
        ensures
            final(self).wf(),
            match strip_rows(*old(self), rgba_tile@.len()) {
                Err(e) => r == Err::<Vec<u8>, CafeError>(e) && *final(self) == *old(self),
                Ok(th) => if th == 0 {
                    r matches Ok(v) && v@.len() == 0 && *final(self) == *old(self)
                } else {
                    match strip_samples(*old(self), rgba_tile@, old(self).width, th) {
                        Err(e) => r == Err::<Vec<u8>, CafeError>(e) && *final(self) == *old(self),
                        Ok(raw) => match strip_chunk(*old(self), raw, th, old(self).bytes_per_row as nat, old(self).width) {
                            Err(e) => r == Err::<Vec<u8>, CafeError>(e) && *final(self) == *old(self),
                            Ok((c, z, _)) => r matches Ok(v) && v@ == c
                                && *final(self) == (Encoder { rows_written: (old(self).rows_written + th) as u32, uses_zstd: old(self).uses_zstd || z, ..*old(self) }),
                        },
                    }
                },
            },
    {
        let th = match self.check_strip(rgba_tile.len()) {
            Ok(t) => t,
            Err(e) => return Err(e),
        };
        if th == 0 {
            return Ok(Vec::new());
        }
        let raw = if self.target_color_type == COLOR_TYPE_RGBA && self.sample_format == SAMPLE_FORMAT_UINT && self.bit_depth == 8 {
            crate::bytes::copy_bytes(rgba_tile)
        } else if self.sample_format == SAMPLE_FORMAT_UINT {
            match convert_rgba_to_color_type(rgba_tile, self.width, th, self.target_color_type, self.bit_depth) {
                Ok(v) => v,
                Err(e) => return Err(e),
            }
        } else {
            return Err(CafeError::UnsupportedFeature("float and half samples are converted before encoding", None));
        };
        let (c, z) = match self.emit(raw.as_slice(), th as usize, self.bytes_per_row, self.width) {
            Ok(x) => x,
            Err(e) => return Err(e),
        };
        self.rows_written = self.rows_written + th;
        self.uses_zstd = self.uses_zstd || z;
        Ok(c)
    }

    /// Encodes a strip of `rows` rows already in the encoder's samples
    /// (how float and half strips come in) and returns its `IDAT`. The rows
    /// are checked as `strip_rows` checks them.
    pub fn add_tile_samples(&mut self, samples: &[u8], rows: u32) -> (r: Result<Vec<u8>, CafeError>)
        requires old(self).wf(),
        ensures
            final(self).wf(),
            if old(self).idim is Some || old(self).even_odd_interlace || old(self).rows_written + rows > old(self).height {
                r == Err::<Vec<u8>, CafeError>(CafeError::UnsupportedFeature("add_tile: needs row tiling, whole RGBA rows and no more rows than the height", None)) && *final(self) == *old(self)
            } else {
                match strip_chunk(*old(self), samples@, rows as nat, old(self).bytes_per_row as nat, old(self).width) {
                    Err(e) => r == Err::<Vec<u8>, CafeError>(e) && *final(self) == *old(self),
                    Ok((c, z, _)) => r matches Ok(v) && v@ == c
                        && *final(self) == (Encoder { rows_written: (old(self).rows_written + rows) as u32, uses_zstd: old(self).uses_zstd || z, ..*old(self) }),
                }
            },
    {
        if self.idim.is_some() || self.even_odd_interlace || (self.rows_written as u64) + (rows as u64) > self.height as u64 {
            return Err(CafeError::UnsupportedFeature("add_tile: needs row tiling, whole RGBA rows and no more rows than the height", None));
        }
        let (c, z) = match self.emit(samples, rows as usize, self.bytes_per_row, self.width) {
            Ok(x) => x,
            Err(e) => return Err(e),
        };
        self.rows_written = self.rows_written + rows;
        self.uses_zstd = self.uses_zstd || z;
        Ok(c)
    }

    /// Checks the next 2D tile against `len` bytes of RGBA (see
    /// `idim_tile_dims`) and returns its width, height and bytes per row.
    pub fn check_idim_tile(&self, len: usize) -> (r: Result<(u32, u32, usize), CafeError>)
        requires self.wf(),
        ensures
            match idim_tile_dims(*self, len as nat) {
                Ok((tw, th, stride)) => r matches Ok((a, b, c)) && a == tw && b == th && c == stride,
                Err(e) => r == Err::<(u32, u32, usize), CafeError>(e),
            },
    {
        proof {
            reveal(idim_tile_dims);
        }
        if self.even_odd_interlace {
            return Err(CafeError::UnsupportedFeature("add_idim_tile: no iDIM tile expected", None));
        }
        let d = match &self.idim {
            Some(d) => d,
            None => return Err(CafeError::UnsupportedFeature("add_idim_tile: no iDIM tile expected", None)),
        };
        if self.idim_next_tile_idx >= self.idim_tile_order.len() {
            return Err(CafeError::UnsupportedFeature("add_idim_tile: no iDIM tile expected", None));
        }
        let (tx, ty) = self.idim_tile_order[self.idim_next_tile_idx];
        let (tw, th) = d.tile_dimensions(tx, ty, self.width, self.height);
        assert((tw as u128) * (self.bpp as u128) <= 0xffff_ffff * 0xffff_ffff_ffff_ffff) by (nonlinear_arith)
            requires tw <= 0xffff_ffff, self.bpp <= 0xffff_ffff_ffff_ffff;
        let stride: u128 = (tw as u128) * (self.bpp as u128);
        assert((tw as u128) * (th as u128) * 4 <= 0xffff_ffff * 0xffff_ffff * 4) by (nonlinear_arith)
            requires tw <= 0xffff_ffff, th <= 0xffff_ffff;
        let expected: u128 = (tw as u128) * (th as u128) * 4;
        if stride > usize::MAX as u128 || expected > usize::MAX as u128 || len as u128 != expected {
            return Err(CafeError::UnsupportedFeature("add_idim_tile: tile buffer does not match the tile size", None));
        }
        Ok((tw, th, stride as usize))
    }

    /// Encodes the next 2D tile of RGBA pixels (in the tile order) and
    /// returns its `IDAT`; see `idim_tile_dims`, `strip_samples` and
    /// `strip_chunk`.
    pub fn add_idim_tile(&mut self, rgba_tile: &[u8]) -> (r: Result<Vec<u8>, CafeError>)
        requires old(self).wf(),
        ensures
            final(self).wf(),
            match idim_tile_dims(*old(self), rgba_tile@.len()) {
                Err(e) => r == Err::<Vec<u8>, CafeError>(e) && *final(self) == *old(self),
                Ok((tw, th, stride)) => match strip_samples(*old(self), rgba_tile@, tw, th as nat) {
                    Err(e) => r == Err::<Vec<u8>, CafeError>(e) && *final(self) == *old(self),
                    Ok(raw) => match strip_chunk(*old(self), raw, th as nat, stride, tw) {
                        Err(e) => r == Err::<Vec<u8>, CafeError>(e) && *final(self) == *old(self),
                        Ok((c, z, _)) => r matches Ok(v) && v@ == c
                            && *final(self) == (Encoder { idim_next_tile_idx: (old(self).idim_next_tile_idx + 1) as usize, uses_zstd: old(self).uses_zstd || z, ..*old(self) }),
                    },
                },
            },
    {
        let n = self.idim_tile_order.len();
        let (tw, th, stride) = match self.check_idim_tile(rgba_tile.len()) {
            Ok(x) => x,
            Err(e) => return Err(e),
        };
        proof {
            reveal(idim_tile_dims);
        }
        let raw = if self.target_color_type == COLOR_TYPE_RGBA && self.sample_format == SAMPLE_FORMAT_UINT && self.bit_depth == 8 {
            crate::bytes::copy_bytes(rgba_tile)
        } else if self.sample_format == SAMPLE_FORMAT_UINT {
            match convert_rgba_to_color_type(rgba_tile, tw, th, self.target_color_type, self.bit_depth) {
                Ok(v) => v,
                Err(e) => return Err(e),
            }
        } else {
            return Err(CafeError::UnsupportedFeature("float and half samples are converted before encoding", None));
        };
        let (c, z) = match self.emit(raw.as_slice(), th as usize, stride, tw) {
            Ok(x) => x,
            Err(e) => return Err(e),
        };
        self.idim_next_tile_idx = self.idim_next_tile_idx + 1;
        self.uses_zstd = self.uses_zstd || z;
        Ok(c)
    }

    /// Encodes the next 2D tile from samples already in the encoder's
    /// format (how float and half tiles come in); `rgba_len` is the size the
    /// tile has as RGBA, checked as `idim_tile_dims` checks it.
    pub fn add_idim_tile_samples(&mut self, samples: &[u8], rgba_len: usize) -> (r: Result<Vec<u8>, CafeError>)
        requires old(self).wf(),
        ensures
            final(self).wf(),
            match idim_tile_dims(*old(self), rgba_len as nat) {
                Err(e) => r == Err::<Vec<u8>, CafeError>(e) && *final(self) == *old(self),
                Ok((tw, th, stride)) => match strip_chunk(*old(self), samples@, th as nat, stride, tw) {
                    Err(e) => r == Err::<Vec<u8>, CafeError>(e) && *final(self) == *old(self),
                    Ok((c, z, _)) => r matches Ok(v) && v@ == c
                        && *final(self) == (Encoder { idim_next_tile_idx: (old(self).idim_next_tile_idx + 1) as usize, uses_zstd: old(self).uses_zstd || z, ..*old(self) }),
                },
            },
    {
        let n = self.idim_tile_order.len();
        let (tw, th, stride) = match self.check_idim_tile(rgba_len) {
            Ok(x) => x,
            Err(e) => return Err(e),
        };
        proof {
            reveal(idim_tile_dims);
        }
        let (c, z) = match self.emit(samples, th as usize, stride, tw) {
            Ok(x) => x,
            Err(e) => return Err(e),
        };
        self.idim_next_tile_idx = self.idim_next_tile_idx + 1;
        self.uses_zstd = self.uses_zstd || z;
        Ok(c)
    }
}

// ---------------------------------------------------------------------------
// Even/odd interlace and the end of the file
// ---------------------------------------------------------------------------

/// The rows in `len` bytes of RGBA rows, once checked: only with even/odd
/// interlace, whole rows, and no more than the declared height in all.
/// Every refusal is `UnsupportedFeature`.
pub open spec fn eo_rows(e: Encoder, len: nat) -> Result<nat, CafeError> {
    if !e.even_odd_interlace || e.width * 4 > usize::MAX || len % ((e.width * 4) as nat) != 0
        || e.rows_written + len / ((e.width * 4) as nat) > e.height {
        Err(CafeError::UnsupportedFeature("add_even_odd_rows: needs even/odd interlace, whole RGBA rows and no more rows than the height", None))
    } else {
        Ok(len / ((e.width * 4) as nat))
    }
}

/// The first `k` rows of `rb` bytes of `rows`, the first being image row
/// `start`, sorted into the even pass and the odd pass.
pub open spec fn eo_split(rows: Seq<u8>, rb: nat, start: nat, k: nat) -> (Seq<u8>, Seq<u8>)
    decreases k,
{
    if k == 0 {
        (Seq::empty(), Seq::empty())
    } else {
        let (ev, od) = eo_split(rows, rb, start, (k - 1) as nat);
        let row = rows.subrange((k - 1) * rb, (k * rb) as int);
        if (start + k - 1) % 2 == 0 { (ev + row, od) } else { (ev, od + row) }
    }
}

/// `tr` rows of `rb` bytes fit in `len` bytes holding at least `tr` whole rows.
pub proof fn lemma_take_fits(len: nat, rb: nat, tr: nat)
    requires rb > 0, tr > 0, len / rb >= tr,
    ensures 1 <= tr * rb <= len,
{
    vstd::arithmetic::div_mod::lemma_fundamental_div_mod(len as int, rb as int);
    assert(tr * rb <= (len / rb) * rb) by (nonlinear_arith) requires tr <= len / rb, rb > 0;
    assert(1 <= tr * rb) by (nonlinear_arith) requires tr > 0, rb > 0;
    assert((len / rb) * rb == rb * (len / rb)) by (nonlinear_arith);
}

/// `IDAT`s for the pending rows of a pass while `tr` whole rows of `rb`
/// bytes are pending, each led by the pass number; the chunks, whether one
/// is compressed, and the rows left pending.
pub open spec fn flush_pass(pend: Seq<u8>, pass: u8, rb: nat, tr: nat, level: i32, dict: Option<Seq<u8>>)
    -> Result<(Seq<u8>, bool, Seq<u8>), CafeError>
    decreases pend.len(),
{
    if rb == 0 || tr == 0 || pend.len() / rb < tr {
        Ok((Seq::empty(), false, pend))
    } else {
        proof {
            lemma_take_fits(pend.len(), rb, tr);
        }
        match idat_chunk(seq![pass] + pend.take((tr * rb) as int), level, dict) {
            Err(e) => Err(e),
            Ok((c, z, _)) => match flush_pass(pend.skip((tr * rb) as int), pass, rb, tr, level, dict) {
                Err(e) => Err(e),
                Ok((cs, zs, rest)) => Ok((c + cs, z || zs, rest)),
            },
        }
    }
}

proof fn lemma_flush_step(pend: Seq<u8>, pass: u8, rb: nat, tr: nat, level: i32, dict: Option<Seq<u8>>)
    requires rb > 0, tr > 0, pend.len() / rb >= tr,
    ensures
        flush_pass(pend, pass, rb, tr, level, dict) == match idat_chunk(seq![pass] + pend.take((tr * rb) as int), level, dict) {
            Err(e) => Err(e),
            Ok((c, z, _)) => prepend(c, z, flush_pass(pend.skip((tr * rb) as int), pass, rb, tr, level, dict)),
        },
{
}

/// `c` and `z` put in front of what a flush gives.
pub open spec fn prepend(c: Seq<u8>, z: bool, r: Result<(Seq<u8>, bool, Seq<u8>), CafeError>) -> Result<(Seq<u8>, bool, Seq<u8>), CafeError> {
    match r {
        Err(e) => Err(e),
        Ok((c2, z2, rest)) => Ok((c + c2, z || z2, rest)),
    }
}

/// One last `IDAT` with all the whole rows pending in a pass (none when no
/// row is pending).
pub open spec fn flush_rest(pend: Seq<u8>, pass: u8, rb: nat, level: i32, dict: Option<Seq<u8>>) -> Result<(Seq<u8>, bool), CafeError> {
    if rb == 0 || pend.len() / rb == 0 {
        Ok((Seq::empty(), false))
    } else {
        match idat_chunk(seq![pass] + pend.take(((pend.len() / rb) * rb) as int), level, dict) {
            Err(e) => Err(e),
            Ok((c, z, _)) => Ok((c, z)),
        }
    }
}

/// Every declared row, or every tile, has been submitted.
pub open spec fn complete(e: Encoder) -> bool {
    match e.idim {
        Some(_) => e.idim_next_tile_idx == e.idim_tile_order@.len(),
        None => e.rows_written == e.height,
    }
}

/// The end of the file: refused (`UnsupportedFeature`) before every row or
/// tile is in; else, with even/odd interlace, a last `IDAT` per pass with
/// pending rows; then `IEND`. Also whether some chunk of the file is
/// compressed.
pub open spec fn finish_spec(e: Encoder) -> Result<(Seq<u8>, bool), CafeError> {
    let rb = (e.width * e.bpp) as nat;
    let dict = opt_vec(e.zstd_dictionary);
    if !complete(e) {
        Err(CafeError::UnsupportedFeature("finish: not every row or tile was added", None))
    } else if e.even_odd_interlace {
        match flush_rest(e.pending_even@, 1, rb, e.level, dict) {
            Err(x) => Err(x),
            Ok((c0, z0)) => match flush_rest(e.pending_odd@, 2, rb, e.level, dict) {
                Err(x) => Err(x),
                Ok((c1, z1)) => Ok((c0 + c1 + iend_chunk(), e.uses_zstd || z0 || z1)),
            },
        }
    } else {
        Ok((iend_chunk(), e.uses_zstd))
    }
}

fn flush_pass_exec(pend: &mut Vec<u8>, pass: u8, rb: usize, tr: u32, level: i32, dict: Option<&[u8]>) -> (r: Result<(Vec<u8>, bool), CafeError>)
    ensures
        match flush_pass(old(pend)@, pass, rb as nat, tr as nat, level, opt_bytes(dict)) {
            Ok((c, z, rest)) => r matches Ok((v, z2)) && v@ == c && z2 == z && final(pend)@ == rest,
            Err(e) => r == Err::<(Vec<u8>, bool), CafeError>(e),
        },
{
    let ghost orig = pend@;
    let ghost d = opt_bytes(dict);
    let mut out: Vec<u8> = Vec::new();
    let mut z = false;
    proof {
        match flush_pass(orig, pass, rb as nat, tr as nat, level, d) {
            Ok((c2, _, _)) => assert(Seq::<u8>::empty() + c2 =~= c2),
            Err(_) => {},
        }
    }
    if rb == 0 || tr == 0 {
        return Ok((out, z));
    }
    let tru = tr as usize;
    while pend.len() / rb >= tru
        invariant
            rb > 0, tru == tr, tr > 0, d == opt_bytes(dict), orig == old(pend)@,
            flush_pass(orig, pass, rb as nat, tr as nat, level, d)
                == prepend(out@, z, flush_pass(pend@, pass, rb as nat, tr as nat, level, d)),
        decreases pend@.len(),
    {
        proof {
            lemma_take_fits(pend@.len(), rb as nat, tr as nat);
        }
        let take = tru * rb;
        let mut payload: Vec<u8> = Vec::new();
        payload.push(pass);
        append_bytes(&mut payload, &pend.as_slice()[0..take]);
        assert(payload@ =~= seq![pass] + pend@.take(take as int));
        let ghost before = pend@;
        proof {
            lemma_flush_step(before, pass, rb as nat, tr as nat, level, d);
        }
        let (c, cz, _) = match build_idat_chunk(payload.as_slice(), level, dict) {
            Ok(x) => x,
            Err(e) => return Err(e),
        };
        let rest = crate::bytes::copy_bytes(&pend.as_slice()[take..pend.len()]);
        assert(rest@ =~= before.skip(take as int));
        proof {
            match flush_pass(rest@, pass, rb as nat, tr as nat, level, d) {
                Ok((cs, _, _)) => assert(out@ + (c@ + cs) =~= (out@ + c@) + cs),
                Err(_) => {},
            }
        }
        *pend = rest;
        append_bytes(&mut out, c.as_slice());
        z = z || cz;
    }
    proof {
        assert(out@ + Seq::<u8>::empty() =~= out@);
    }
    Ok((out, z))
}

fn flush_rest_exec(pend: &Vec<u8>, pass: u8, rb: usize, level: i32, dict: Option<&[u8]>) -> (r: Result<(Vec<u8>, bool), CafeError>)
    ensures
        match flush_rest(pend@, pass, rb as nat, level, opt_bytes(dict)) {
            Ok((c, z)) => r matches Ok((v, z2)) && v@ == c && z2 == z,
            Err(e) => r == Err::<(Vec<u8>, bool), CafeError>(e),
        },
{
    if rb == 0 || pend.len() / rb == 0 {
        return Ok((Vec::new(), false));
    }
    let rows = pend.len() / rb;
    proof {
        vstd::arithmetic::div_mod::lemma_fundamental_div_mod(pend@.len() as int, rb as int);
        assert(rows * rb == rb * rows) by (nonlinear_arith);
    }
    let take = rows * rb;
    let mut payload: Vec<u8> = Vec::new();
    payload.push(pass);
    append_bytes(&mut payload, &pend.as_slice()[0..take]);
    assert(payload@ =~= seq![pass] + pend@.take(take as int));
    match build_idat_chunk(payload.as_slice(), level, dict) {
        Ok((c, z, _)) => Ok((c, z)),
        Err(e) => Err(e),
    }
}

impl Encoder {
    /// Adds whole RGBA rows (their count read off the length) to the even
    /// and odd passes by the parity of their image row, then writes an
    /// `IDAT` for every `tile_rows` rows pending in a pass (even pass
    /// first). Returns those `IDAT`s. The rows count as submitted once
    /// checked (see `eo_rows`); when an `IDAT` fails, the added rows stay
    /// pending and nothing is returned but the error.
    pub fn add_even_odd_rows(&mut self, rgba_rows: &[u8]) -> (r: Result<Vec<u8>, CafeError>)
        requires old(self).wf(),
        ensures
            final(self).wf(),
            match eo_rows(*old(self), rgba_rows@.len()) {
                Err(e) => r == Err::<Vec<u8>, CafeError>(e) && *final(self) == *old(self),
                Ok(n) => {
                    let rb = (old(self).width * 4) as nat;
                    let (ev, od) = eo_split(rgba_rows@, rb, old(self).rows_written as nat, n);
                    let pe = old(self).pending_even@ + ev;
                    let po = old(self).pending_odd@ + od;
                    let tr = old(self).tile_rows_hint as nat;
                    let dict = opt_vec(old(self).zstd_dictionary);
                    &&& same_setup(*final(self), *old(self))
                    &&& final(self).idim_next_tile_idx == old(self).idim_next_tile_idx
                    &&& final(self).rows_written == old(self).rows_written + n
                    &&& match (flush_pass(pe, 1, rb, tr, old(self).level, dict), flush_pass(po, 2, rb, tr, old(self).level, dict)) {
                        (Ok((c0, z0, re)), Ok((c1, z1, ro))) => r matches Ok(v) && v@ == c0 + c1
                            && final(self).pending_even@ == re && final(self).pending_odd@ == ro
                            && final(self).uses_zstd == (old(self).uses_zstd || z0 || z1),
                        (Err(e), _) => r == Err::<Vec<u8>, CafeError>(e) && final(self).pending_even@ == pe
                            && final(self).pending_odd@ == po && final(self).uses_zstd == old(self).uses_zstd,
                        (Ok(_), Err(e)) => r == Err::<Vec<u8>, CafeError>(e) && final(self).pending_even@ == pe
                            && final(self).pending_odd@ == po && final(self).uses_zstd == old(self).uses_zstd,
                    }
                },
            },
    {
        if !self.even_odd_interlace {
            return Err(CafeError::UnsupportedFeature("add_even_odd_rows: needs even/odd interlace, whole RGBA rows and no more rows than the height", None));
        }
        let rb128: u128 = (self.width as u128) * 4;
        if rb128 > usize::MAX as u128 {
            return Err(CafeError::UnsupportedFeature("add_even_odd_rows: needs even/odd interlace, whole RGBA rows and no more rows than the height", None));
        }
        let rb = rb128 as usize;
        if rgba_rows.len() % rb != 0 {
            return Err(CafeError::UnsupportedFeature("add_even_odd_rows: needs even/odd interlace, whole RGBA rows and no more rows than the height", None));
        }
        let n = rgba_rows.len() / rb;
        if (self.rows_written as u128) + (n as u128) > self.height as u128 {
            return Err(CafeError::UnsupportedFeature("add_even_odd_rows: needs even/odd interlace, whole RGBA rows and no more rows than the height", None));
        }
        let ghost start = self.rows_written as nat;
        let ghost total = rgba_rows@.len();
        proof {
            vstd::arithmetic::div_mod::lemma_fundamental_div_mod(total as int, rb as int);
            assert(n * rb == rb * n) by (nonlinear_arith);
        }
        let mut pe = crate::bytes::copy_bytes(self.pending_even.as_slice());
        let mut po = crate::bytes::copy_bytes(self.pending_odd.as_slice());
        let total_len = rgba_rows.len();
        let mut i: usize = 0;
        while i < n
            invariant
                i <= n, n * rb == rgba_rows@.len(), rb > 0, start <= 0xffff_ffff, total_len == rgba_rows@.len(),
                start + n <= self.height,
                pe@ == self.pending_even@ + eo_split(rgba_rows@, rb as nat, start, i as nat).0,
                po@ == self.pending_odd@ + eo_split(rgba_rows@, rb as nat, start, i as nat).1,
                start == self.rows_written,
            decreases n - i,
        {
            assert((i + 1) * rb <= n * rb && i * rb + rb == (i + 1) * rb) by (nonlinear_arith) requires i < n;
            let s0 = i * rb;
            let row = &rgba_rows[s0..s0 + rb];
            assert(row@ =~= rgba_rows@.subrange(i * rb, (i + 1) * rb));
            if ((self.rows_written as u64) + (i as u64)) % 2 == 0 {
                let ghost before = pe@;
                append_bytes(&mut pe, row);
                assert(pe@ =~= self.pending_even@ + eo_split(rgba_rows@, rb as nat, start, (i + 1) as nat).0);
            } else {
                append_bytes(&mut po, row);
                assert(po@ =~= self.pending_odd@ + eo_split(rgba_rows@, rb as nat, start, (i + 1) as nat).1);
            }
            i += 1;
        }
        self.rows_written = self.rows_written + n as u32;
        let dict = opt_slice(&self.zstd_dictionary);
        let mut fe = crate::bytes::copy_bytes(pe.as_slice());
        let mut fo = crate::bytes::copy_bytes(po.as_slice());
        let (c0, z0) = match flush_pass_exec(&mut fe, 1, rb, self.tile_rows_hint, self.level, dict) {
            Ok(x) => x,
            Err(e) => {
                self.pending_even = pe;
                self.pending_odd = po;
                return Err(e);
            },
        };
        let (c1, z1) = match flush_pass_exec(&mut fo, 2, rb, self.tile_rows_hint, self.level, dict) {
            Ok(x) => x,
            Err(e) => {
                self.pending_even = pe;
                self.pending_odd = po;
                return Err(e);
            },
        };
        self.pending_even = fe;
        self.pending_odd = fo;
        self.uses_zstd = self.uses_zstd || z0 || z1;
        let mut out = c0;
        append_bytes(&mut out, c1.as_slice());
        Ok(out)
    }

    /// The bytes that end the file (see `finish_spec`).
    pub fn finish(self) -> (r: Result<Vec<u8>, CafeError>)
        requires self.wf(),
        ensures
            match finish_spec(self) {
                Ok((b, _)) => r matches Ok(v) && v@ == b,
                Err(e) => r == Err::<Vec<u8>, CafeError>(e),
            },
    {
        match self.finish_parts() {
            Ok((b, _)) => Ok(b),
            Err(e) => Err(e),
        }
    }

    fn finish_parts(&self) -> (r: Result<(Vec<u8>, bool), CafeError>)
        requires self.wf(),
        ensures
            match finish_spec(*self) {
                Ok((b, z)) => r matches Ok((v, z2)) && v@ == b && z2 == z,
                Err(e) => r == Err::<(Vec<u8>, bool), CafeError>(e),
            },
    {
        let done = match &self.idim {
            Some(_) => self.idim_next_tile_idx == self.idim_tile_order.len(),
            None => self.rows_written == self.height,
        };
        if !done {
            return Err(CafeError::UnsupportedFeature("finish: not every row or tile was added", None));
        }
        let empty: Vec<u8> = Vec::new();
        let iend = write_chunk(&CHUNK_IEND, FLAG_RAW, empty.as_slice());
        assert(empty@ =~= Seq::<u8>::empty());
        if self.even_odd_interlace {
            let rb = (self.width as usize) * self.bpp;
            let dict = opt_slice(&self.zstd_dictionary);
            let (c0, z0) = match flush_rest_exec(&self.pending_even, 1, rb, self.level, dict) {
                Ok(x) => x,
                Err(e) => return Err(e),
            };
            let (c1, z1) = match flush_rest_exec(&self.pending_odd, 2, rb, self.level, dict) {
                Ok(x) => x,
                Err(e) => return Err(e),
            };
            let mut out = c0;
            append_bytes(&mut out, c1.as_slice());
            append_bytes(&mut out, iend.as_slice());
            Ok((out, self.uses_zstd || z0 || z1))
        } else {
            Ok((iend, self.uses_zstd))
        }
    }

    /// The bytes that end the file (see `finish_spec`), with what goes back
    /// into `IHDR` once every chunk is known: the compression method
    /// (Zstandard only when some chunk is compressed), for byte 29 of the
    /// file, and the chunk's new CRC32 (big-endian), for bytes 32 to 35.
    pub fn finish_exact(self) -> (r: Result<(Vec<u8>, u8, Vec<u8>), CafeError>)
        requires self.wf(),
        ensures
            match finish_spec(self) {
                Ok((b, z)) => r matches Ok((v, cm, crc)) && v@ == b && cm == (if z { COMPRESSION_METHOD_ZSTD_BIT } else { 0u8 })
                    && crc@ == be32_bytes(crc32_of(self.ihdr_type_flag_data@.update(16, cm))),
                Err(e) => r == Err::<(Vec<u8>, u8, Vec<u8>), CafeError>(e),
            },
    {
        let (b, z) = match self.finish_parts() {
            Ok(x) => x,
            Err(e) => return Err(e),
        };
        let cm: u8 = if z { COMPRESSION_METHOD_ZSTD_BIT } else { 0 };
        let mut tfd = crate::bytes::copy_bytes(self.ihdr_type_flag_data.as_slice());
        tfd.set(16, cm);
        let crc = crc32(tfd.as_slice());
        let mut crc_bytes: Vec<u8> = Vec::new();
        push_be32(&mut crc_bytes, crc);
        assert(crc_bytes@ =~= Seq::<u8>::empty() + be32_bytes(crc));
        Ok((b, cm, crc_bytes))
    }
}

} // verus!
