//! The `IHDR` chunk: image dimensions, bit depth, sample format, color type,
//! compression, filter and interlace methods, and what a decoder derives from
//! them (bytes per row, the ceiling on decompressed image data).

use vstd::prelude::*;

use crate::color::{be32_at, be32_bytes, row_bytes};
use crate::constants::{
    COLOR_TYPE_GRAY, COLOR_TYPE_GRAY_ALPHA, COLOR_TYPE_INDEXED, COLOR_TYPE_RGB, COLOR_TYPE_RGBA,
    COMPRESSION_METHOD_ZSTD_BIT, FILTER_METHOD_BYTE_SHUFFLE, FILTER_METHOD_NONE, FILTER_METHOD_PREDICTIVE,
    FILTER_METHOD_PREDICTIVE_PER_ROW, INTERLACE_ADAM7, INTERLACE_EVEN_ODD, INTERLACE_NONE, SAMPLE_FORMAT_FLOAT,
    SAMPLE_FORMAT_HALF, SAMPLE_FORMAT_UINT,
};
use crate::error::CafeError;

verus! {

/// Length of the `IHDR` payload.
pub const IHDR_LEN: usize = 14;

/// Decoder state set up by the `IHDR` chunk.
#[derive(Clone, Copy, Debug, PartialEq, Eq, Structural)]
pub struct DecodeState {
    pub width: Option<u32>,
    pub height: Option<u32>,
    pub filter_method: u8,
    pub interlace_method_read: u8,
    pub bytes_per_row: usize,
    pub decompress_budget: Option<u64>,
    pub color_type: u8,
    pub bit_depth: u8,
    pub sample_format: u8,
}

/// The state before any chunk: no dimensions, 8-bit RGBA unsigned samples.
pub open spec fn initial_decode_state() -> DecodeState {
    DecodeState {
        width: None,
        height: None,
        filter_method: FILTER_METHOD_NONE,
        interlace_method_read: INTERLACE_NONE,
        bytes_per_row: 0,
        decompress_budget: None,
        color_type: COLOR_TYPE_RGBA,
        bit_depth: 8,
        sample_format: SAMPLE_FORMAT_UINT,
    }
}

impl Default for DecodeState {
    fn default() -> (s: Self)
        ensures s == initial_decode_state(),
    {
        DecodeState {
            width: None,
            height: None,
            filter_method: FILTER_METHOD_NONE,
            interlace_method_read: INTERLACE_NONE,
            bytes_per_row: 0,
            decompress_budget: None,
            color_type: COLOR_TYPE_RGBA,
            bit_depth: 8,
            sample_format: SAMPLE_FORMAT_UINT,
        }
    }
}

/// The ceiling on the total decompressed bytes of all `IDAT` chunks: the
/// image's pixel bytes plus room for one filter byte per row (or one pass
/// byte per pass, and for even/odd one per row and at least one per pass,
/// when interlaced). Saturates at `u64::MAX`.
pub open spec fn decompress_budget_spec(interlace: u8, color_type: u8, w: u32, h: u32, bytes_per_row: usize) -> u64 {
    let pixels = w * h;
    let cap = |v: int| if v > u64::MAX { u64::MAX } else { v as u64 };
    if interlace == INTERLACE_ADAM7 {
        cap(pixels * 4 + 7)
    } else if interlace == INTERLACE_EVEN_ODD {
        cap(pixels * 4 + (if h < 2 { 2 } else { h as int }))
    } else if color_type == COLOR_TYPE_INDEXED {
        cap(pixels + h)
    } else {
        cap(bytes_per_row * h + h)
    }
}

/// Computes the ceiling on decompressed `IDAT` bytes for an image.
pub fn compute_decompress_budget(interlace: u8, color_type: u8, w: u32, h: u32, bytes_per_row: usize) -> (r: u64)
    ensures r == decompress_budget_spec(interlace, color_type, w, h, bytes_per_row),
{
    assert((w as u128) * (h as u128) <= 0xffff_ffff * 0xffff_ffff) by (nonlinear_arith)
        requires w <= 0xffff_ffff, h <= 0xffff_ffff;
    assert((bytes_per_row as u128) * (h as u128) <= 0xffff_ffff_ffff_ffff * 0xffff_ffff) by (nonlinear_arith)
        requires bytes_per_row <= 0xffff_ffff_ffff_ffff, h <= 0xffff_ffff;
    let pixels: u128 = (w as u128) * (h as u128);
    assert(pixels <= 0xffff_ffff * 0xffff_ffff);
    let v: u128 = if interlace == INTERLACE_ADAM7 {
        pixels * 4 + 7
    } else if interlace == INTERLACE_EVEN_ODD {
        pixels * 4 + (if h < 2 { 2 } else { h as u128 })
    } else if color_type == COLOR_TYPE_INDEXED {
        pixels + h as u128
    } else {
        (bytes_per_row as u128) * (h as u128) + h as u128
    };
    if v > u64::MAX as u128 { u64::MAX } else { v as u64 }
}

/// Bytes per row of a direct-color image: packed sub-byte gray rows
/// `ceil(width * channels * bit_depth / 8)`, else `width * bpp`.
pub open spec fn direct_row_bytes(width: u32, color_type: u8, bit_depth: u8, bpp: usize) -> Option<nat> {
    if bit_depth < 8 && (color_type == COLOR_TYPE_GRAY || color_type == COLOR_TYPE_GRAY_ALPHA) {
        let ch: nat = if color_type == COLOR_TYPE_GRAY { 1 } else { 2 };
        if width * ch * bit_depth > usize::MAX { None } else { Some(row_bytes((width * ch) as nat, bit_depth as nat)) }
    } else if width * bpp > usize::MAX {
        None
    } else {
        Some((width * bpp) as nat)
    }
}

/// Bytes per row of a direct (non-indexed) color image, `bpp` being the
/// color type's bytes per pixel at this depth. `UnsupportedFeature` when the
/// count does not fit in `usize`.
pub fn bytes_per_row_for_direct_color(width: u32, color_type: u8, bit_depth: u8, bpp: usize) -> (r: Result<usize, CafeError>)
    ensures
        match r {
            Ok(n) => direct_row_bytes(width, color_type, bit_depth, bpp) == Some(n as nat),
            Err(e) => direct_row_bytes(width, color_type, bit_depth, bpp) is None && e == CafeError::UnsupportedFeature("row size in bytes overflows", None),
        },
{
    if bit_depth < 8 && (color_type == COLOR_TYPE_GRAY || color_type == COLOR_TYPE_GRAY_ALPHA) {
        let ch: u128 = if color_type == COLOR_TYPE_GRAY { 1 } else { 2 };
        assert((width as u128) * ch * (bit_depth as u128) <= 0xffff_ffff * 2 * 8) by (nonlinear_arith)
            requires width <= 0xffff_ffff, ch <= 2, bit_depth < 8;
        let bits: u128 = (width as u128) * ch * (bit_depth as u128);
        if bits > usize::MAX as u128 {
            return Err(CafeError::UnsupportedFeature("row size in bytes overflows", None));
        }
        let bytes: u128 = bits / 8 + if bits % 8 != 0 { 1 } else { 0 };
        proof {
            vstd::arithmetic::div_mod::lemma_fundamental_div_mod(bits as int, 8);
            vstd::arithmetic::div_mod::lemma_fundamental_div_mod(bits + 7, 8);
        }
        Ok(bytes as usize)
    } else {
        assert((width as u128) * (bpp as u128) <= 0xffff_ffff * 0xffff_ffff_ffff_ffff) by (nonlinear_arith)
            requires width <= 0xffff_ffff, bpp <= 0xffff_ffff_ffff_ffff;
        let n: u128 = (width as u128) * (bpp as u128);
        if n > usize::MAX as u128 {
            return Err(CafeError::UnsupportedFeature("row size in bytes overflows", None));
        }
        Ok(n as usize)
    }
}

/// Bytes per row an `IHDR` implies for color type `ct` at depth `bd`, `prev`
/// for indexed color (set later from the palette); `None` for an unsupported
/// combination. Wide rows are `width * bytes_per_pixel`, cut to `usize`.
pub open spec fn ihdr_row_bytes(ct: u8, bd: u8, w: u32, prev: usize) -> Option<usize> {
    if ct == COLOR_TYPE_GRAY {
        if bd == 1 || bd == 2 || bd == 4 { Some(row_bytes(w as nat, bd as nat) as usize) }
        else if bd == 8 { Some(w as usize) }
        else if bd == 10 || bd == 12 || bd == 16 { Some((w * 2) as usize) }
        else if bd == 32 { Some((w * 4) as usize) }
        else { None }
    } else if ct == COLOR_TYPE_RGB {
        if bd == 8 { Some((w * 3) as usize) }
        else if bd == 10 || bd == 12 || bd == 16 { Some((w * 6) as usize) }
        else if bd == 32 { Some((w * 12) as usize) }
        else { None }
    } else if ct == COLOR_TYPE_INDEXED {
        if bd == 1 || bd == 2 || bd == 4 || bd == 8 { Some(prev) } else { None }
    } else if ct == COLOR_TYPE_GRAY_ALPHA {
        if bd == 1 || bd == 2 || bd == 4 { Some(row_bytes((2 * w) as nat, bd as nat) as usize) }
        else if bd == 8 { Some((w * 2) as usize) }
        else if bd == 10 || bd == 12 || bd == 16 { Some((w * 4) as usize) }
        else if bd == 32 { Some((w * 8) as usize) }
        else { None }
    } else if ct == COLOR_TYPE_RGBA {
        if bd == 8 { Some((w * 4) as usize) }
        else if bd == 10 || bd == 12 || bd == 16 { Some((w * 8) as usize) }
        else if bd == 32 { Some((w * 16) as usize) }
        else { None }
    } else {
        None
    }
}

/// The filter methods a decoder accepts.
pub open spec fn valid_filter_method(fm: u8) -> bool {
    fm == FILTER_METHOD_NONE || fm == FILTER_METHOD_BYTE_SHUFFLE || fm == FILTER_METHOD_PREDICTIVE
        || fm == FILTER_METHOD_PREDICTIVE_PER_ROW
}

/// The interlace methods a decoder accepts.
pub open spec fn valid_interlace(il: u8) -> bool {
    il == INTERLACE_NONE || il == INTERLACE_ADAM7 || il == INTERLACE_EVEN_ODD
}

/// What handling an `IHDR` payload does: the result, and the state after it
/// (a failed check may leave the fields set before it changed).
pub open spec fn ihdr_step(st: DecodeState, data: Seq<u8>) -> (Result<(), CafeError>, DecodeState) {
    if st.width is Some {
        (Err(CafeError::UnsupportedFeature("duplicate IHDR chunk", None)), st)
    } else if data.len() < IHDR_LEN {
        (Err(CafeError::TruncatedFile("IHDR: insufficient data")), st)
    } else {
        let w = be32_at(data, 0);
        let h = be32_at(data, 4);
        let (bd, sf, ct, cm, fm, il) = (data[8], data[9], data[10], data[11], data[12], data[13]);
        if w == 0 || h == 0 {
            (Err(CafeError::UnsupportedFeature("IHDR: width and height must be nonzero", None)), st)
        } else if !(sf == SAMPLE_FORMAT_UINT || sf == SAMPLE_FORMAT_FLOAT || sf == SAMPLE_FORMAT_HALF) {
            (Err(CafeError::UnsupportedFeature("IHDR: unknown sample format", Some(sf as u64))), st)
        } else {
            let st1 = DecodeState { sample_format: sf, ..st };
            if (sf == SAMPLE_FORMAT_FLOAT && bd != 32) || (sf == SAMPLE_FORMAT_HALF && bd != 16) {
                (Err(CafeError::UnsupportedFeature("IHDR: float samples need bit depth 32, half samples bit depth 16", None)), st1)
            } else {
                match ihdr_row_bytes(ct, bd, w, st.bytes_per_row) {
                    None => (Err(CafeError::UnsupportedFeature("IHDR: color type and bit depth not supported together", None)), st1),
                    Some(bpr) => {
                        let st3 = DecodeState { color_type: ct, bit_depth: bd, bytes_per_row: bpr, ..st1 };
                        if !valid_filter_method(fm) {
                            (Err(CafeError::UnsupportedFeature("IHDR: unknown filter method", Some(fm as u64))), st3)
                        } else if !valid_interlace(il) {
                            (Err(CafeError::UnsupportedFeature("IHDR: unknown interlace method", Some(il as u64))), st3)
                        } else if (cm & !COMPRESSION_METHOD_ZSTD_BIT) != 0 {
                            (Err(CafeError::UnsupportedFeature("IHDR: unknown compression method bits", Some(cm as u64))), st3)
                        } else if fm == FILTER_METHOD_BYTE_SHUFFLE && il != INTERLACE_NONE {
                            (Err(CafeError::UnsupportedFeature("byte shuffle (filter_method=1) is incompatible with interlacing", None)), st3)
                        } else if fm == FILTER_METHOD_PREDICTIVE_PER_ROW && il != INTERLACE_NONE {
                            (Err(CafeError::UnsupportedFeature("per-row predictive filter (filter_method=3) is incompatible with interlacing", None)), st3)
                        } else {
                            let budget = if st.decompress_budget is None {
                                Some(decompress_budget_spec(il, ct, w, h, bpr))
                            } else {
                                st.decompress_budget
                            };
                            (Ok(()), DecodeState {
                                width: Some(w),
                                height: Some(h),
                                filter_method: fm,
                                interlace_method_read: il,
                                decompress_budget: budget,
                                ..st3
                            })
                        }
                    },
                }
            }
        }
    }
}

fn times(w: u32, k: u64) -> (r: usize)
    requires k <= 16,
    ensures r == (w * k) as usize,
{
    assert((w as u64) * k <= 16 * 0xffff_ffff) by (nonlinear_arith) requires w <= 0xffff_ffff, k <= 16;
    #[verifier::truncate]
    let r = ((w as u64) * k) as usize;
    r
}

/// Handles an `IHDR` payload: checks it appears once and is 14 bytes long,
/// that the dimensions are nonzero, that sample format, color type, bit
/// depth, compression, filter and interlace methods are supported and
/// consistent, then records them with the row size and the decompression
/// ceiling.
pub fn handle_ihdr_chunk(state: &mut DecodeState, data: &[u8]) -> (r: Result<(), CafeError>)
    ensures (r, *final(state)) == ihdr_step(*old(state), data@),
{
    if state.width.is_some() {
        return Err(CafeError::UnsupportedFeature("duplicate IHDR chunk", None));
    }
    if data.len() < IHDR_LEN {
        return Err(CafeError::TruncatedFile("IHDR: insufficient data"));
    }
    let w = match crate::color::read_u32_be(data, 0) {
        Ok(v) => v,
        Err(e) => return Err(e),
    };
    let h = match crate::color::read_u32_be(data, 4) {
        Ok(v) => v,
        Err(e) => return Err(e),
    };
    let bd = data[8];
    let sf = data[9];
    let ct = data[10];
    let compression_method = data[11];
    let fm = data[12];
    let interlace_method = data[13];
    if w == 0 || h == 0 {
        return Err(CafeError::UnsupportedFeature("IHDR: width and height must be nonzero", None));
    }
    if !(sf == SAMPLE_FORMAT_UINT || sf == SAMPLE_FORMAT_FLOAT || sf == SAMPLE_FORMAT_HALF) {
        return Err(CafeError::UnsupportedFeature("IHDR: unknown sample format", Some(sf as u64)));
    }
    state.sample_format = sf;
    if sf == SAMPLE_FORMAT_FLOAT && bd != 32 {
        return Err(CafeError::UnsupportedFeature("IHDR: float samples need bit depth 32, half samples bit depth 16", None));
    }
    if sf == SAMPLE_FORMAT_HALF && bd != 16 {
        return Err(CafeError::UnsupportedFeature("IHDR: float samples need bit depth 32, half samples bit depth 16", None));
    }
    let bytes_per_row: usize = if ct == COLOR_TYPE_GRAY {
        if bd == 1 || bd == 2 || bd == 4 {
            match crate::color::bytes_per_row_for_bit_depth(w, bd) {
                Ok(b) => b,
                Err(_) => w as usize,
            }
        } else if bd == 8 {
            w as usize
        } else if bd == 10 || bd == 12 || bd == 16 {
            times(w, 2)
        } else if bd == 32 {
            times(w, 4)
        } else {
            return Err(CafeError::UnsupportedFeature("IHDR: color type and bit depth not supported together", None));
        }
    } else if ct == COLOR_TYPE_RGB {
        if bd == 8 {
            times(w, 3)
        } else if bd == 10 || bd == 12 || bd == 16 {
            times(w, 6)
        } else if bd == 32 {
            times(w, 12)
        } else {
            return Err(CafeError::UnsupportedFeature("IHDR: color type and bit depth not supported together", None));
        }
    } else if ct == COLOR_TYPE_INDEXED {
        if bd != 1 && bd != 2 && bd != 4 && bd != 8 {
            return Err(CafeError::UnsupportedFeature("IHDR: color type and bit depth not supported together", None));
        }
        state.bytes_per_row
    } else if ct == COLOR_TYPE_GRAY_ALPHA {
        if bd == 1 || bd == 2 || bd == 4 {
            assert((w as u64) * 2 * (bd as u64) <= 0xffff_ffff * 8) by (nonlinear_arith)
                requires w <= 0xffff_ffff, bd <= 4;
            let bits: u64 = (w as u64) * 2 * (bd as u64);
            let bytes: u64 = bits / 8 + if bits % 8 != 0 { 1 } else { 0 };
            proof {
                assert(bits <= 0xffff_ffff * 8);
                vstd::arithmetic::div_mod::lemma_fundamental_div_mod(bits as int, 8);
                vstd::arithmetic::div_mod::lemma_fundamental_div_mod(bits + 7, 8);
                assert(bytes <= 0x1_0000_0000);
            }
            #[verifier::truncate]
            let b = bytes as usize;
            b
        } else if bd == 8 {
            times(w, 2)
        } else if bd == 10 || bd == 12 || bd == 16 {
            times(w, 4)
        } else if bd == 32 {
            times(w, 8)
        } else {
            return Err(CafeError::UnsupportedFeature("IHDR: color type and bit depth not supported together", None));
        }
    } else if ct == COLOR_TYPE_RGBA {
        if bd == 8 {
            times(w, 4)
        } else if bd == 10 || bd == 12 || bd == 16 {
            times(w, 8)
        } else if bd == 32 {
            times(w, 16)
        } else {
            return Err(CafeError::UnsupportedFeature("IHDR: color type and bit depth not supported together", None));
        }
    } else {
        return Err(CafeError::UnsupportedFeature("IHDR: color type and bit depth not supported together", None));
    };
    state.color_type = ct;
    state.bit_depth = bd;
    state.bytes_per_row = bytes_per_row;
    if fm != FILTER_METHOD_NONE && fm != FILTER_METHOD_BYTE_SHUFFLE && fm != FILTER_METHOD_PREDICTIVE
        && fm != FILTER_METHOD_PREDICTIVE_PER_ROW {
        return Err(CafeError::UnsupportedFeature("IHDR: unknown filter method", Some(fm as u64)));
    }
    if interlace_method != INTERLACE_NONE && interlace_method != INTERLACE_ADAM7 && interlace_method != INTERLACE_EVEN_ODD {
        return Err(CafeError::UnsupportedFeature("IHDR: unknown interlace method", Some(interlace_method as u64)));
    }
    if compression_method & !COMPRESSION_METHOD_ZSTD_BIT != 0 {
        return Err(CafeError::UnsupportedFeature("IHDR: unknown compression method bits", Some(compression_method as u64)));
    }
    if fm == FILTER_METHOD_BYTE_SHUFFLE && interlace_method != INTERLACE_NONE {
        return Err(CafeError::UnsupportedFeature("byte shuffle (filter_method=1) is incompatible with interlacing", None));
    }
    if fm == FILTER_METHOD_PREDICTIVE_PER_ROW && interlace_method != INTERLACE_NONE {
        return Err(CafeError::UnsupportedFeature("per-row predictive filter (filter_method=3) is incompatible with interlacing", None));
    }
    state.width = Some(w);
    state.height = Some(h);
    state.filter_method = fm;
    state.interlace_method_read = interlace_method;
    if state.decompress_budget.is_none() {
        state.decompress_budget = Some(compute_decompress_budget(interlace_method, ct, w, h, state.bytes_per_row));
    }
    Ok(())
}

/// The 14-byte `IHDR` payload an encoder writes.
pub open spec fn ihdr_payload_spec(w: u32, h: u32, bd: u8, sf: u8, ct: u8, cm: u8, fm: u8, il: u8) -> Seq<u8> {
    be32_bytes(w) + be32_bytes(h) + seq![bd, sf, ct, cm, fm, il]
}

/// Builds the 14-byte `IHDR` payload: width, height (big-endian), bit depth,
/// sample format, color type, compression method, filter method, interlace
/// method.
pub fn build_ihdr_payload(w: u32, h: u32, bd: u8, sf: u8, ct: u8, cm: u8, fm: u8, il: u8) -> (out: Vec<u8>)
    ensures out@ == ihdr_payload_spec(w, h, bd, sf, ct, cm, fm, il),
{
    let mut out: Vec<u8> = Vec::with_capacity(IHDR_LEN);
    crate::color::push_be32(&mut out, w);
    crate::color::push_be32(&mut out, h);
    out.push(bd);
    out.push(sf);
    out.push(ct);
    out.push(cm);
    out.push(fm);
    out.push(il);
    assert(out@ =~= ihdr_payload_spec(w, h, bd, sf, ct, cm, fm, il));
    out
}

pub(crate) proof fn lemma_be32_at_bytes(v: u32, s: Seq<u8>, o: int)
    requires 0 <= o, o + 4 <= s.len(), s.subrange(o, o + 4) == be32_bytes(v),
    ensures be32_at(s, o) == v,
{
    assert(s[o] == be32_bytes(v)[0]);
    assert(s[o + 1] == be32_bytes(v)[1]);
    assert(s[o + 2] == be32_bytes(v)[2]);
    assert(s[o + 3] == be32_bytes(v)[3]);
    assert((v / 0x100_0000) * 0x100_0000 + ((v / 0x1_0000) % 256) * 0x1_0000 + ((v / 0x100) % 256) * 0x100 + v % 256 == v) by {
        vstd::arithmetic::div_mod::lemma_fundamental_div_mod(v as int, 256);
        vstd::arithmetic::div_mod::lemma_fundamental_div_mod(v as int / 256, 256);
        vstd::arithmetic::div_mod::lemma_fundamental_div_mod(v as int / 0x1_0000, 256);
        vstd::arithmetic::div_mod::lemma_div_denominator(v as int, 256, 256);
        vstd::arithmetic::div_mod::lemma_div_denominator(v as int, 0x1_0000, 256);
    }
}

/// `IHDR` round trip: a fresh decoder reading an `IHDR` payload built from
/// supported, consistent parameters accepts it and records exactly those
/// parameters.
pub proof fn lemma_ihdr_roundtrip(w: u32, h: u32, bd: u8, sf: u8, ct: u8, cm: u8, fm: u8, il: u8)
    requires
        w > 0, h > 0,
        sf == SAMPLE_FORMAT_UINT || sf == SAMPLE_FORMAT_FLOAT || sf == SAMPLE_FORMAT_HALF,
        sf == SAMPLE_FORMAT_FLOAT ==> bd == 32,
        sf == SAMPLE_FORMAT_HALF ==> bd == 16,
        ihdr_row_bytes(ct, bd, w, 0) is Some,
        valid_filter_method(fm), valid_interlace(il), cm & !COMPRESSION_METHOD_ZSTD_BIT == 0,
        fm == FILTER_METHOD_BYTE_SHUFFLE ==> il == INTERLACE_NONE,
        fm == FILTER_METHOD_PREDICTIVE_PER_ROW ==> il == INTERLACE_NONE,
    ensures
        ({
            let (r, st) = ihdr_step(initial_decode_state(), ihdr_payload_spec(w, h, bd, sf, ct, cm, fm, il));
            &&& r is Ok
            &&& st.width == Some(w) && st.height == Some(h)
            &&& st.bit_depth == bd && st.sample_format == sf && st.color_type == ct
            &&& st.filter_method == fm && st.interlace_method_read == il
            &&& st.bytes_per_row == ihdr_row_bytes(ct, bd, w, 0)->0
            &&& st.decompress_budget == Some(decompress_budget_spec(il, ct, w, h, ihdr_row_bytes(ct, bd, w, 0)->0))
        }),
{
    let p = ihdr_payload_spec(w, h, bd, sf, ct, cm, fm, il);
    assert(p.subrange(0, 4) =~= be32_bytes(w));
    assert(p.subrange(4, 8) =~= be32_bytes(h));
    lemma_be32_at_bytes(w, p, 0);
    lemma_be32_at_bytes(h, p, 4);
    assert(p[8] == bd && p[9] == sf && p[10] == ct && p[11] == cm && p[12] == fm && p[13] == il);
}

} // verus!
