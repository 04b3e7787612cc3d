//! Color types, bit depths and sample conversions: bytes per pixel, sample
//! scaling between 8 bits and 1/2/4/10/12/16/32 bits, sub-byte row packing,
//! and conversion of whole images between RGBA and the other color types.

use vstd::prelude::*;

use crate::constants::{
    COLOR_TYPE_GRAY, COLOR_TYPE_GRAY_ALPHA, COLOR_TYPE_INDEXED, COLOR_TYPE_RGB, COLOR_TYPE_RGBA, SAMPLE_FORMAT_FLOAT,
    SAMPLE_FORMAT_HALF, SAMPLE_FORMAT_UINT,
};
use crate::error::CafeError;
use crate::packing::{pack_row_core, pack_spec, packed_len, samples_fit, sample_mask, sub_byte_depth, unpack_row_core, unpack_spec};
use crate::simd_packing::{pack_samples_spec, unpack_samples_spec};

verus! {

// ---------------------------------------------------------------------------
// Pixel sizes
// ---------------------------------------------------------------------------

/// Bytes per pixel of a color type at a bit depth; sub-byte depths count one
/// byte (their rows are packed). `None` for combinations the format lacks.
pub open spec fn bytes_per_pixel_spec(color_type: u8, bit_depth: u8) -> Option<usize> {
    let bd = bit_depth;
    if color_type == COLOR_TYPE_GRAY {
        if bd == 1 || bd == 2 || bd == 4 || bd == 8 { Some(1) }
        else if bd == 10 || bd == 12 || bd == 16 { Some(2) }
        else if bd == 32 { Some(4) } else { None }
    } else if color_type == COLOR_TYPE_RGB {
        if bd == 8 { Some(3) } else if bd == 10 || bd == 12 || bd == 16 { Some(6) } else if bd == 32 { Some(12) } else { None }
    } else if color_type == COLOR_TYPE_INDEXED {
        if bd == 1 || bd == 2 || bd == 4 || bd == 8 { Some(1) } else { None }
    } else if color_type == COLOR_TYPE_GRAY_ALPHA {
        if bd == 1 || bd == 2 || bd == 4 { Some(1) }
        else if bd == 8 { Some(2) }
        else if bd == 10 || bd == 12 || bd == 16 { Some(4) }
        else if bd == 32 { Some(8) } else { None }
    } else if color_type == COLOR_TYPE_RGBA {
        if bd == 8 { Some(4) } else if bd == 10 || bd == 12 || bd == 16 { Some(8) } else if bd == 32 { Some(16) } else { None }
    } else {
        None
    }
}

/// Bytes per pixel of `color_type` at `bit_depth`, or `None` for a
/// combination the format does not define.
pub fn bytes_per_pixel(color_type: u8, bit_depth: u8) -> (r: Option<usize>)
    ensures r == bytes_per_pixel_spec(color_type, bit_depth),
{
    let bd = bit_depth;
    if color_type == COLOR_TYPE_GRAY {
        if bd == 1 || bd == 2 || bd == 4 || bd == 8 { Some(1) }
        else if bd == 10 || bd == 12 || bd == 16 { Some(2) }
        else if bd == 32 { Some(4) } else { None }
    } else if color_type == COLOR_TYPE_RGB {
        if bd == 8 { Some(3) } else if bd == 10 || bd == 12 || bd == 16 { Some(6) } else if bd == 32 { Some(12) } else { None }
    } else if color_type == COLOR_TYPE_INDEXED {
        if bd == 1 || bd == 2 || bd == 4 || bd == 8 { Some(1) } else { None }
    } else if color_type == COLOR_TYPE_GRAY_ALPHA {
        if bd == 1 || bd == 2 || bd == 4 { Some(1) }
        else if bd == 8 { Some(2) }
        else if bd == 10 || bd == 12 || bd == 16 { Some(4) }
        else if bd == 32 { Some(8) } else { None }
    } else if color_type == COLOR_TYPE_RGBA {
        if bd == 8 { Some(4) } else if bd == 10 || bd == 12 || bd == 16 { Some(8) } else if bd == 32 { Some(16) } else { None }
    } else {
        None
    }
}

/// Bit depth of the sample container for a sample format: 32 for float, 16
/// for half float, `bit_depth` itself for unsigned integers.
pub open spec fn container_depth(bit_depth: u8, sample_format: u8) -> Option<u8> {
    if sample_format == SAMPLE_FORMAT_FLOAT { Some(32u8) }
    else if sample_format == SAMPLE_FORMAT_HALF { Some(16u8) }
    else if sample_format == SAMPLE_FORMAT_UINT { Some(bit_depth) }
    else { None }
}

/// Bytes per pixel once the sample format's container is taken into account.
pub fn bytes_per_pixel_with_format(color_type: u8, bit_depth: u8, sample_format: u8) -> (r: Option<usize>)
    ensures
        r == match container_depth(bit_depth, sample_format) {
            Some(d) => bytes_per_pixel_spec(color_type, d),
            None => None,
        },
{
    let effective = if sample_format == SAMPLE_FORMAT_FLOAT {
        32u8
    } else if sample_format == SAMPLE_FORMAT_HALF {
        16u8
    } else if sample_format == SAMPLE_FORMAT_UINT {
        bit_depth
    } else {
        return None;
    };
    bytes_per_pixel(color_type, effective)
}

/// Channels per pixel of a color type (`None` for indexed and unknown types).
pub open spec fn samples_per_pixel_spec(color_type: u8) -> Option<usize> {
    if color_type == COLOR_TYPE_GRAY { Some(1) }
    else if color_type == COLOR_TYPE_RGB { Some(3) }
    else if color_type == COLOR_TYPE_GRAY_ALPHA { Some(2) }
    else if color_type == COLOR_TYPE_RGBA { Some(4) }
    else { None }
}

/// Channels per pixel of `color_type`.
pub fn samples_per_pixel(color_type: u8) -> (r: Option<usize>)
    ensures r == samples_per_pixel_spec(color_type),
{
    if color_type == COLOR_TYPE_GRAY { Some(1) }
    else if color_type == COLOR_TYPE_RGB { Some(3) }
    else if color_type == COLOR_TYPE_GRAY_ALPHA { Some(2) }
    else if color_type == COLOR_TYPE_RGBA { Some(4) }
    else { None }
}

/// Bit depths rows can be packed at (8 meaning one sample per byte).
pub open spec fn packable_depth(bd: u8) -> bool {
    bd == 1 || bd == 2 || bd == 4 || bd == 8
}

/// Bytes of a row of `width` samples at `bit_depth` bits: `ceil(width * bit_depth / 8)`.
pub open spec fn row_bytes(width: nat, bit_depth: nat) -> nat {
    ((width * bit_depth + 7) / 8) as nat
}

/// Bytes per row of `width` one-sample pixels at bit depth 1, 2, 4 or 8;
/// `UnsupportedFeature` for any other depth.
pub fn bytes_per_row_for_bit_depth(width: u32, bit_depth: u8) -> (r: Result<usize, CafeError>)
    ensures
        match r {
            Ok(n) => packable_depth(bit_depth) && n == row_bytes(width as nat, bit_depth as nat),
            Err(e) => !packable_depth(bit_depth) && e == CafeError::UnsupportedFeature("bit_depth not allowed for packing (only 1, 2, 4, 8)", None),
        },
{
    if bit_depth != 1 && bit_depth != 2 && bit_depth != 4 && bit_depth != 8 {
        return Err(CafeError::UnsupportedFeature("bit_depth not allowed for packing (only 1, 2, 4, 8)", None));
    }
    if bit_depth == 8 {
        assert((width * 8 + 7) / 8 == width as int);
        return Ok(width as usize);
    }
    assert((width as u64) * (bit_depth as u64) <= 4 * 0xffff_ffff) by (nonlinear_arith)
        requires width <= 0xffff_ffff, bit_depth <= 4;
    let bits: u64 = (width as u64) * (bit_depth as u64);
    let bytes: u64 = bits / 8 + if bits % 8 != 0 { 1 } else { 0 };
    assert(bytes <= 0x8000_0000);
    proof {
        vstd::arithmetic::div_mod::lemma_fundamental_div_mod(bits as int, 8);
        vstd::arithmetic::div_mod::lemma_fundamental_div_mod(bits + 7, 8);
    }
    Ok(bytes as usize)
}

// ---------------------------------------------------------------------------
// Sample scaling
// ---------------------------------------------------------------------------

/// An 8-bit sample reduced to `bit_depth` (1: threshold at 128; 2, 4: the
/// top bits; 8: unchanged).
pub open spec fn reduce_spec(v: u8, bit_depth: u8) -> u8 {
    if bit_depth == 1 { if v >= 128 { 1 } else { 0 } }
    else if bit_depth == 2 { v / 64 }
    else if bit_depth == 4 { v / 16 }
    else { v }
}

/// Reduces an 8-bit sample to 1, 2 or 4 bits (8 leaves it unchanged);
/// `UnsupportedFeature` for other depths.
pub fn reduce_sample_8_to_n_bits(value_8bit: u8, bit_depth: u8) -> (r: Result<u8, CafeError>)
    ensures
        match r {
            Ok(v) => packable_depth(bit_depth) && v == reduce_spec(value_8bit, bit_depth),
            Err(e) => !packable_depth(bit_depth) && e == CafeError::UnsupportedFeature("bit_depth not allowed for packing (only 1, 2, 4, 8)", None),
        },
{
    if bit_depth == 1 {
        Ok(if value_8bit >= 128 { 1 } else { 0 })
    } else if bit_depth == 2 {
        Ok(value_8bit / 64)
    } else if bit_depth == 4 {
        Ok(value_8bit / 16)
    } else if bit_depth == 8 {
        Ok(value_8bit)
    } else {
        Err(CafeError::UnsupportedFeature("bit_depth not allowed for packing (only 1, 2, 4, 8)", None))
    }
}

/// A reduced sample scaled back to 8 bits (1: 0 or 255; 2: times 85; 4:
/// times 17; both saturating at 255).
pub open spec fn expand_to_8_spec(v: u8, bit_depth: u8) -> u8 {
    if bit_depth == 1 { if v != 0 { 255 } else { 0 } }
    else if bit_depth == 2 { if v * 85 > 255 { 255 } else { (v * 85) as u8 } }
    else if bit_depth == 4 { if v * 17 > 255 { 255 } else { (v * 17) as u8 } }
    else { v }
}

/// Scales a 1-, 2- or 4-bit sample up to 8 bits (8 leaves it unchanged);
/// `UnsupportedFeature` for other depths.
pub fn expand_sample_n_to_8_bits(value_n_bit: u8, bit_depth: u8) -> (r: Result<u8, CafeError>)
    ensures
        match r {
            Ok(v) => packable_depth(bit_depth) && v == expand_to_8_spec(value_n_bit, bit_depth),
            Err(e) => !packable_depth(bit_depth) && e == CafeError::UnsupportedFeature("bit_depth not allowed for packing (only 1, 2, 4, 8)", None),
        },
{
    if bit_depth == 1 {
        Ok(if value_n_bit != 0 { 255 } else { 0 })
    } else if bit_depth == 2 {
        Ok(if value_n_bit > 3 { 255 } else { value_n_bit * 85 })
    } else if bit_depth == 4 {
        Ok(if value_n_bit > 15 { 255 } else { value_n_bit * 17 })
    } else if bit_depth == 8 {
        Ok(value_n_bit)
    } else {
        Err(CafeError::UnsupportedFeature("bit_depth not allowed for packing (only 1, 2, 4, 8)", None))
    }
}

/// Largest sample value at a wide bit depth (10, 12, 16).
pub open spec fn wide_max(bit_depth: u8) -> int {
    if bit_depth == 10 { 1023 } else if bit_depth == 12 { 4095 } else { 65535 }
}

/// Wide bit depths stored in a 16-bit container.
pub open spec fn wide16_depth(bd: u8) -> bool {
    bd == 10 || bd == 12 || bd == 16
}

/// An 8-bit sample scaled to a wide depth: `v * (2^bd - 1) / 255`, rounded down.
pub open spec fn expand_wide_spec(v: u8, bit_depth: u8) -> u16 {
    (v * wide_max(bit_depth) / 255) as u16
}

/// Scales an 8-bit sample to 10, 12 or 16 bits; `UnsupportedFeature` for
/// other depths.
pub fn expand_sample_8_to_n_bits(value_8bit: u8, bit_depth: u8) -> (r: Result<u16, CafeError>)
    ensures
        match r {
            Ok(v) => wide16_depth(bit_depth) && v == expand_wide_spec(value_8bit, bit_depth),
            Err(e) => !wide16_depth(bit_depth) && e == CafeError::UnsupportedFeature("bit_depth must be 10, 12 or 16", None),
        },
{
    let m: u32 = if bit_depth == 10 {
        1023
    } else if bit_depth == 12 {
        4095
    } else if bit_depth == 16 {
        65535
    } else {
        return Err(CafeError::UnsupportedFeature("bit_depth must be 10, 12 or 16", None));
    };
    let v = value_8bit as u32;
    assert(v * m <= 255 * 65535) by (nonlinear_arith) requires v <= 255, m <= 65535;
    assert(v * m / 255 <= 65535) by (nonlinear_arith) requires v <= 255, m <= 65535, v * m <= 255 * 65535;
    Ok((v * m / 255) as u16)
}

/// An 8-bit sample replicated into the four bytes of a 32-bit sample.
pub open spec fn expand32_spec(v: u8) -> u32 {
    (v * 0x0101_0101) as u32
}

/// Scales an 8-bit sample to 32 bits by repeating it in every byte.
pub fn expand_sample_8_to_32bit(value_8bit: u8) -> (r: u32)
    ensures r == expand32_spec(value_8bit),
{
    (value_8bit as u32) * 0x0101_0101
}

/// A wide sample cut down to 8 bits by dropping low bits (10: two, 12: four,
/// 16: eight); the result keeps the low eight bits of the quotient.
pub open spec fn compress_wide_spec(v: u16, bit_depth: u8) -> u8 {
    if bit_depth == 10 { ((v / 4) % 256) as u8 }
    else if bit_depth == 12 { ((v / 16) % 256) as u8 }
    else { (v / 256) as u8 }
}

/// Reduces a 10-, 12- or 16-bit sample to 8 bits; `UnsupportedFeature` for
/// other depths.
pub fn compress_sample_n_to_8bits(value_n_bit: u16, bit_depth: u8) -> (r: Result<u8, CafeError>)
    ensures
        match r {
            Ok(v) => wide16_depth(bit_depth) && v == compress_wide_spec(value_n_bit, bit_depth),
            Err(e) => !wide16_depth(bit_depth) && e == CafeError::UnsupportedFeature("bit_depth must be 10, 12 or 16", None),
        },
{
    if bit_depth == 10 {
        Ok(((value_n_bit / 4) % 256) as u8)
    } else if bit_depth == 12 {
        Ok(((value_n_bit / 16) % 256) as u8)
    } else if bit_depth == 16 {
        Ok((value_n_bit / 256) as u8)
    } else {
        Err(CafeError::UnsupportedFeature("bit_depth must be 10, 12 or 16", None))
    }
}

/// The top byte of a 32-bit sample.
pub open spec fn compress32_spec(v: u32) -> u8 {
    (v / 0x100_0000) as u8
}

/// Reduces a 32-bit sample to its top byte.
pub fn compress_sample_32bit_to_8(value_32bit: u32) -> (r: u8)
    ensures r == compress32_spec(value_32bit),
{
    (value_32bit / 0x100_0000) as u8
}

// ---------------------------------------------------------------------------
// Big-endian fields
// ---------------------------------------------------------------------------

/// The big-endian 16-bit value at `offset`.
pub open spec fn be16_at(buf: Seq<u8>, offset: int) -> u16 {
    (buf[offset] * 256 + buf[offset + 1]) as u16
}

/// The big-endian 32-bit value at `offset`.
pub open spec fn be32_at(buf: Seq<u8>, offset: int) -> u32 {
    (buf[offset] * 0x100_0000 + buf[offset + 1] * 0x1_0000 + buf[offset + 2] * 0x100 + buf[offset + 3]) as u32
}

/// The two big-endian bytes of `v`.
pub open spec fn be16_bytes(v: u16) -> Seq<u8> {
    seq![(v / 256) as u8, (v % 256) as u8]
}

/// The four big-endian bytes of `v`.
pub open spec fn be32_bytes(v: u32) -> Seq<u8> {
    seq![(v / 0x100_0000) as u8, ((v / 0x1_0000) % 256) as u8, ((v / 0x100) % 256) as u8, (v % 256) as u8]
}

/// Reads a big-endian `u16` at `offset`; `TruncatedFile` when `buf` ends first.
pub fn read_u16_be(buf: &[u8], offset: usize) -> (r: Result<u16, CafeError>)
    ensures
        match r {
            Ok(v) => offset + 2 <= buf@.len() && v == be16_at(buf@, offset as int),
            Err(e) => offset + 2 > buf@.len() && e == CafeError::TruncatedFile("buffer too short for a 16-bit value"),
        },
{
    if buf.len() < 2 || offset > buf.len() - 2 {
        return Err(CafeError::TruncatedFile("buffer too short for a 16-bit value"));
    }
    Ok((buf[offset] as u16) * 256 + buf[offset + 1] as u16)
}

/// Reads a big-endian `u32` at `offset`; `TruncatedFile` when `buf` ends first.
pub fn read_u32_be(buf: &[u8], offset: usize) -> (r: Result<u32, CafeError>)
    ensures
        match r {
            Ok(v) => offset + 4 <= buf@.len() && v == be32_at(buf@, offset as int),
            Err(e) => offset + 4 > buf@.len() && e == CafeError::TruncatedFile("buffer too short for a 32-bit value"),
        },
{
    if buf.len() < 4 || offset > buf.len() - 4 {
        return Err(CafeError::TruncatedFile("buffer too short for a 32-bit value"));
    }
    Ok((buf[offset] as u32) * 0x100_0000 + (buf[offset + 1] as u32) * 0x1_0000 + (buf[offset + 2] as u32) * 0x100
        + buf[offset + 3] as u32)
}

/// Appends the big-endian bytes of `v`.
pub fn push_be16(out: &mut Vec<u8>, v: u16)
    ensures final(out)@ == old(out)@ + be16_bytes(v),
{
    out.push((v / 256) as u8);
    out.push((v % 256) as u8);
    assert(out@ =~= old(out)@ + be16_bytes(v));
}

/// Appends the big-endian bytes of `v`.
pub fn push_be32(out: &mut Vec<u8>, v: u32)
    ensures final(out)@ == old(out)@ + be32_bytes(v),
{
    out.push((v / 0x100_0000) as u8);
    out.push(((v / 0x1_0000) % 256) as u8);
    out.push(((v / 0x100) % 256) as u8);
    out.push((v % 256) as u8);
    assert(out@ =~= old(out)@ + be32_bytes(v));
}

// ---------------------------------------------------------------------------
// Row packing
// ---------------------------------------------------------------------------

/// What packing the first `n` samples at `bd` bits yields (8: a copy).
pub open spec fn pack_row_spec(samples: Seq<u8>, bd: u8, n: nat) -> Result<Seq<u8>, CafeError> {
    if bd == 8 {
        if samples.len() < n { Err(CafeError::TruncatedFile("row buffer shorter than the row")) } else { Ok(samples.take(n as int)) }
    } else if !sub_byte_depth(bd as int) {
        Err(CafeError::UnsupportedFeature("bit_depth not allowed for packing (only 1, 2, 4, 8)", None))
    } else if n * bd > u64::MAX {
        Err(CafeError::TruncatedFile("row of samples too long to pack"))
    } else {
        pack_samples_spec(samples, n, bd as int)
    }
}

/// What unpacking the first `n` samples at `bd` bits yields (8: a copy).
pub open spec fn unpack_row_spec(packed: Seq<u8>, bd: u8, n: nat) -> Result<Seq<u8>, CafeError> {
    if bd == 8 {
        if packed.len() < n { Err(CafeError::TruncatedFile("row buffer shorter than the row")) } else { Ok(packed.take(n as int)) }
    } else if !sub_byte_depth(bd as int) {
        Err(CafeError::UnsupportedFeature("bit_depth not allowed for packing (only 1, 2, 4, 8)", None))
    } else if n * bd > u64::MAX {
        Err(CafeError::TruncatedFile("row of samples too long to unpack"))
    } else {
        unpack_samples_spec(packed, n, bd as int)
    }
}

fn prefix_copy(s: &[u8], n: usize) -> (r: Result<Vec<u8>, CafeError>)
    ensures
        match r {
            Ok(v) => n <= s@.len() && v@ == s@.take(n as int),
            Err(e) => n > s@.len() && e == CafeError::TruncatedFile("row buffer shorter than the row"),
        },
{
    if s.len() < n {
        return Err(CafeError::TruncatedFile("row buffer shorter than the row"));
    }
    let mut out: Vec<u8> = Vec::with_capacity(n);
    let mut i: usize = 0;
    while i < n
        invariant i <= n, n <= s@.len(), out@ == s@.take(i as int),
        decreases n - i,
    {
        out.push(s[i]);
        i += 1;
        assert(out@ =~= s@.take(i as int));
    }
    Ok(out)
}

fn pack_row_checked(samples: &[u8], bd: u8, n: usize) -> (r: Result<Vec<u8>, CafeError>)
    ensures
        match r {
            Ok(v) => pack_row_spec(samples@, bd, n as nat) == Ok::<Seq<u8>, CafeError>(v@),
            Err(e) => pack_row_spec(samples@, bd, n as nat) == Err::<Seq<u8>, CafeError>(e),
        },
{
    if bd == 8 {
        return prefix_copy(samples, n);
    }
    if bd != 1 && bd != 2 && bd != 4 {
        return Err(CafeError::UnsupportedFeature("bit_depth not allowed for packing (only 1, 2, 4, 8)", None));
    }
    assert((n as u128) * (bd as u128) <= 4 * 0xffff_ffff_ffff_ffff) by (nonlinear_arith)
        requires n <= 0xffff_ffff_ffff_ffff, bd <= 4;
    if (n as u128) * (bd as u128) > u64::MAX as u128 {
        return Err(CafeError::TruncatedFile("row of samples too long to pack"));
    }
    if n == 0 {
        return Ok(Vec::new());
    }
    let present = if samples.len() < n { samples.len() } else { n };
    let mask: u8 = if bd == 1 { 1 } else if bd == 2 { 3 } else { 15 };
    let mut i: usize = 0;
    while i < present
        invariant
            i <= present, present <= samples@.len(),
            n > 0, bd == 1 || bd == 2 || bd == 4, n * bd <= u64::MAX,
            present == if samples@.len() < n { samples@.len() } else { n as nat },
            mask == sample_mask(bd as int),
            samples_fit(samples@, i as nat, bd as int),
        decreases present - i,
    {
        if samples[i] > mask {
            assert(samples@[i as int] > sample_mask(bd as int));
            return Err(CafeError::UnsupportedFeature("sample value exceeds what the bit depth holds", None));
        }
        i += 1;
    }
    if samples.len() < n {
        return Err(CafeError::TruncatedFile("fewer samples than the row width"));
    }
    Ok(pack_row_core(samples, n, bd))
}

fn unpack_row_checked(packed: &[u8], bd: u8, n: usize) -> (r: Result<Vec<u8>, CafeError>)
    ensures
        match r {
            Ok(v) => unpack_row_spec(packed@, bd, n as nat) == Ok::<Seq<u8>, CafeError>(v@),
            Err(e) => unpack_row_spec(packed@, bd, n as nat) == Err::<Seq<u8>, CafeError>(e),
        },
{
    if bd == 8 {
        return prefix_copy(packed, n);
    }
    if bd != 1 && bd != 2 && bd != 4 {
        return Err(CafeError::UnsupportedFeature("bit_depth not allowed for packing (only 1, 2, 4, 8)", None));
    }
    assert((n as u128) * (bd as u128) <= 4 * 0xffff_ffff_ffff_ffff) by (nonlinear_arith)
        requires n <= 0xffff_ffff_ffff_ffff, bd <= 4;
    if (n as u128) * (bd as u128) > u64::MAX as u128 {
        return Err(CafeError::TruncatedFile("row of samples too long to unpack"));
    }
    if bd == 1 {
        crate::simd_packing::unpack_1bit_samples(packed, n)
    } else if bd == 2 {
        crate::simd_packing::unpack_2bit_samples(packed, n)
    } else {
        crate::simd_packing::unpack_4bit_samples(packed, n)
    }
}

/// Packs a row of palette indices at `bit_depth` bits each (8: a copy).
/// `UnsupportedFeature` for a depth other than 1, 2, 4, 8 or an index that
/// does not fit.
pub fn pack_indices_row(row: &[u8], bit_depth: u8) -> (r: Result<Vec<u8>, CafeError>)
    ensures
        match r {
            Ok(v) => pack_row_spec(row@, bit_depth, row@.len()) == Ok::<Seq<u8>, CafeError>(v@),
            Err(e) => pack_row_spec(row@, bit_depth, row@.len()) == Err::<Seq<u8>, CafeError>(e),
        },
{
    pack_row_checked(row, bit_depth, row.len())
}

/// Packs the `width * bpp` samples of a row of `width` pixels of `bpp`
/// samples at `bit_depth` bits each (8: a copy of them). `TruncatedFile`
/// when `samples` is too short, `UnsupportedFeature` for a bad depth or a
/// sample that does not fit.
pub fn pack_samples_row(samples: &[u8], bit_depth: u8, width: usize, bpp: usize) -> (r: Result<Vec<u8>, CafeError>)
    requires width * bpp <= usize::MAX,
    ensures
        match r {
            Ok(v) => pack_row_spec(samples@, bit_depth, (width * bpp) as nat) == Ok::<Seq<u8>, CafeError>(v@),
            Err(e) => pack_row_spec(samples@, bit_depth, (width * bpp) as nat) == Err::<Seq<u8>, CafeError>(e),
        },
{
    pack_row_checked(samples, bit_depth, width * bpp)
}

/// Unpacks the `width * bpp` samples of a packed row (8: a copy of them).
/// `TruncatedFile` when `packed` is too short, `UnsupportedFeature` for a
/// bad depth.
pub fn unpack_samples_row(packed: &[u8], bit_depth: u8, width: usize, bpp: usize) -> (r: Result<Vec<u8>, CafeError>)
    requires width * bpp <= usize::MAX,
    ensures
        match r {
            Ok(v) => unpack_row_spec(packed@, bit_depth, (width * bpp) as nat) == Ok::<Seq<u8>, CafeError>(v@),
            Err(e) => unpack_row_spec(packed@, bit_depth, (width * bpp) as nat) == Err::<Seq<u8>, CafeError>(e),
        },
{
    unpack_row_checked(packed, bit_depth, width * bpp)
}

/// Unpacks `width` palette indices of a packed row (8: a copy of them).
pub fn unpack_indices_row(packed: &[u8], bit_depth: u8, width: usize) -> (r: Result<Vec<u8>, CafeError>)
    ensures
        match r {
            Ok(v) => unpack_row_spec(packed@, bit_depth, width as nat) == Ok::<Seq<u8>, CafeError>(v@),
            Err(e) => unpack_row_spec(packed@, bit_depth, width as nat) == Err::<Seq<u8>, CafeError>(e),
        },
{
    unpack_row_checked(packed, bit_depth, width)
}

/// Row packing round trip: unpacking a packed row gives back its samples.
pub proof fn lemma_row_packing_roundtrip(samples: Seq<u8>, bd: u8, n: nat)
    requires pack_row_spec(samples, bd, n) is Ok,
    ensures unpack_row_spec(pack_row_spec(samples, bd, n)->Ok_0, bd, n) == Ok::<Seq<u8>, CafeError>(samples.take(n as int)),
{
    if bd == 8 {
        assert(samples.take(n as int).take(n as int) =~= samples.take(n as int));
    } else if n > 0 {
        crate::packing::lemma_unpack_pack(samples, n, bd as int);
    } else {
        assert(samples.take(0) =~= Seq::<u8>::empty());
    }
}

// ---------------------------------------------------------------------------
// RGBA to other color types
// ---------------------------------------------------------------------------

/// Luma of an RGB color: `(299 r + 587 g + 114 b) / 1000`, rounded down.
pub open spec fn gray_of(r: u8, g: u8, b: u8) -> u8 {
    ((299 * r + 587 * g + 114 * b) / 1000) as u8
}

fn gray_exec(r: u8, g: u8, b: u8) -> (y: u8)
    ensures y == gray_of(r, g, b),
{
    let v: u32 = (299 * (r as u32) + 587 * (g as u32) + 114 * (b as u32)) / 1000;
    assert(v <= 255);
    v as u8
}

/// One 8-bit sample written at depth `bd` (8: itself; 10, 12, 16: scaled,
/// big-endian 16-bit; 32: replicated, big-endian 32-bit).
pub open spec fn encode_sample(v: u8, bd: u8) -> Seq<u8> {
    if bd == 8 { seq![v] } else if bd == 32 { be32_bytes(expand32_spec(v)) } else { be16_bytes(expand_wide_spec(v, bd)) }
}

/// The bytes of one RGBA pixel in color type `ct` at a depth of 8 or more.
pub open spec fn encode_pixel(ct: u8, bd: u8, r: u8, g: u8, b: u8, a: u8) -> Seq<u8> {
    let y = gray_of(r, g, b);
    if ct == COLOR_TYPE_GRAY {
        encode_sample(y, bd)
    } else if ct == COLOR_TYPE_RGB {
        encode_sample(r, bd) + encode_sample(g, bd) + encode_sample(b, bd)
    } else if ct == COLOR_TYPE_GRAY_ALPHA {
        encode_sample(y, bd) + encode_sample(a, bd)
    } else {
        encode_sample(r, bd) + encode_sample(g, bd) + encode_sample(b, bd) + encode_sample(a, bd)
    }
}

/// The samples of one RGBA pixel in a gray color type at depth `bd` (1, 2,
/// 4 or 8), before packing: luma, and for gray+alpha the alpha too.
pub open spec fn pixel_samples(ct: u8, bd: u8, r: u8, g: u8, b: u8, a: u8) -> Seq<u8> {
    let y = reduce_spec(gray_of(r, g, b), bd);
    if ct == COLOR_TYPE_GRAY { seq![y] } else { seq![y, reduce_spec(a, bd)] }
}

/// The converted bytes (or, with `samples`, the unpacked samples) of the
/// first `k` pixels of `rgba`.
pub open spec fn map_pixels(rgba: Seq<u8>, k: nat, ct: u8, bd: u8, samples: bool) -> Seq<u8>
    decreases k,
{
    if k == 0 {
        Seq::empty()
    } else {
        let o = 4 * (k - 1);
        let (r, g, b, a) = (rgba[o], rgba[o + 1], rgba[o + 2], rgba[o + 3]);
        map_pixels(rgba, (k - 1) as nat, ct, bd, samples)
            + if samples { pixel_samples(ct, bd, r, g, b, a) } else { encode_pixel(ct, bd, r, g, b, a) }
    }
}

/// The first `k` rows of `rl` samples each, every row packed at `bd` bits.
pub open spec fn packed_rows(samples: Seq<u8>, rl: nat, bd: u8, k: nat) -> Seq<u8>
    decreases k,
{
    if k == 0 {
        Seq::empty()
    } else {
        packed_rows(samples, rl, bd, (k - 1) as nat)
            + pack_spec(samples.subrange((k - 1) * rl, (k * rl) as int), rl, bd as int)
    }
}

/// Channels stored for a gray color type.
pub open spec fn gray_channels(ct: u8) -> nat {
    if ct == COLOR_TYPE_GRAY { 1 } else { 2 }
}

/// What converting a `width` x `height` RGBA image to color type `ct` at
/// bit depth `bd` yields. Every whole RGBA pixel of `rgba` is converted;
/// sub-byte rows are packed one image row at a time.
pub open spec fn rgba_to_color_type_spec(rgba: Seq<u8>, width: nat, height: nat, ct: u8, bd: u8) -> Result<Seq<u8>, CafeError> {
    let np = rgba.len() / 4;
    if width == 0 || height == 0 {
        Err(CafeError::UnsupportedFeature("Invalid dimensions for color conversion", None))
    } else if (ct == COLOR_TYPE_RGB || ct == COLOR_TYPE_RGBA) && (bd == 1 || bd == 2 || bd == 4) {
        Err(CafeError::UnsupportedFeature("RGB and RGBA need a bit depth of 8 or more", None))
    } else if bytes_per_pixel_spec(ct, bd) is None {
        Err(CafeError::UnsupportedFeature("color type and bit depth not supported together", None))
    } else if width * height > usize::MAX {
        Err(CafeError::UnsupportedFeature("Image dimensions exceed memory allocation limit", None))
    } else if (bd < 8 && height * row_bytes(width, bd as nat) > usize::MAX)
        || (bd >= 8 && width * height * (bytes_per_pixel_spec(ct, bd)->0 as nat) > usize::MAX) {
        Err(CafeError::UnsupportedFeature("Output buffer would overflow", None))
    } else if ct == COLOR_TYPE_GRAY || ct == COLOR_TYPE_GRAY_ALPHA {
        if bd <= 8 {
            let samples = map_pixels(rgba, np, ct, bd, true);
            let rl = width * gray_channels(ct);
            if bd == 8 {
                Ok(samples)
            } else if height * rl > samples.len() {
                Err(CafeError::TruncatedFile("insufficient samples for the rows to pack"))
            } else {
                Ok(packed_rows(samples, rl, bd, height))
            }
        } else {
            Ok(map_pixels(rgba, np, ct, bd, false))
        }
    } else if ct == COLOR_TYPE_RGB {
        Ok(map_pixels(rgba, np, ct, bd, false))
    } else if ct == COLOR_TYPE_RGBA {
        if bd == 8 { Ok(rgba) } else { Ok(map_pixels(rgba, np, ct, bd, false)) }
    } else {
        Err(CafeError::UnsupportedFeature("color type not supported for conversion", None))
    }
}

fn push_encoded_sample(out: &mut Vec<u8>, v: u8, bd: u8)
    requires bd == 8 || bd == 10 || bd == 12 || bd == 16 || bd == 32,
    ensures final(out)@ == old(out)@ + encode_sample(v, bd),
{
    if bd == 8 {
        out.push(v);
        assert(out@ =~= old(out)@ + encode_sample(v, bd));
    } else if bd == 32 {
        push_be32(out, expand_sample_8_to_32bit(v));
    } else {
        let e = match expand_sample_8_to_n_bits(v, bd) {
            Ok(e) => e,
            Err(_) => 0,
        };
        push_be16(out, e);
    }
}

fn push_encoded_pixel(out: &mut Vec<u8>, ct: u8, bd: u8, r: u8, g: u8, b: u8, a: u8)
    requires bd == 8 || bd == 10 || bd == 12 || bd == 16 || bd == 32,
    ensures final(out)@ == old(out)@ + encode_pixel(ct, bd, r, g, b, a),
{
    let ghost start = out@;
    if ct == COLOR_TYPE_GRAY {
        push_encoded_sample(out, gray_exec(r, g, b), bd);
    } else if ct == COLOR_TYPE_RGB {
        push_encoded_sample(out, r, bd);
        push_encoded_sample(out, g, bd);
        push_encoded_sample(out, b, bd);
    } else if ct == COLOR_TYPE_GRAY_ALPHA {
        push_encoded_sample(out, gray_exec(r, g, b), bd);
        push_encoded_sample(out, a, bd);
    } else {
        push_encoded_sample(out, r, bd);
        push_encoded_sample(out, g, bd);
        push_encoded_sample(out, b, bd);
        push_encoded_sample(out, a, bd);
    }
    assert(out@ =~= start + encode_pixel(ct, bd, r, g, b, a));
}

fn reduce_exec(v: u8, bd: u8) -> (r: u8)
    requires packable_depth(bd),
    ensures r == reduce_spec(v, bd),
{
    if bd == 1 { if v >= 128 { 1 } else { 0 } } else if bd == 2 { v / 64 } else if bd == 4 { v / 16 } else { v }
}

/// Converts every whole pixel of `rgba` (samples before packing when `samples`).
fn map_pixels_exec(rgba: &[u8], ct: u8, bd: u8, samples: bool) -> (out: Vec<u8>)
    requires
        samples ==> packable_depth(bd),
        !samples ==> (bd == 8 || bd == 10 || bd == 12 || bd == 16 || bd == 32),
    ensures out@ == map_pixels(rgba@, rgba@.len() / 4, ct, bd, samples),
{
    let len = rgba.len();
    let np = len / 4;
    proof {
        vstd::arithmetic::div_mod::lemma_fundamental_div_mod(len as int, 4);
    }
    let mut out: Vec<u8> = Vec::new();
    let mut p: usize = 0;
    while p < np
        invariant
            np == rgba@.len() / 4,
            4 * np <= rgba@.len(),
            len == rgba@.len(),
            p <= np,
            samples ==> packable_depth(bd),
            !samples ==> (bd == 8 || bd == 10 || bd == 12 || bd == 16 || bd == 32),
            out@ == map_pixels(rgba@, p as nat, ct, bd, samples),
        decreases np - p,
    {
        let r = rgba[4 * p];
        let g = rgba[4 * p + 1];
        let b = rgba[4 * p + 2];
        let a = rgba[4 * p + 3];
        if samples {
            let y = reduce_exec(gray_exec(r, g, b), bd);
            out.push(y);
            if ct != COLOR_TYPE_GRAY {
                out.push(reduce_exec(a, bd));
            }
        } else {
            push_encoded_pixel(&mut out, ct, bd, r, g, b, a);
        }
        p += 1;
        assert(out@ =~= map_pixels(rgba@, p as nat, ct, bd, samples));
    }
    out
}

proof fn lemma_map_samples_fit(rgba: Seq<u8>, k: nat, ct: u8, bd: u8)
    requires bd == 1 || bd == 2 || bd == 4, k <= rgba.len() / 4,
    ensures
        samples_fit(map_pixels(rgba, k, ct, bd, true), map_pixels(rgba, k, ct, bd, true).len(), bd as int),
        map_pixels(rgba, k, ct, bd, true).len() == k * gray_channels(ct),
    decreases k,
{
    if k > 0 {
        lemma_map_samples_fit(rgba, (k - 1) as nat, ct, bd);
        let prev = map_pixels(rgba, (k - 1) as nat, ct, bd, true);
        let cur = map_pixels(rgba, k, ct, bd, true);
        assert forall|i: int| 0 <= i < cur.len() implies #[trigger] cur[i] <= sample_mask(bd as int) by {
            if i < prev.len() {
                assert(cur[i] == prev[i]);
            }
        }
        assert(k * gray_channels(ct) == (k - 1) * gray_channels(ct) + gray_channels(ct)) by (nonlinear_arith);
    }
}

/// Packs `h` rows of `rl` samples each; the samples must fit.
fn pack_rows_exec(samples: &[u8], rl: usize, bd: u8, h: usize) -> (out: Vec<u8>)
    requires
        bd == 1 || bd == 2 || bd == 4,
        h * rl <= samples@.len(),
        samples_fit(samples@, samples@.len(), bd as int),
    ensures out@ == packed_rows(samples@, rl as nat, bd, h as nat),
{
    let len = samples.len();
    let mut out: Vec<u8> = Vec::new();
    let mut r: usize = 0;
    while r < h
        invariant
            len == samples@.len(),
            bd == 1 || bd == 2 || bd == 4,
            h * rl <= samples@.len(),
            samples_fit(samples@, samples@.len(), bd as int),
            r <= h,
            out@ == packed_rows(samples@, rl as nat, bd, r as nat),
        decreases h - r,
    {
        proof {
            assert((r + 1) * rl <= h * rl) by (nonlinear_arith) requires r < h;
            assert((r + 1) * rl == r * rl + rl) by (nonlinear_arith);
            assert(0 <= r * rl) by (nonlinear_arith);
        }
        let row = &samples[r * rl..r * rl + rl];
        proof {
            assert forall|i: int| 0 <= i < rl implies #[trigger] row@[i] <= sample_mask(bd as int) by {
                assert(row@[i] == samples@[r * rl + i]);
            }
        }
        let packed = pack_row_core(row, rl, bd);
        crate::bytes::append_bytes(&mut out, packed.as_slice());
        r += 1;
    }
    out
}

/// Converts a `width` x `height` RGBA image to color type `target_color_type`
/// at `target_bit_depth` bits per sample: gray types take the luma
/// `(299 R + 587 G + 114 B) / 1000`; depths 1, 2, 4 keep the top bits (1: a
/// threshold at 128) and pack each row; 10, 12, 16 and 32 scale the samples
/// and store them big-endian. Indexed color is not produced here.
pub fn convert_rgba_to_color_type(
    rgba: &[u8],
    width: u32,
    height: u32,
    target_color_type: u8,
    target_bit_depth: u8,
) -> (r: Result<Vec<u8>, CafeError>)
    ensures
        match r {
            Ok(v) => rgba_to_color_type_spec(rgba@, width as nat, height as nat, target_color_type, target_bit_depth)
                == Ok::<Seq<u8>, CafeError>(v@),
            Err(e) => rgba_to_color_type_spec(rgba@, width as nat, height as nat, target_color_type, target_bit_depth)
                == Err::<Seq<u8>, CafeError>(e),
        },
{
    let ct = target_color_type;
    let bd = target_bit_depth;
    if width == 0 || height == 0 {
        return Err(CafeError::UnsupportedFeature("Invalid dimensions for color conversion", None));
    }
    if (ct == COLOR_TYPE_RGB || ct == COLOR_TYPE_RGBA) && (bd == 1 || bd == 2 || bd == 4) {
        return Err(CafeError::UnsupportedFeature("RGB and RGBA need a bit depth of 8 or more", None));
    }
    let bpp = match bytes_per_pixel(ct, bd) {
        Some(b) => b,
        None => return Err(CafeError::UnsupportedFeature("color type and bit depth not supported together", None)),
    };
    assert((width as u128) * (height as u128) * 16 <= u128::MAX) by (nonlinear_arith)
        requires width <= u32::MAX, height <= u32::MAX;
    let pixel_count: u128 = (width as u128) * (height as u128);
    if pixel_count > usize::MAX as u128 {
        return Err(CafeError::UnsupportedFeature("Image dimensions exceed memory allocation limit", None));
    }
    if bd < 8 {
        let bpr = match bytes_per_row_for_bit_depth(width, bd) {
            Ok(b) => b,
            Err(e) => return Err(e),
        };
        assert((height as u128) * (bpr as u128) <= u128::MAX) by (nonlinear_arith)
            requires height <= u32::MAX, bpr <= usize::MAX;
        if (height as u128) * (bpr as u128) > usize::MAX as u128 {
            return Err(CafeError::UnsupportedFeature("Output buffer would overflow", None));
        }
    } else {
        assert(pixel_count * (bpp as u128) <= 16 * 0xffff_ffff_ffff_ffff) by (nonlinear_arith)
            requires pixel_count <= 0xffff_ffff_ffff_ffff, bpp <= 16;
        if pixel_count * (bpp as u128) > usize::MAX as u128 {
            return Err(CafeError::UnsupportedFeature("Output buffer would overflow", None));
        }
    }
    if ct == COLOR_TYPE_GRAY || ct == COLOR_TYPE_GRAY_ALPHA {
        if bd <= 8 {
            let samples = map_pixels_exec(rgba, ct, bd, true);
            if bd == 8 {
                return Ok(samples);
            }
            let ch: u128 = if ct == COLOR_TYPE_GRAY { 1 } else { 2 };
            let rl128: u128 = (width as u128) * ch;
            proof {
                lemma_map_samples_fit(rgba@, rgba@.len() / 4, ct, bd);
                assert((height as u128) * rl128 <= 2 * 0xffff_ffff * 0xffff_ffff) by (nonlinear_arith)
                    requires height <= 0xffff_ffff, rl128 <= 2 * 0xffff_ffff;
            }
            if (height as u128) * rl128 > samples.len() as u128 {
                return Err(CafeError::TruncatedFile("insufficient samples for the rows to pack"));
            }
            proof {
                assert(rl128 <= (height as u128) * rl128) by (nonlinear_arith) requires height >= 1, rl128 >= 0;
            }
            let h = height as usize;
            let rl = rl128 as usize;
            return Ok(pack_rows_exec(samples.as_slice(), rl, bd, h));
        } else {
            return Ok(map_pixels_exec(rgba, ct, bd, false));
        }
    } else if ct == COLOR_TYPE_RGB {
        return Ok(map_pixels_exec(rgba, ct, bd, false));
    } else if ct == COLOR_TYPE_RGBA {
        if bd == 8 {
            return Ok(crate::bytes::copy_bytes(rgba));
        }
        return Ok(map_pixels_exec(rgba, ct, bd, false));
    }
    Err(CafeError::UnsupportedFeature("color type not supported for conversion", None))
}

// ---------------------------------------------------------------------------
// Other color types to RGBA
// ---------------------------------------------------------------------------

/// The first `k` packed rows of `bpr` bytes, each unpacked to `n` samples.
pub open spec fn unpacked_rows(data: Seq<u8>, bpr: nat, n: nat, bd: u8, k: nat) -> Seq<u8>
    decreases k,
{
    if k == 0 {
        Seq::empty()
    } else {
        unpacked_rows(data, bpr, n, bd, (k - 1) as nat)
            + unpack_spec(data.subrange((k - 1) * bpr, (k * bpr) as int), n, bd as int)
    }
}

/// Bytes of one wide sample (16-bit container or 32-bit).
pub open spec fn wide_bytes(bd: u8) -> nat {
    if bd == 32 { 4 } else { 2 }
}

/// The 8-bit value of the wide sample at `offset`.
pub open spec fn decode_wide_sample(data: Seq<u8>, offset: int, bd: u8) -> u8 {
    if bd == 32 { compress32_spec(be32_at(data, offset)) } else { compress_wide_spec(be16_at(data, offset), bd) }
}

/// The first `k` wide samples of `data` reduced to 8 bits.
pub open spec fn decoded_wide(data: Seq<u8>, bd: u8, k: nat) -> Seq<u8>
    decreases k,
{
    if k == 0 {
        Seq::empty()
    } else {
        decoded_wide(data, bd, (k - 1) as nat).push(decode_wide_sample(data, (k - 1) * wide_bytes(bd), bd))
    }
}

/// The RGBA pixel of the `ch`-channel 8-bit pixel at `o`.
pub open spec fn rgba_of(s: Seq<u8>, ch: nat, o: int) -> Seq<u8> {
    if ch == 1 {
        seq![s[o], s[o], s[o], 255u8]
    } else if ch == 2 {
        seq![s[o], s[o], s[o], s[o + 1]]
    } else {
        seq![s[o], s[o + 1], s[o + 2], 255u8]
    }
}

/// The first `k` `ch`-channel 8-bit pixels of `s` as RGBA.
pub open spec fn rgba_pixels(s: Seq<u8>, ch: nat, k: nat) -> Seq<u8>
    decreases k,
{
    if k == 0 { Seq::empty() } else { rgba_pixels(s, ch, (k - 1) as nat) + rgba_of(s, ch, (k - 1) * ch) }
}

/// The image as 8-bit samples: sub-byte gray rows unpacked, wide samples
/// cut to 8 bits, anything else as stored.
pub open spec fn samples_8bit_spec(data: Seq<u8>, width: nat, height: nat, ct: u8, bd: u8) -> Result<Seq<u8>, CafeError> {
    if bd < 8 {
        if ct == COLOR_TYPE_GRAY || ct == COLOR_TYPE_GRAY_ALPHA {
            let n = width * gray_channels(ct);
            let bpr = row_bytes(n, bd as nat);
            if !packable_depth(bd) {
                Err(CafeError::UnsupportedFeature("bit_depth not allowed for packing (only 1, 2, 4, 8)", None))
            } else if n * bd > usize::MAX || height * bpr > data.len() {
                Err(CafeError::TruncatedFile("convert_color_type_to_rgba: insufficient packed data"))
            } else {
                Ok(unpacked_rows(data, bpr, n, bd, height))
            }
        } else {
            Ok(data)
        }
    } else if bd > 8 {
        match samples_per_pixel_spec(ct) {
            Some(ch) => {
                let count = width * height * (ch as nat);
                if count * wide_bytes(bd) > data.len() {
                    Err(CafeError::TruncatedFile("convert_color_type_to_rgba: insufficient wide samples"))
                } else {
                    Ok(decoded_wide(data, bd, count))
                }
            },
            None => Ok(data),
        }
    } else {
        Ok(data)
    }
}

/// Samples per pixel of the color types that convert to RGBA (0 for the
/// others).
pub open spec fn rgba_source_channels(ct: u8) -> nat {
    if ct == COLOR_TYPE_GRAY {
        1
    } else if ct == COLOR_TYPE_RGB {
        3
    } else if ct == COLOR_TYPE_GRAY_ALPHA {
        2
    } else if ct == COLOR_TYPE_RGBA {
        4
    } else {
        0
    }
}

/// What converting a `width` x `height` image of color type `ct` at bit
/// depth `bd` to RGBA yields: the 8-bit samples must cover every pixel;
/// gray is replicated into R, G and B, missing alpha is 255.
pub open spec fn color_type_to_rgba_spec(data: Seq<u8>, width: nat, height: nat, ct: u8, bd: u8) -> Result<Seq<u8>, CafeError> {
    if width == 0 || height == 0 {
        Err(CafeError::UnsupportedFeature("Invalid dimensions for color conversion", None))
    } else {
        match samples_8bit_spec(data, width, height, ct, bd) {
            Err(e) => Err(e),
            Ok(u) => {
                let pc = width * height;
                if bytes_per_pixel_spec(ct, 8) is None || pc > usize::MAX || pc * 4 > usize::MAX {
                    Err(CafeError::UnsupportedFeature("Image dimensions exceed memory allocation limit", None))
                } else if rgba_source_channels(ct) > 0 && u.len() < pc * rgba_source_channels(ct) {
                    Err(CafeError::TruncatedFile("convert_color_type_to_rgba: samples do not cover every pixel"))
                } else if ct == COLOR_TYPE_GRAY {
                    Ok(rgba_pixels(u, 1, pc))
                } else if ct == COLOR_TYPE_RGB {
                    Ok(rgba_pixels(u, 3, u.len() / 3))
                } else if ct == COLOR_TYPE_GRAY_ALPHA {
                    Ok(rgba_pixels(u, 2, u.len() / 2))
                } else if ct == COLOR_TYPE_RGBA {
                    Ok(u)
                } else {
                    Err(CafeError::UnsupportedFeature("color type not supported for conversion", None))
                }
            },
        }
    }
}

fn unpack_rows_exec(data: &[u8], bpr: usize, n: usize, bd: u8, h: usize) -> (out: Vec<u8>)
    requires
        bd == 1 || bd == 2 || bd == 4,
        bpr == row_bytes(n as nat, bd as nat),
        h * bpr <= data@.len(),
    ensures out@ == unpacked_rows(data@, bpr as nat, n as nat, bd, h as nat),
{
    let len = data.len();
    let mut out: Vec<u8> = Vec::new();
    let mut r: usize = 0;
    while r < h
        invariant
            len == data@.len(),
            bd == 1 || bd == 2 || bd == 4,
            bpr == row_bytes(n as nat, bd as nat),
            h * bpr <= data@.len(),
            r <= h,
            out@ == unpacked_rows(data@, bpr as nat, n as nat, bd, r as nat),
        decreases h - r,
    {
        proof {
            assert((r + 1) * bpr <= h * bpr) by (nonlinear_arith) requires r < h;
            assert((r + 1) * bpr == r * bpr + bpr) by (nonlinear_arith);
            assert(0 <= r * bpr) by (nonlinear_arith);
        }
        let row = &data[r * bpr..r * bpr + bpr];
        assert(packed_len(n as nat, bd as nat) == bpr);
        let u = unpack_row_core(row, n, bd);
        crate::bytes::append_bytes(&mut out, u.as_slice());
        r += 1;
    }
    out
}

fn decode_wide_exec(data: &[u8], bd: u8, count: usize) -> (out: Vec<u8>)
    requires
        bd == 10 || bd == 12 || bd == 16 || bd == 32,
        count * wide_bytes(bd) <= data@.len(),
    ensures out@ == decoded_wide(data@, bd, count as nat),
{
    let k: usize = if bd == 32 { 4 } else { 2 };
    let len = data.len();
    let mut out: Vec<u8> = Vec::with_capacity(count);
    let mut i: usize = 0;
    while i < count
        invariant
            len == data@.len(),
            bd == 10 || bd == 12 || bd == 16 || bd == 32,
            k == wide_bytes(bd),
            count * wide_bytes(bd) <= data@.len(),
            i <= count,
            out@ == decoded_wide(data@, bd, i as nat),
        decreases count - i,
    {
        proof {
            assert((i + 1) * k <= count * k) by (nonlinear_arith) requires i < count;
            assert((i + 1) * k == i * k + k) by (nonlinear_arith);
        }
        let off = i * k;
        let v: u8 = if bd == 32 {
            match read_u32_be(data, off) {
                Ok(x) => compress_sample_32bit_to_8(x),
                Err(_) => 0,
            }
        } else {
            match read_u16_be(data, off) {
                Ok(x) => match compress_sample_n_to_8bits(x, bd) {
                    Ok(c) => c,
                    Err(_) => 0,
                },
                Err(_) => 0,
            }
        };
        out.push(v);
        i += 1;
    }
    out
}

/// The image's samples at 8 bits (see `samples_8bit_spec`).
fn samples_8bit(data: &[u8], width: u32, height: u32, ct: u8, bd: u8) -> (r: Result<Vec<u8>, CafeError>)
    requires
        width > 0, height > 0,
        bd > 8 && samples_per_pixel_spec(ct) is Some ==> (bd == 10 || bd == 12 || bd == 16 || bd == 32),
    ensures
        match r {
            Ok(v) => samples_8bit_spec(data@, width as nat, height as nat, ct, bd) == Ok::<Seq<u8>, CafeError>(v@),
            Err(e) => samples_8bit_spec(data@, width as nat, height as nat, ct, bd) == Err::<Seq<u8>, CafeError>(e),
        },
{
    if bd < 8 {
        if ct == COLOR_TYPE_GRAY || ct == COLOR_TYPE_GRAY_ALPHA {
            if bd != 1 && bd != 2 && bd != 4 {
                return Err(CafeError::UnsupportedFeature("bit_depth not allowed for packing (only 1, 2, 4, 8)", None));
            }
            let ch: u128 = if ct == COLOR_TYPE_GRAY { 1 } else { 2 };
            let n128: u128 = (width as u128) * ch;
            assert(n128 * (bd as u128) <= 2 * 0xffff_ffff * 4) by (nonlinear_arith)
                requires n128 <= 2 * 0xffff_ffff, bd <= 4;
            if n128 * (bd as u128) > usize::MAX as u128 {
                return Err(CafeError::TruncatedFile("convert_color_type_to_rgba: insufficient packed data"));
            }
            assert(n128 <= n128 * (bd as u128)) by (nonlinear_arith) requires bd >= 1, n128 >= 0;
            let n = n128 as usize;
            let bits: u128 = n128 * (bd as u128);
            let bpr128: u128 = bits / 8 + if bits % 8 != 0 { 1 } else { 0 };
            proof {
                vstd::arithmetic::div_mod::lemma_fundamental_div_mod(bits as int, 8);
                vstd::arithmetic::div_mod::lemma_fundamental_div_mod(bits + 7, 8);
                assert((height as u128) * bpr128 <= 0xffff_ffff * (4 * 0xffff_ffff)) by (nonlinear_arith)
                    requires height <= 0xffff_ffff, bpr128 <= 4 * 0xffff_ffff;
            }
            if (height as u128) * bpr128 > data.len() as u128 {
                return Err(CafeError::TruncatedFile("convert_color_type_to_rgba: insufficient packed data"));
            }
            proof {
                assert(bpr128 <= (height as u128) * bpr128) by (nonlinear_arith) requires height >= 1, bpr128 >= 0;
            }
            return Ok(unpack_rows_exec(data, bpr128 as usize, n, bd, height as usize));
        }
        return Ok(crate::bytes::copy_bytes(data));
    } else if bd > 8 {
        let ch = match samples_per_pixel(ct) {
            Some(c) => c,
            None => return Ok(crate::bytes::copy_bytes(data)),
        };
        let k: u128 = if bd == 32 { 4 } else { 2 };
        assert((width as u128) * (height as u128) * (ch as u128) * k <= 0xffff_ffff * 0xffff_ffff * 16) by (nonlinear_arith)
            requires width <= 0xffff_ffff, height <= 0xffff_ffff, ch <= 4, k <= 4;
        assert((width as u128) * (height as u128) * (ch as u128) <= 0xffff_ffff * 0xffff_ffff * 4) by (nonlinear_arith)
            requires width <= 0xffff_ffff, height <= 0xffff_ffff, ch <= 4;
        assert((width as u128) * (height as u128) <= 0xffff_ffff * 0xffff_ffff) by (nonlinear_arith)
            requires width <= 0xffff_ffff, height <= 0xffff_ffff;
        let count128: u128 = (width as u128) * (height as u128) * (ch as u128);
        if count128 * k > data.len() as u128 {
            return Err(CafeError::TruncatedFile("convert_color_type_to_rgba: insufficient wide samples"));
        }
        proof {
            assert(count128 <= count128 * k) by (nonlinear_arith) requires k >= 1, count128 >= 0;
        }
        return Ok(decode_wide_exec(data, bd, count128 as usize));
    }
    Ok(crate::bytes::copy_bytes(data))
}

fn rgba_pixels_exec(s: &[u8], ch: usize, k: usize) -> (out: Vec<u8>)
    requires ch == 1 || ch == 2 || ch == 3, k * ch <= s@.len(),
    ensures out@ == rgba_pixels(s@, ch as nat, k as nat),
{
    let len = s.len();
    let mut out: Vec<u8> = Vec::new();
    let mut p: usize = 0;
    while p < k
        invariant
            len == s@.len(),
            ch == 1 || ch == 2 || ch == 3, k * ch <= s@.len(),
            p <= k,
            out@ == rgba_pixels(s@, ch as nat, p as nat),
        decreases k - p,
    {
        proof {
            assert((p + 1) * ch <= k * ch) by (nonlinear_arith) requires p < k;
            assert((p + 1) * ch == p * ch + ch) by (nonlinear_arith);
        }
        let o = p * ch;
        if ch == 1 {
            out.push(s[o]);
            out.push(s[o]);
            out.push(s[o]);
            out.push(255);
        } else if ch == 2 {
            out.push(s[o]);
            out.push(s[o]);
            out.push(s[o]);
            out.push(s[o + 1]);
        } else {
            out.push(s[o]);
            out.push(s[o + 1]);
            out.push(s[o + 2]);
            out.push(255);
        }
        p += 1;
        assert(out@ =~= rgba_pixels(s@, ch as nat, p as nat));
    }
    out
}

/// Converts a `width` x `height` image of color type `color_type` at
/// `bit_depth` bits per sample to 8-bit RGBA: sub-byte gray rows are
/// unpacked, wide samples keep their top bits, gray is replicated into R, G
/// and B, and missing alpha is 255. Indexed color is not handled here.
/// Samples that do not cover every pixel are refused as truncated.
pub fn convert_color_type_to_rgba(data: &[u8], width: u32, height: u32, color_type: u8, bit_depth: u8) -> (r: Result<Vec<u8>, CafeError>)
    requires
        width > 0 && height > 0 && bit_depth > 8 && samples_per_pixel_spec(color_type) is Some
            ==> (bit_depth == 10 || bit_depth == 12 || bit_depth == 16 || bit_depth == 32),
    ensures
        match r {
            Ok(v) => color_type_to_rgba_spec(data@, width as nat, height as nat, color_type, bit_depth) == Ok::<Seq<u8>, CafeError>(v@),
            Err(e) => color_type_to_rgba_spec(data@, width as nat, height as nat, color_type, bit_depth) == Err::<Seq<u8>, CafeError>(e),
        },
{
    let ct = color_type;
    if width == 0 || height == 0 {
        return Err(CafeError::UnsupportedFeature("Invalid dimensions for color conversion", None));
    }
    let u = match samples_8bit(data, width, height, ct, bit_depth) {
        Ok(u) => u,
        Err(e) => return Err(e),
    };
    if bytes_per_pixel(ct, 8).is_none() {
        return Err(CafeError::UnsupportedFeature("Image dimensions exceed memory allocation limit", None));
    }
    assert((width as u128) * (height as u128) * 4 <= u128::MAX) by (nonlinear_arith)
        requires width <= u32::MAX, height <= u32::MAX;
    let pc: u128 = (width as u128) * (height as u128);
    if pc > usize::MAX as u128 || pc * 4 > usize::MAX as u128 {
        return Err(CafeError::UnsupportedFeature("Image dimensions exceed memory allocation limit", None));
    }
    let pc = pc as usize;
    let ch: usize = if ct == COLOR_TYPE_GRAY {
        1
    } else if ct == COLOR_TYPE_RGB {
        3
    } else if ct == COLOR_TYPE_GRAY_ALPHA {
        2
    } else if ct == COLOR_TYPE_RGBA {
        4
    } else {
        0
    };
    assert(ch == rgba_source_channels(ct));
    if ch > 0 && (u.len() as u128) < (pc as u128) * (ch as u128) {
        return Err(CafeError::TruncatedFile("convert_color_type_to_rgba: samples do not cover every pixel"));
    }
    if ct == COLOR_TYPE_GRAY {
        return Ok(rgba_pixels_exec(u.as_slice(), 1, pc));
    } else if ct == COLOR_TYPE_RGB {
        proof { vstd::arithmetic::div_mod::lemma_fundamental_div_mod(u@.len() as int, 3); }
        return Ok(rgba_pixels_exec(u.as_slice(), 3, u.len() / 3));
    } else if ct == COLOR_TYPE_GRAY_ALPHA {
        proof { vstd::arithmetic::div_mod::lemma_fundamental_div_mod(u@.len() as int, 2); }
        return Ok(rgba_pixels_exec(u.as_slice(), 2, u.len() / 2));
    } else if ct == COLOR_TYPE_RGBA {
        return Ok(u);
    }
    Err(CafeError::UnsupportedFeature("color type not supported for conversion", None))
}

} // verus!
