//! Byte-shuffle (filter method 1): regroups the bytes of multi-byte samples
//! so that byte 0 of every pixel comes first, then byte 1 of every pixel,
//! and so on, which helps a general-purpose compressor on float/HDR data.
//!
//! `[b0_p0, b1_p0, b0_p1, b1_p1, ...]` becomes `[b0_p0, b0_p1, ..., b1_p0, b1_p1, ...]`.

use vstd::prelude::*;
use vstd::arithmetic::div_mod::lemma_fundamental_div_mod_converse;

use crate::error::CafeError;

verus! {

/// The pixel sizes byte-shuffle accepts.
pub open spec fn shuffle_bpp_ok(bpp: int) -> bool {
    bpp == 2 || bpp == 4 || bpp == 8 || bpp == 16
}

/// Position `i` of the shuffled layout holds byte `i / pixels` of pixel
/// `i % pixels`.
pub open spec fn shuffle_spec(raw: Seq<u8>, bpp: nat, pixels: nat) -> Seq<u8> {
    Seq::new(pixels * bpp, |i: int| raw[(i % (pixels as int)) * bpp + i / (pixels as int)])
}

/// Position `i` of the natural layout comes from byte `i % bpp` of pixel
/// `i / bpp` in the shuffled layout.
pub open spec fn unshuffle_spec(shuffled: Seq<u8>, bpp: nat, pixels: nat) -> Seq<u8> {
    Seq::new(pixels * bpp, |i: int| shuffled[(i % (bpp as int)) * pixels + i / (bpp as int)])
}

/// The error, if any, that the parameter checks shared by both directions
/// give for a buffer of `len` bytes.
pub open spec fn shuffle_check(len: nat, bpp: nat, width: nat, height: nat) -> Option<CafeError> {
    if !shuffle_bpp_ok(bpp as int) {
        Some(CafeError::UnsupportedFeature("byte shuffle: bpp must be 2, 4, 8 or 16", None))
    } else if width * height * bpp > usize::MAX || len != width * height * bpp {
        Some(CafeError::TruncatedFile("byte shuffle: buffer size inconsistent with the dimensions"))
    } else {
        None
    }
}

/// What shuffling (`forward`) or unshuffling yields on `data` for an image of
/// `width * height` pixels of `bpp` bytes.
pub open spec fn shuffle_result(data: Seq<u8>, bpp: nat, width: nat, height: nat, forward: bool) -> Result<Seq<u8>, CafeError> {
    match shuffle_check(data.len(), bpp, width, height) {
        Some(e) => Err(e),
        None => if forward {
            Ok(shuffle_spec(data, bpp, width * height))
        } else {
            Ok(unshuffle_spec(data, bpp, width * height))
        },
    }
}

proof fn lemma_index_in_grid(outer: int, inner: int, n_outer: int, n_inner: int)
    requires 0 <= outer < n_outer, 0 <= inner < n_inner,
    ensures
        outer * n_inner + inner < n_outer * n_inner,
        0 <= outer * n_inner,
        (outer * n_inner + inner) % n_inner == inner,
        (outer * n_inner + inner) / n_inner == outer,
{
    assert(outer * n_inner + inner < n_outer * n_inner) by (nonlinear_arith)
        requires 0 <= outer < n_outer, 0 <= inner < n_inner;
    assert(0 <= outer * n_inner) by (nonlinear_arith) requires 0 <= outer, 0 <= inner < n_inner;
    lemma_fundamental_div_mod_converse(outer * n_inner + inner, n_inner, outer, inner);
}

/// Checks the parameters shared by both directions; returns the pixel count
/// and the byte count.
fn shuffle_sizes(len: usize, bpp: usize, width: u32, height: u32) -> (r: Result<(usize, usize), CafeError>)
    ensures
        match r {
            Ok((pixels, total)) => shuffle_bpp_ok(bpp as int) && pixels == width * height
                && total == width * height * bpp && len == total,
            Err(e) => shuffle_check(len as nat, bpp as nat, width as nat, height as nat) == Some(e),
        },
{
    if bpp != 2 && bpp != 4 && bpp != 8 && bpp != 16 {
        return Err(CafeError::UnsupportedFeature("byte shuffle: bpp must be 2, 4, 8 or 16", None));
    }
    assert((width as u64) * (height as u64) <= u64::MAX) by (nonlinear_arith)
        requires width <= u32::MAX, height <= u32::MAX;
    let pixels64: u64 = (width as u64) * (height as u64);
    if pixels64 > usize::MAX as u64 {
        proof {
            assert(width * height * bpp >= width * height) by (nonlinear_arith)
                requires bpp >= 2, width * height >= 0;
        }
        return Err(CafeError::TruncatedFile("byte shuffle: buffer size inconsistent with the dimensions"));
    }
    let pixels = pixels64 as usize;
    let total = match pixels.checked_mul(bpp) {
        Some(t) => t,
        None => return Err(CafeError::TruncatedFile("byte shuffle: buffer size inconsistent with the dimensions")),
    };
    if len != total {
        return Err(CafeError::TruncatedFile("byte shuffle: buffer size inconsistent with the dimensions"));
    }
    Ok((pixels, total))
}

/// Shuffles `raw`, `width * height` pixels of `bpp` bytes in natural layout,
/// into byte planes. `bpp` must be 2, 4, 8 or 16 and `raw` exactly
/// `width * height * bpp` bytes long.
pub fn apply_byte_shuffle(raw: &[u8], bpp: usize, width: u32, height: u32) -> (r: Result<Vec<u8>, CafeError>)
    ensures
        match r {
            Ok(v) => shuffle_result(raw@, bpp as nat, width as nat, height as nat, true) == Ok::<Seq<u8>, CafeError>(v@),
            Err(e) => shuffle_result(raw@, bpp as nat, width as nat, height as nat, true) == Err::<Seq<u8>, CafeError>(e),
        },
{
    let (pixels, total) = match shuffle_sizes(raw.len(), bpp, width, height) {
        Ok(s) => s,
        Err(e) => return Err(e),
    };
    let ghost spec = shuffle_spec(raw@, bpp as nat, pixels as nat);
    let mut shuffled: Vec<u8> = Vec::with_capacity(total);
    let mut byte_pos: usize = 0;
    while byte_pos < bpp
        invariant
            byte_pos <= bpp,
            total == pixels * bpp,
            raw@.len() == total,
            bpp >= 2,
            spec == shuffle_spec(raw@, bpp as nat, pixels as nat),
            spec.len() == total,
            shuffled@.len() == byte_pos * pixels,
            forall|j: int| 0 <= j < shuffled@.len() ==> #[trigger] shuffled@[j] == spec[j],
        decreases bpp - byte_pos,
    {
        let mut pixel_idx: usize = 0;
        while pixel_idx < pixels
            invariant
                byte_pos < bpp,
                pixel_idx <= pixels,
                total == pixels * bpp,
                raw@.len() == total,
                bpp >= 2,
                spec == shuffle_spec(raw@, bpp as nat, pixels as nat),
                spec.len() == total,
                shuffled@.len() == byte_pos * pixels + pixel_idx,
                forall|j: int| 0 <= j < shuffled@.len() ==> #[trigger] shuffled@[j] == spec[j],
            decreases pixels - pixel_idx,
        {
            proof {
                lemma_index_in_grid(pixel_idx as int, byte_pos as int, pixels as int, bpp as int);
                lemma_index_in_grid(byte_pos as int, pixel_idx as int, bpp as int, pixels as int);
                assert(pixels * bpp == bpp * pixels) by (nonlinear_arith);
            }
            let read_idx = pixel_idx * bpp + byte_pos;
            shuffled.push(raw[read_idx]);
            pixel_idx += 1;
        }
        proof {
            assert((byte_pos + 1) * pixels == byte_pos * pixels + pixels) by (nonlinear_arith);
        }
        byte_pos += 1;
    }
    assert(bpp * pixels == pixels * bpp) by (nonlinear_arith);
    assert(shuffled@ =~= spec);
    Ok(shuffled)
}

/// Reverses `apply_byte_shuffle` for the same `bpp`, `width` and `height`.
pub fn undo_byte_shuffle(shuffled: &[u8], bpp: usize, width: u32, height: u32) -> (r: Result<Vec<u8>, CafeError>)
    ensures
        match r {
            Ok(v) => shuffle_result(shuffled@, bpp as nat, width as nat, height as nat, false) == Ok::<Seq<u8>, CafeError>(v@),
            Err(e) => shuffle_result(shuffled@, bpp as nat, width as nat, height as nat, false) == Err::<Seq<u8>, CafeError>(e),
        },
{
    let (pixels, total) = match shuffle_sizes(shuffled.len(), bpp, width, height) {
        Ok(s) => s,
        Err(e) => return Err(e),
    };
    let ghost spec = unshuffle_spec(shuffled@, bpp as nat, pixels as nat);
    let mut unshuffled: Vec<u8> = Vec::with_capacity(total);
    let mut pixel_idx: usize = 0;
    while pixel_idx < pixels
        invariant
            pixel_idx <= pixels,
            total == pixels * bpp,
            shuffled@.len() == total,
            bpp >= 2,
            spec == unshuffle_spec(shuffled@, bpp as nat, pixels as nat),
            spec.len() == total,
            unshuffled@.len() == pixel_idx * bpp,
            forall|j: int| 0 <= j < unshuffled@.len() ==> #[trigger] unshuffled@[j] == spec[j],
        decreases pixels - pixel_idx,
    {
        let mut byte_pos: usize = 0;
        while byte_pos < bpp
            invariant
                pixel_idx < pixels,
                byte_pos <= bpp,
                total == pixels * bpp,
                shuffled@.len() == total,
                bpp >= 2,
                spec == unshuffle_spec(shuffled@, bpp as nat, pixels as nat),
                spec.len() == total,
                unshuffled@.len() == pixel_idx * bpp + byte_pos,
                forall|j: int| 0 <= j < unshuffled@.len() ==> #[trigger] unshuffled@[j] == spec[j],
            decreases bpp - byte_pos,
        {
            proof {
                lemma_index_in_grid(pixel_idx as int, byte_pos as int, pixels as int, bpp as int);
                lemma_index_in_grid(byte_pos as int, pixel_idx as int, bpp as int, pixels as int);
                assert(pixels * bpp == bpp * pixels) by (nonlinear_arith);
            }
            let read_idx = byte_pos * pixels + pixel_idx;
            unshuffled.push(shuffled[read_idx]);
            byte_pos += 1;
        }
        proof {
            assert((pixel_idx + 1) * bpp == pixel_idx * bpp + bpp) by (nonlinear_arith);
        }
        pixel_idx += 1;
    }
    assert(unshuffled@ =~= spec);
    Ok(unshuffled)
}

/// Unshuffling a shuffled buffer gives the buffer back.
pub proof fn lemma_unshuffle_shuffle(raw: Seq<u8>, bpp: nat, pixels: nat)
    requires raw.len() == pixels * bpp, bpp > 0,
    ensures unshuffle_spec(shuffle_spec(raw, bpp, pixels), bpp, pixels) == raw,
{
    let s = shuffle_spec(raw, bpp, pixels);
    let u = unshuffle_spec(s, bpp, pixels);
    assert forall|i: int| 0 <= i < raw.len() implies #[trigger] u[i] == raw[i] by {
        let p = i / (bpp as int);
        let b = i % (bpp as int);
        assert(i == p * bpp + b && 0 <= b < bpp) by {
            vstd::arithmetic::div_mod::lemma_fundamental_div_mod(i, bpp as int);
            vstd::arithmetic::div_mod::lemma_mod_bound(i, bpp as int);
            assert(bpp * p == p * bpp) by (nonlinear_arith);
        }
        assert(0 <= p < pixels) by (nonlinear_arith)
            requires i == p * bpp + b, 0 <= b < bpp, 0 <= i < pixels * bpp, bpp > 0;
        lemma_index_in_grid(b, p, bpp as int, pixels as int);
        assert(b * pixels + p < pixels * bpp) by (nonlinear_arith)
            requires b * pixels + p < bpp * pixels;
    }
    assert(u =~= raw);
}

/// Byte-shuffle round trip: whenever shuffling succeeds, unshuffling its
/// output with the same parameters succeeds and gives the input back.
pub proof fn lemma_byte_shuffle_roundtrip(raw: Seq<u8>, bpp: nat, width: nat, height: nat)
    requires shuffle_result(raw, bpp, width, height, true) is Ok,
    ensures
        shuffle_result(shuffle_result(raw, bpp, width, height, true)->Ok_0, bpp, width, height, false)
            == Ok::<Seq<u8>, CafeError>(raw),
{
    lemma_unshuffle_shuffle(raw, bpp, width * height);
}

} // verus!
