//! What the sample scalings compute, stated as the proportions they keep:
//! reducing an 8-bit sample keeps its top bits, expanding a reduced sample
//! maps full scale to full scale, a wide sample is the 8-bit one scaled by
//! `(2^bd - 1) / 255` rounded down, and cutting a wide sample back drops
//! its low bits.

use vstd::prelude::*;
use crate::color::{compress32_spec, compress_wide_spec, expand32_spec, expand_to_8_spec, expand_wide_spec, reduce_spec};
use crate::predictor_laws::is_floor_div;

verus! {

/// Reducing an 8-bit sample to 1 bit thresholds it at 128; to 2 or 4 bits
/// keeps its top 2 or 4 bits; to 8 bits leaves it unchanged.
pub proof fn lemma_reduce_keeps_top_bits(v: u8)
    ensures
        reduce_spec(v, 1) == 1 <==> v >= 128,
        reduce_spec(v, 1) <= 1,
        is_floor_div(reduce_spec(v, 2) as int, v as int, 64),
        is_floor_div(reduce_spec(v, 4) as int, v as int, 16),
        reduce_spec(v, 8) == v,
{
    vstd::arithmetic::div_mod::lemma_fundamental_div_mod(v as int, 64);
    vstd::arithmetic::div_mod::lemma_fundamental_div_mod(v as int, 16);
}

/// Expanding a 1-, 2- or 4-bit sample to 8 bits scales it proportionally,
/// so that 0 stays 0 and the largest value becomes 255: `r / 255` equals
/// `v / (2^bd - 1)`. Values beyond the depth saturate at 255.
pub proof fn lemma_expand_to_8_full_scale(v: u8)
    ensures
        v <= 1 ==> expand_to_8_spec(v, 1) == 255 * v,
        v > 1 ==> expand_to_8_spec(v, 1) == 255,
        v <= 3 ==> 3 * expand_to_8_spec(v, 2) == 255 * v,
        v > 3 ==> expand_to_8_spec(v, 2) == 255,
        v <= 15 ==> 15 * expand_to_8_spec(v, 4) == 255 * v,
        v > 15 ==> expand_to_8_spec(v, 4) == 255,
        expand_to_8_spec(v, 8) == v,
{
}

/// An 8-bit sample written at 10, 12 or 16 bits is `v * (2^bd - 1) / 255`
/// rounded down (at 16 bits exactly `257 v`), so 0 and 255 map to the ends
/// of the wide range; at 32 bits the byte fills all four bytes, `v * 0x01010101`.
pub proof fn lemma_wide_scaling(v: u8)
    ensures
        is_floor_div(expand_wide_spec(v, 10) as int, 1023 * v, 255),
        is_floor_div(expand_wide_spec(v, 12) as int, 4095 * v, 255),
        expand_wide_spec(v, 16) == 257 * v,
        expand32_spec(v) == 0x0101_0101 * v,
{
    vstd::arithmetic::div_mod::lemma_fundamental_div_mod(1023 * v, 255);
    vstd::arithmetic::div_mod::lemma_fundamental_div_mod(4095 * v, 255);
    vstd::arithmetic::div_mod::lemma_fundamental_div_mod(65535 * v, 255);
    assert(65535 * v == 255 * (257 * v));
    vstd::arithmetic::div_mod::lemma_div_multiples_vanish(257 * v, 255);
}

/// Cutting a wide sample back to 8 bits drops its low bits: 2 at 10 bits,
/// 4 at 12 bits, 8 at 16 bits and 24 at 32 bits.
pub proof fn lemma_compress_drops_low_bits(x: u16, y: u32)
    ensures
        x <= 1023 ==> is_floor_div(compress_wide_spec(x, 10) as int, x as int, 4),
        x <= 4095 ==> is_floor_div(compress_wide_spec(x, 12) as int, x as int, 16),
        is_floor_div(compress_wide_spec(x, 16) as int, x as int, 256),
        is_floor_div(compress32_spec(y) as int, y as int, 0x100_0000),
{
    vstd::arithmetic::div_mod::lemma_fundamental_div_mod(x as int, 4);
    vstd::arithmetic::div_mod::lemma_fundamental_div_mod(x as int, 16);
    vstd::arithmetic::div_mod::lemma_fundamental_div_mod(x as int, 256);
    vstd::arithmetic::div_mod::lemma_fundamental_div_mod(y as int, 0x100_0000);
    if x <= 1023 {
        assert(x / 4 < 256);
        vstd::arithmetic::div_mod::lemma_small_mod((x / 4) as nat, 256);
    }
    if x <= 4095 {
        assert(x / 16 < 256);
        vstd::arithmetic::div_mod::lemma_small_mod((x / 16) as nat, 256);
    }
}

} // verus!
