//! Laws of the color conversions across bit depths: an 8-bit sample written
//! at a wide depth (10, 12, 16 or 32 bits) and read back is the sample
//! itself, so converting RGBA to a color type at a wide depth and back gives
//! what the 8-bit conversion gives, which for RGBA is the image itself.

use vstd::prelude::*;
use crate::color::{
    be16_at, bytes_per_pixel_spec, be16_bytes, be32_at, be32_bytes, color_type_to_rgba_spec, compress_wide_spec, decode_wide_sample,
    decoded_wide, encode_pixel, encode_sample, expand32_spec, expand_wide_spec, map_pixels, pixel_samples, reduce_spec,
    rgba_to_color_type_spec, samples_8bit_spec, samples_per_pixel_spec, wide_bytes,
};
use crate::constants::{COLOR_TYPE_GRAY, COLOR_TYPE_GRAY_ALPHA, COLOR_TYPE_RGB, COLOR_TYPE_RGBA};

verus! {

/// A bit depth whose samples are stored in two or four bytes.
pub open spec fn wide_depth(bd: u8) -> bool {
    bd == 10 || bd == 12 || bd == 16 || bd == 32
}

/// The 8-bit samples of `t`, each written at depth `bd`, one after another.
pub open spec fn encoded_samples(t: Seq<u8>, bd: u8) -> Seq<u8>
    decreases t.len(),
{
    if t.len() == 0 {
        Seq::empty()
    } else {
        encoded_samples(t.drop_last(), bd) + encode_sample(t.last(), bd)
    }
}

/// An 8-bit sample written at a wide depth and cut back to 8 bits is itself.
proof fn lemma_sample_back(v: u8, bd: u8, s: Seq<u8>, o: int)
    requires
        wide_depth(bd),
        0 <= o,
        o + wide_bytes(bd) <= s.len(),
        forall|j: int| 0 <= j < wide_bytes(bd) ==> s[o + j] == #[trigger] encode_sample(v, bd)[j],
    ensures
        decode_wide_sample(s, o, bd) == v,
{
    if bd == 32 {
        let e = expand32_spec(v);
        assert(e == v * 0x0101_0101) by (nonlinear_arith) requires v <= 255, e == (v * 0x0101_0101) as u32;
        let b = be32_bytes(e);
        assert(encode_sample(v, bd) == b);
        assert(s[o + 0] == encode_sample(v, bd)[0] && s[o + 1] == encode_sample(v, bd)[1]);
        assert(s[o + 2] == encode_sample(v, bd)[2] && s[o + 3] == encode_sample(v, bd)[3]);
        assert(b[0] == v && b[1] == v && b[2] == v && b[3] == v) by (nonlinear_arith)
            requires e == v * 0x0101_0101, v <= 255,
                b[0] == (e / 0x100_0000) as u8, b[1] == ((e / 0x1_0000) % 256) as u8,
                b[2] == ((e / 0x100) % 256) as u8, b[3] == (e % 256) as u8;
        assert(be32_at(s, o) == e);
    } else {
        let m: int = if bd == 10 { 1023 } else if bd == 12 { 4095 } else { 65535 };
        let e = expand_wide_spec(v, bd);
        let q = v * m / 255;
        assert(0 <= q <= 65535) by (nonlinear_arith) requires v <= 255, 0 <= m <= 65535, q == v * m / 255;
        assert(e == q);
        let b = be16_bytes(e);
        assert(encode_sample(v, bd) == b);
        assert(s[o + 0] == encode_sample(v, bd)[0] && s[o + 1] == encode_sample(v, bd)[1]);
        assert(be16_at(s, o) == e) by {
            assert((e / 256) * 256 + e % 256 == e);
        }
        vstd::arithmetic::div_mod::lemma_fundamental_div_mod(v * m, 255);
        assert(v * m == 255 * q + (v * m) % 255);
        if bd == 10 {
            assert(v * 1023 == 255 * (4 * v) + 3 * v);
            assert(e / 4 == v);
        } else if bd == 12 {
            assert(v * 4095 == 255 * (16 * v) + 15 * v);
            assert(e / 16 == v);
        } else {
            assert(v * 65535 == 255 * (257 * v));
            assert(e / 256 == v);
        }
        assert(compress_wide_spec(e, bd) == v);
    }
}

/// The samples written for `t` hold `t[i]`'s bytes at `i` times the sample
/// width.
#[verifier::rlimit(30)]
proof fn lemma_encoded_at(t: Seq<u8>, bd: u8)
    requires wide_depth(bd),
    ensures
        encoded_samples(t, bd).len() == t.len() * wide_bytes(bd),
        forall|i: int, j: int| 0 <= i < t.len() && 0 <= j < wide_bytes(bd)
            ==> encoded_samples(t, bd)[i * wide_bytes(bd) + j] == #[trigger] encode_sample(t[i], bd)[j],
    decreases t.len(),
{
    let wb = wide_bytes(bd);
    if t.len() > 0 {
        let p = t.drop_last();
        lemma_encoded_at(p, bd);
        let sp = encoded_samples(p, bd);
        let last = encode_sample(t.last(), bd);
        assert(encoded_samples(t, bd) == sp + last);
        assert(last.len() == wb);
        assert(p.len() * wb + wb == t.len() * wb) by (nonlinear_arith) requires p.len() + 1 == t.len();
        assert forall|i: int, j: int| 0 <= i < t.len() && 0 <= j < wb
            implies encoded_samples(t, bd)[i * wb + j] == #[trigger] encode_sample(t[i], bd)[j] by {
            if i < p.len() {
                assert(i * wb + j < p.len() * wb) by (nonlinear_arith) requires i < p.len(), j < wb, i >= 0, wb >= 0;
                assert(0 <= i * wb) by (nonlinear_arith) requires i >= 0, wb >= 0;
                assert((sp + last)[i * wb + j] == sp[i * wb + j]);
                assert(t[i] == p[i]);
            } else {
                assert(i == p.len());
                assert(i * wb == p.len() * wb);
                assert((sp + last)[i * wb + j] == last[j]);
            }
        }
    }
}

/// Reading back the first `k` samples written for `t` gives them.
proof fn lemma_decoded_encoded(t: Seq<u8>, bd: u8, k: nat)
    requires wide_depth(bd), k <= t.len(),
    ensures decoded_wide(encoded_samples(t, bd), bd, k) == t.take(k as int),
    decreases k,
{
    if k > 0 {
        lemma_decoded_encoded(t, bd, (k - 1) as nat);
        lemma_encoded_at(t, bd);
        let wb = wide_bytes(bd);
        let s = encoded_samples(t, bd);
        let o = (k - 1) * wb;
        assert(o + wb <= s.len()) by (nonlinear_arith) requires o == (k - 1) * wb, k <= t.len(), s.len() == t.len() * wb;
        assert forall|j: int| 0 <= j < wb implies s[o + j] == #[trigger] encode_sample(t[k - 1], bd)[j] by {
            assert(s[(k - 1) * wb + j] == encode_sample(t[k - 1], bd)[j]);
        }
        lemma_sample_back(t[k - 1], bd, s, o);
        assert(t.take(k - 1).push(t[k - 1]) =~= t.take(k as int));
    }
}

/// Writing two runs of samples is writing their concatenation.
proof fn lemma_encoded_concat(a: Seq<u8>, b: Seq<u8>, bd: u8)
    ensures encoded_samples(a + b, bd) == encoded_samples(a, bd) + encoded_samples(b, bd),
    decreases b.len(),
{
    if b.len() == 0 {
        assert(a + b =~= a);
        assert(encoded_samples(b, bd) =~= Seq::<u8>::empty());
        assert(encoded_samples(a, bd) + Seq::<u8>::empty() =~= encoded_samples(a, bd));
    } else {
        lemma_encoded_concat(a, b.drop_last(), bd);
        assert((a + b).drop_last() =~= a + b.drop_last());
        assert((a + b).last() == b.last());
    }
}

/// The samples of one pixel (1 to 4 of them) written at a wide depth.
proof fn lemma_encoded_pixel(ct: u8, bd: u8, r: u8, g: u8, b: u8, a: u8)
    requires wide_depth(bd),
    ensures encode_pixel(ct, bd, r, g, b, a) == encoded_samples(encode_pixel(ct, 8, r, g, b, a), bd),
{
    reveal_with_fuel(encoded_samples, 5);
    let p = encode_pixel(ct, 8, r, g, b, a);
    if ct == COLOR_TYPE_GRAY {
        assert(p.drop_last() =~= Seq::<u8>::empty());
        assert(encoded_samples(p, bd) =~= encode_sample(p[0], bd));
    } else if ct == COLOR_TYPE_RGB {
        assert(p =~= seq![r, g, b]);
        assert(p.drop_last() =~= seq![r, g]);
        assert(p.drop_last().drop_last() =~= seq![r]);
        assert(p.drop_last().drop_last().drop_last() =~= Seq::<u8>::empty());
        assert(encoded_samples(p, bd) =~= encode_sample(r, bd) + encode_sample(g, bd) + encode_sample(b, bd));
    } else if ct == COLOR_TYPE_GRAY_ALPHA {
        assert(p.drop_last() =~= seq![p[0]]);
        assert(p.drop_last().drop_last() =~= Seq::<u8>::empty());
        assert(encoded_samples(p, bd) =~= encode_sample(p[0], bd) + encode_sample(a, bd));
    } else {
        assert(p =~= seq![r, g, b, a]);
        assert(p.drop_last() =~= seq![r, g, b]);
        assert(p.drop_last().drop_last() =~= seq![r, g]);
        assert(p.drop_last().drop_last().drop_last() =~= seq![r]);
        assert(p.drop_last().drop_last().drop_last().drop_last() =~= Seq::<u8>::empty());
        assert(encoded_samples(p, bd) =~= encode_sample(r, bd) + encode_sample(g, bd) + encode_sample(b, bd) + encode_sample(a, bd));
    }
}

/// The first `n` pixels converted at a wide depth are their 8-bit samples
/// written at that depth; there are `n` times the channel count of them.
proof fn lemma_map_pixels_wide(rgba: Seq<u8>, n: nat, ct: u8, bd: u8)
    requires wide_depth(bd), samples_per_pixel_spec(ct) is Some,
    ensures
        map_pixels(rgba, n, ct, bd, false) == encoded_samples(map_pixels(rgba, n, ct, 8, false), bd),
        map_pixels(rgba, n, ct, 8, false).len() == n * (samples_per_pixel_spec(ct)->0 as nat),
    decreases n,
{
    if n > 0 {
        lemma_map_pixels_wide(rgba, (n - 1) as nat, ct, bd);
        let o = 4 * (n - 1);
        let (r, g, b, a) = (rgba[o], rgba[o + 1], rgba[o + 2], rgba[o + 3]);
        lemma_encoded_pixel(ct, bd, r, g, b, a);
        lemma_encoded_concat(map_pixels(rgba, (n - 1) as nat, ct, 8, false), encode_pixel(ct, 8, r, g, b, a), bd);
        let ch = samples_per_pixel_spec(ct)->0 as nat;
        assert(encode_pixel(ct, 8, r, g, b, a).len() == ch);
        assert((n - 1) * ch + ch == n * ch) by (nonlinear_arith);
    }
}

/// At 8 bits, the samples kept of a gray pixel are those written for it.
proof fn lemma_gray_samples_8(rgba: Seq<u8>, n: nat, ct: u8)
    requires ct == COLOR_TYPE_GRAY || ct == COLOR_TYPE_GRAY_ALPHA,
    ensures map_pixels(rgba, n, ct, 8, true) == map_pixels(rgba, n, ct, 8, false),
    decreases n,
{
    if n > 0 {
        lemma_gray_samples_8(rgba, (n - 1) as nat, ct);
        let o = 4 * (n - 1);
        let (r, g, b, a) = (rgba[o], rgba[o + 1], rgba[o + 2], rgba[o + 3]);
        assert(reduce_spec(a, 8) == a);
        assert(pixel_samples(ct, 8, r, g, b, a) =~= encode_pixel(ct, 8, r, g, b, a));
    }
}

/// RGBA pixels converted to RGBA at 8 bits are themselves.
proof fn lemma_rgba_samples_8(rgba: Seq<u8>, n: nat)
    requires 4 * n <= rgba.len(),
    ensures map_pixels(rgba, n, COLOR_TYPE_RGBA, 8, false) == rgba.take((4 * n) as int),
    decreases n,
{
    if n > 0 {
        lemma_rgba_samples_8(rgba, (n - 1) as nat);
        let o = 4 * (n - 1);
        assert(rgba.take(o) + encode_pixel(COLOR_TYPE_RGBA, 8, rgba[o], rgba[o + 1], rgba[o + 2], rgba[o + 3]) =~= rgba.take((4 * n) as int));
    } else {
        assert(rgba.take(0) =~= Seq::<u8>::empty());
    }
}

/// Converted at 8 bits, the image's pixels are their 8-bit samples.
#[verifier::rlimit(30)]
proof fn lemma_at_8(rgba: Seq<u8>, w: nat, h: nat, ct: u8, bd: u8)
    requires
        rgba.len() == w * h * 4,
        samples_per_pixel_spec(ct) is Some,
        bd == 8 || wide_depth(bd),
        rgba_to_color_type_spec(rgba, w, h, ct, bd) is Ok,
    ensures
        rgba_to_color_type_spec(rgba, w, h, ct, 8) == Ok::<Seq<u8>, crate::error::CafeError>(map_pixels(rgba, w * h, ct, 8, false)),
        ct == COLOR_TYPE_RGBA ==> w * h * 4 <= usize::MAX,
{
    let np = rgba.len() / 4;
    assert(np == w * h);
    let bp8 = bytes_per_pixel_spec(ct, 8)->0 as nat;
    let bpb = bytes_per_pixel_spec(ct, bd)->0 as nat;
    assert(bp8 <= bpb);
    assert(w * h * bp8 <= w * h * bpb) by (nonlinear_arith) requires bp8 <= bpb;
    if ct == COLOR_TYPE_GRAY || ct == COLOR_TYPE_GRAY_ALPHA {
        lemma_gray_samples_8(rgba, np, ct);
    }
    if ct == COLOR_TYPE_RGBA {
        lemma_rgba_samples_8(rgba, np);
        assert(rgba.take((4 * np) as int) =~= rgba);
        assert(w * h * 4 <= w * h * bpb) by (nonlinear_arith) requires 4 <= bpb;
    }
}

/// Read back from a wide depth, the converted samples are the 8-bit ones.
#[verifier::rlimit(30)]
proof fn lemma_wide_back(rgba: Seq<u8>, w: nat, h: nat, ct: u8, bd: u8)
    requires
        rgba.len() == w * h * 4,
        samples_per_pixel_spec(ct) is Some,
        wide_depth(bd),
        rgba_to_color_type_spec(rgba, w, h, ct, bd) is Ok,
    ensures
        samples_8bit_spec(rgba_to_color_type_spec(rgba, w, h, ct, bd)->Ok_0, w, h, ct, bd)
            == Ok::<Seq<u8>, crate::error::CafeError>(map_pixels(rgba, w * h, ct, 8, false)),
{
    let np = rgba.len() / 4;
    assert(np == w * h);
    let ch = samples_per_pixel_spec(ct)->0 as nat;
    let m8 = map_pixels(rgba, np, ct, 8, false);
    lemma_map_pixels_wide(rgba, np, ct, bd);
    let e = map_pixels(rgba, np, ct, bd, false);
    assert(rgba_to_color_type_spec(rgba, w, h, ct, bd) == Ok::<Seq<u8>, crate::error::CafeError>(e));
    lemma_encoded_at(m8, bd);
    assert(w * h * ch == np * ch);
    lemma_decoded_encoded(m8, bd, np * ch);
    assert(m8.take((np * ch) as int) =~= m8);
}

/// Bit-depth round trip of the color conversions: converting a `w` x `h`
/// RGBA image to a direct color type at a wide depth (10, 12, 16 or 32
/// bits) and back to RGBA gives what converting at 8 bits gives; for RGBA
/// itself, at 8 bits or wider, the image comes back unchanged.
pub proof fn lemma_color_depth_roundtrip(rgba: Seq<u8>, w: nat, h: nat, ct: u8, bd: u8)
    requires
        rgba.len() == w * h * 4,
        samples_per_pixel_spec(ct) is Some,
        bd == 8 || wide_depth(bd),
        rgba_to_color_type_spec(rgba, w, h, ct, bd) is Ok,
    ensures
        rgba_to_color_type_spec(rgba, w, h, ct, 8) is Ok,
        color_type_to_rgba_spec(rgba_to_color_type_spec(rgba, w, h, ct, bd)->Ok_0, w, h, ct, bd)
            == color_type_to_rgba_spec(rgba_to_color_type_spec(rgba, w, h, ct, 8)->Ok_0, w, h, ct, 8),
        ct == COLOR_TYPE_RGBA ==> color_type_to_rgba_spec(rgba_to_color_type_spec(rgba, w, h, ct, bd)->Ok_0, w, h, ct, bd)
            == Ok::<Seq<u8>, crate::error::CafeError>(rgba),
{
    let m8 = map_pixels(rgba, w * h, ct, 8, false);
    lemma_at_8(rgba, w, h, ct, bd);
    lemma_map_pixels_wide(rgba, w * h, ct, 16);
    assert(samples_8bit_spec(m8, w, h, ct, 8) == Ok::<Seq<u8>, crate::error::CafeError>(m8));
    if bd != 8 {
        lemma_wide_back(rgba, w, h, ct, bd);
    }
    if ct == COLOR_TYPE_RGBA {
        lemma_rgba_samples_8(rgba, w * h);
        assert(rgba.take((4 * (w * h)) as int) =~= rgba);
    }
}

} // verus!
