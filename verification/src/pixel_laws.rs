//! What the pixel operations compute, stated by the properties that define
//! them: the Paeth prediction is the nearest neighbour of `a + b - c`, gray
//! is the BT.601 luma, a median-cut split follows the widest channel, a
//! k-means color weighs its pixel count, and nearest-neighbor quantization
//! tells colors apart on all four channels.

use vstd::prelude::*;
use crate::color::{gray_of, map_pixels, pixel_samples, reduce_spec, rgba_to_color_type_spec};
use crate::constants::{COLOR_TYPE_GRAY, F_PAETH};
use crate::filter::predict_spec;
use crate::indexed::{closest_below, nn_dist, nn_fold, nn_step, pixel_at};
use crate::palette::{distance_squared_spec, PaletteEntry};
use crate::quantize::{
    channel, channel_max, channel_min, channel_range, color_weights, longest_axis, opaque_pixel_is, pixel_count, Rgb,
};

verus! {

// ---------------------------------------------------------------------------
// Paeth
// ---------------------------------------------------------------------------

/// How far the neighbour value `x` lies from the estimate `p`.
pub open spec fn gap(p: int, x: u8) -> int {
    if p < x { x - p } else { p - x }
}

/// The Paeth prediction from left `a`, up `b` and up-left `c` is the one of
/// the three nearest to the estimate `a + b - c`; on ties `a` wins, then `b`.
pub proof fn lemma_paeth_nearest(a: u8, b: u8, c: u8, d: u8, ll: u8, uu: u8)
    ensures ({
        let p = a + b - c;
        let r = predict_spec(F_PAETH, a, b, c, d, ll, uu);
        let (ga, gb, gc) = (gap(p, a), gap(p, b), gap(p, c));
        &&& ga <= gb && ga <= gc ==> r == a
        &&& !(ga <= gb && ga <= gc) && gb <= gc ==> r == b
        &&& !(ga <= gb && ga <= gc) && !(gb <= gc) ==> r == c
        &&& gap(p, r) <= ga && gap(p, r) <= gb && gap(p, r) <= gc
    }),
{
}

// ---------------------------------------------------------------------------
// Gray
// ---------------------------------------------------------------------------

proof fn lemma_gray_of_bounds(r: u8, g: u8, b: u8)
    ensures 1000 * gray_of(r, g, b) <= 299 * r + 587 * g + 114 * b < 1000 * gray_of(r, g, b) + 1000,
{
    let s: int = 299 * r + 587 * g + 114 * b;
    assert(0 <= s <= 255000);
    vstd::arithmetic::div_mod::lemma_fundamental_div_mod(s, 1000);
    assert(s / 1000 <= 255);
}

proof fn lemma_gray_samples(rgba: Seq<u8>, n: nat)
    requires 4 * n <= rgba.len(),
    ensures
        map_pixels(rgba, n, COLOR_TYPE_GRAY, 8, true).len() == n,
        forall|i: int| 0 <= i < n ==> #[trigger] map_pixels(rgba, n, COLOR_TYPE_GRAY, 8, true)[i]
            == gray_of(rgba[4 * i], rgba[4 * i + 1], rgba[4 * i + 2]),
    decreases n,
{
    if n > 0 {
        lemma_gray_samples(rgba, (n - 1) as nat);
        let o = 4 * (n - 1);
        let prev = map_pixels(rgba, (n - 1) as nat, COLOR_TYPE_GRAY, 8, true);
        let last = pixel_samples(COLOR_TYPE_GRAY, 8, rgba[o], rgba[o + 1], rgba[o + 2], rgba[o + 3]);
        assert(reduce_spec(gray_of(rgba[o], rgba[o + 1], rgba[o + 2]), 8) == gray_of(rgba[o], rgba[o + 1], rgba[o + 2]));
        assert(last =~= seq![gray_of(rgba[o], rgba[o + 1], rgba[o + 2])]);
        assert forall|i: int| 0 <= i < n implies #[trigger] map_pixels(rgba, n, COLOR_TYPE_GRAY, 8, true)[i]
            == gray_of(rgba[4 * i], rgba[4 * i + 1], rgba[4 * i + 2]) by {
            if i < n - 1 {
                assert(map_pixels(rgba, n, COLOR_TYPE_GRAY, 8, true)[i] == prev[i]);
            }
        }
    }
}

/// Converting RGBA to 8-bit gray gives one sample per pixel: its luma
/// `(299 R + 587 G + 114 B) / 1000`, rounded down.
pub proof fn lemma_gray_is_luma(rgba: Seq<u8>, w: nat, h: nat)
    requires rgba_to_color_type_spec(rgba, w, h, COLOR_TYPE_GRAY, 8) is Ok,
    ensures ({
        let y = rgba_to_color_type_spec(rgba, w, h, COLOR_TYPE_GRAY, 8)->Ok_0;
        &&& y.len() == rgba.len() / 4
        &&& forall|i: int| 0 <= i < y.len() ==>
            1000 * #[trigger] y[i] <= 299 * rgba[4 * i] + 587 * rgba[4 * i + 1] + 114 * rgba[4 * i + 2] < 1000 * y[i] + 1000
    }),
{
    let n = rgba.len() / 4;
    lemma_gray_samples(rgba, n);
    let y = map_pixels(rgba, n, COLOR_TYPE_GRAY, 8, true);
    assert(rgba_to_color_type_spec(rgba, w, h, COLOR_TYPE_GRAY, 8) == Ok::<Seq<u8>, crate::error::CafeError>(y));
    assert forall|i: int| 0 <= i < y.len() implies
        1000 * #[trigger] y[i] <= 299 * rgba[4 * i] + 587 * rgba[4 * i + 1] + 114 * rgba[4 * i + 2] < 1000 * y[i] + 1000 by {
        lemma_gray_of_bounds(rgba[4 * i], rgba[4 * i + 1], rgba[4 * i + 2]);
    }
}

// ---------------------------------------------------------------------------
// Median cut: the split axis
// ---------------------------------------------------------------------------

proof fn lemma_channel_extremes(s: Seq<Rgb>, a: int)
    requires s.len() > 0,
    ensures
        forall|i: int| 0 <= i < s.len() ==> channel_min(s, a) <= #[trigger] channel(s[i], a) <= channel_max(s, a),
        exists|i: int| 0 <= i < s.len() && channel(s[i], a) == channel_min(s, a),
        exists|j: int| 0 <= j < s.len() && channel(s[j], a) == channel_max(s, a),
    decreases s.len(),
{
    let p = s.drop_last();
    let l = s.len() - 1;
    if p.len() == 0 {
        assert(channel(s[0], a) == channel_min(s, a));
        assert(channel(s[0], a) == channel_max(s, a));
    } else {
        lemma_channel_extremes(p, a);
        assert forall|i: int| 0 <= i < s.len() implies channel_min(s, a) <= #[trigger] channel(s[i], a) <= channel_max(s, a) by {
            if i < l {
                assert(s[i] == p[i]);
                assert(channel_min(p, a) <= channel(p[i], a) <= channel_max(p, a));
            }
        }
        let i0 = choose|i: int| 0 <= i < p.len() && channel(p[i], a) == channel_min(p, a);
        let j0 = choose|j: int| 0 <= j < p.len() && channel(p[j], a) == channel_max(p, a);
        assert(s[i0] == p[i0] && s[j0] == p[j0]);
        if channel(s[l], a) < channel_min(p, a) {
            assert(channel(s[l], a) == channel_min(s, a));
        } else {
            assert(channel(s[i0], a) == channel_min(s, a));
        }
        if channel(s[l], a) > channel_max(p, a) {
            assert(channel(s[l], a) == channel_max(s, a));
        } else {
            assert(channel(s[j0], a) == channel_max(s, a));
        }
    }
}

/// A median-cut split sorts a bucket along a channel whose spread is the
/// widest: no two colors of the bucket differ on any channel by more than
/// the spread of the chosen channel, and two colors differ by exactly that
/// much on it.
pub proof fn lemma_split_axis_widest(s: Seq<Rgb>)
    requires s.len() > 0,
    ensures ({
        let ax = longest_axis(s);
        &&& 0 <= ax <= 2
        &&& forall|a: int, i: int, j: int| 0 <= a <= 2 && 0 <= i < s.len() && 0 <= j < s.len()
            ==> #[trigger] channel(s[i], a) - #[trigger] channel(s[j], a) <= channel_range(s, ax)
        &&& exists|i: int, j: int| 0 <= i < s.len() && 0 <= j < s.len() && channel(s[i], ax) - channel(s[j], ax) == channel_range(s, ax)
    }),
{
    lemma_channel_extremes(s, 0);
    lemma_channel_extremes(s, 1);
    lemma_channel_extremes(s, 2);
    let ax = longest_axis(s);
    assert forall|a: int, i: int, j: int| 0 <= a <= 2 && 0 <= i < s.len() && 0 <= j < s.len()
        implies #[trigger] channel(s[i], a) - #[trigger] channel(s[j], a) <= channel_range(s, ax) by {
        if a == 0 {
            assert(channel(s[i], 0) <= channel_max(s, 0) && channel_min(s, 0) <= channel(s[j], 0));
        } else if a == 1 {
            assert(channel(s[i], 1) <= channel_max(s, 1) && channel_min(s, 1) <= channel(s[j], 1));
        } else {
            assert(channel(s[i], 2) <= channel_max(s, 2) && channel_min(s, 2) <= channel(s[j], 2));
        }
    }
    let i0 = choose|i: int| 0 <= i < s.len() && channel(s[i], ax) == channel_max(s, ax);
    let j0 = choose|j: int| 0 <= j < s.len() && channel(s[j], ax) == channel_min(s, ax);
    assert(channel(s[i0], ax) - channel(s[j0], ax) == channel_range(s, ax));
}

// ---------------------------------------------------------------------------
// k-means: color weights
// ---------------------------------------------------------------------------

/// The opaque pixels among the first `n` of `rgba` whose color is `c`.
pub open spec fn pixels_of_color(rgba: Seq<u8>, c: Rgb, n: nat) -> Set<int> {
    Set::new(|p: int| 0 <= p < n && opaque_pixel_is(rgba, p, c))
}

proof fn lemma_pixel_count_is_size(rgba: Seq<u8>, c: Rgb, n: nat)
    ensures
        pixels_of_color(rgba, c, n).finite(),
        pixel_count(rgba, c, n) == pixels_of_color(rgba, c, n).len(),
    decreases n,
{
    if n == 0 {
        assert(pixels_of_color(rgba, c, 0) =~= Set::<int>::empty());
    } else {
        let m = (n - 1) as nat;
        lemma_pixel_count_is_size(rgba, c, m);
        let prev = pixels_of_color(rgba, c, m);
        assert(!prev.contains(m as int));
        if opaque_pixel_is(rgba, m as int, c) {
            assert(pixels_of_color(rgba, c, n) =~= prev.insert(m as int));
        } else {
            assert(pixels_of_color(rgba, c, n) =~= prev);
        }
    }
}

/// The weight k-means gives each distinct color is the number of opaque
/// pixels of that color.
pub proof fn lemma_color_weight_is_pixel_count(rgba: Seq<u8>, colors: Seq<Rgb>)
    requires rgba.len() <= usize::MAX,
    ensures
        color_weights(rgba, colors).len() == colors.len(),
        forall|i: int| 0 <= i < colors.len() ==>
            #[trigger] color_weights(rgba, colors)[i] == pixels_of_color(rgba, colors[i], rgba.len() / 4).len(),
{
    assert forall|i: int| 0 <= i < colors.len() implies
        #[trigger] color_weights(rgba, colors)[i] == pixels_of_color(rgba, colors[i], rgba.len() / 4).len() by {
        lemma_pixel_count_is_size(rgba, colors[i], rgba.len() / 4);
        crate::quantize::lemma_pixel_count_bound(rgba, colors[i], rgba.len() / 4);
    }
}

// ---------------------------------------------------------------------------
// Nearest-neighbor quantization
// ---------------------------------------------------------------------------

/// The nearest-neighbor distance tells colors apart on all four channels:
/// it is zero exactly for equal entries, and it grows with each channel's
/// difference.
pub proof fn lemma_distance_separates(p: PaletteEntry, q: PaletteEntry)
    ensures
        distance_squared_spec(p, q) >= 0,
        distance_squared_spec(p, q) == 0 <==> p == q,
        distance_squared_spec(p, q) >= (p.a - q.a) * (p.a - q.a),
        distance_squared_spec(p, q) >= (p.r - q.r) * (p.r - q.r),
{
    lemma_sq_bound(p.r, q.r);
    lemma_sq_bound(p.g, q.g);
    lemma_sq_bound(p.b, q.b);
    lemma_sq_bound(p.a, q.a);
    if distance_squared_spec(p, q) == 0 {
        lemma_sq_zero(p.r, q.r);
        lemma_sq_zero(p.g, q.g);
        lemma_sq_zero(p.b, q.b);
        lemma_sq_zero(p.a, q.a);
        assert(p == q);
    }
    if p == q {
        assert(p.r - q.r == 0 && p.g - q.g == 0 && p.b - q.b == 0 && p.a - q.a == 0);
        assert(distance_squared_spec(p, q) == 0) by (nonlinear_arith)
            requires
                p.r - q.r == 0, p.g - q.g == 0, p.b - q.b == 0, p.a - q.a == 0,
                distance_squared_spec(p, q) == (p.r - q.r) * (p.r - q.r) + (p.g - q.g) * (p.g - q.g)
                    + (p.b - q.b) * (p.b - q.b) + (p.a - q.a) * (p.a - q.a);
    }
}

proof fn lemma_sq_zero(x: u8, y: u8)
    requires (x - y) * (x - y) == 0,
    ensures x == y,
{
    assert(x == y) by (nonlinear_arith) requires (x - y) * (x - y) == 0;
}

proof fn lemma_sq_bound(x: u8, y: u8)
    ensures 0 <= (x - y) * (x - y) <= 65025,
{
    assert(0 <= (x - y) * (x - y) <= 65025) by (nonlinear_arith) requires 0 <= x <= 255, 0 <= y <= 255;
}

proof fn lemma_closest_found(entries: Seq<PaletteEntry>, px: PaletteEntry, k: nat)
    requires 0 < k <= entries.len(),
    ensures
        closest_below(entries, px, false, k).0 < k,
        closest_below(entries, px, false, k).1 == nn_dist(px, entries[closest_below(entries, px, false, k).0 as int], false),
    decreases k,
{
    let e = entries[k - 1];
    lemma_sq_bound(px.r, e.r);
    lemma_sq_bound(px.g, e.g);
    lemma_sq_bound(px.b, e.b);
    lemma_sq_bound(px.a, e.a);
    let d = nn_dist(px, e, false);
    assert(d <= 4 * 65025);
    if k > 1 {
        lemma_closest_found(entries, px, (k - 1) as nat);
    } else {
        assert(closest_below(entries, px, false, 0) == (0nat, u32::MAX as int));
        assert(closest_below(entries, px, false, 1) == (0nat, d));
    }
}

proof fn lemma_nn_exact(rgba: Seq<u8>, max: u32, k: nat)
    requires
        max <= 256,
        nn_fold(rgba, max, false, k).1.len() < max,
    ensures ({
        let (ix, entries) = nn_fold(rgba, max, false, k);
        &&& ix.len() == k
        &&& forall|p: int| 0 <= p < k ==> (#[trigger] ix[p] as int) < entries.len() && entries[ix[p] as int] == pixel_at(rgba, p)
    }),
    decreases k,
{
    if k > 0 {
        let m = (k - 1) as nat;
        let st = nn_fold(rgba, max, false, m);
        let px = pixel_at(rgba, m as int);
        let (bi, bd) = closest_below(st.1, px, false, st.1.len());
        assert(nn_fold(rgba, max, false, k) == nn_step(st, px, max, false));
        assert(st.1.len() <= nn_fold(rgba, max, false, k).1.len());
        lemma_nn_exact(rgba, max, m);
        let (ix, entries) = nn_fold(rgba, max, false, k);
        if bd > 0 && st.1.len() < max {
            assert forall|p: int| 0 <= p < k implies (#[trigger] ix[p] as int) < entries.len() && entries[ix[p] as int] == pixel_at(rgba, p) by {
                if p < m {
                    assert(ix[p] == st.0[p]);
                } else {
                    assert(ix[p] == st.1.len() as u8);
                }
            }
        } else {
            assert(st.1.len() > 0) by {
                if st.1.len() == 0 {
                    assert(bd == u32::MAX as int);
                }
            }
            lemma_closest_found(st.1, px, st.1.len());
            lemma_distance_separates(px, st.1[bi as int]);
            assert(bd == 0);
            assert forall|p: int| 0 <= p < k implies (#[trigger] ix[p] as int) < entries.len() && entries[ix[p] as int] == pixel_at(rgba, p) by {
                if p < m {
                    assert(ix[p] == st.0[p]);
                } else {
                    assert(ix[p] == bi as u8);
                }
            }
        }
    }
}

/// Nearest-neighbor quantization is exact while the palette has room: when
/// the palette it builds for the pixels of `rgba` stays below `max`
/// entries (at most 256), every pixel's index names an entry equal to that
/// pixel on all four channels, alpha included.
pub proof fn lemma_nn_quantization_exact(rgba: Seq<u8>, max: u32)
    requires
        max <= 256,
        nn_fold(rgba, max, false, rgba.len() / 4).1.len() < max,
    ensures ({
        let (ix, entries) = nn_fold(rgba, max, false, rgba.len() / 4);
        &&& ix.len() == rgba.len() / 4
        &&& forall|p: int| 0 <= p < ix.len() ==> (#[trigger] ix[p] as int) < entries.len() && {
            let e = entries[ix[p] as int];
            e.r == rgba[4 * p] && e.g == rgba[4 * p + 1] && e.b == rgba[4 * p + 2] && e.a == rgba[4 * p + 3]
        }
    }),
{
    lemma_nn_exact(rgba, max, rgba.len() / 4);
}

} // verus!
