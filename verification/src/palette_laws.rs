//! What the palette operations compute, stated without their recursive
//! definitions: dequantizing writes each index's entry as four bytes (opaque
//! black past the end); the weighted distance weighs green by 1024 and red
//! and blue by the mean red level; each pixel is matched to a nearest entry
//! (the first of several equally near); median cut splits the bucket of
//! largest variance (the last of several), sorting it along its axis and
//! cutting it in half; a bucket stands for its mean color; a k-means
//! centroid moves to the weighted mean of its colors, and a centroid
//! channel rounds to the nearest integer.

use vstd::prelude::*;
use crate::indexed::{closest_below, closest_rgb_below, dequantize_spec, nn_dist, rgb_dist};
use crate::palette::{redmean_distance_spec, sq_diff, PaletteEntry};
use crate::predictor_laws::is_floor_div;
use crate::quantize::{
    bucket_mean, channel, channel_max, channel_min, channel_sum, cluster_chan, cluster_weight, fp_dist, fp_round, key_class,
    longest_axis, nearest_below, scaled_variance, sort_by_channel, sorted_below, split_spec, update_spec, variance_ge,
    widest_bucket_below, Centroid, Rgb,
};

verus! {

// ---------------------------------------------------------------------------
// Dequantizing
// ---------------------------------------------------------------------------

/// Dequantizing gives four bytes per index, R, G, B, A of the entry the
/// index names, or opaque black for an index past the end of the palette.
pub proof fn lemma_dequantize_pixels(indices: Seq<u8>, entries: Seq<PaletteEntry>)
    ensures ({
        let out = dequantize_spec(indices, entries);
        &&& out.len() == 4 * indices.len()
        &&& forall|i: int| 0 <= i < indices.len() ==> {
            let e = if (#[trigger] indices[i] as int) < entries.len() {
                entries[indices[i] as int]
            } else {
                PaletteEntry { r: 0, g: 0, b: 0, a: 255 }
            };
            out[4 * i] == e.r && out[4 * i + 1] == e.g && out[4 * i + 2] == e.b && out[4 * i + 3] == e.a
        }
    }),
{
    let out = dequantize_spec(indices, entries);
    assert forall|i: int| 0 <= i < indices.len() implies {
        let e = if (#[trigger] indices[i] as int) < entries.len() {
            entries[indices[i] as int]
        } else {
            PaletteEntry { r: 0, g: 0, b: 0, a: 255 }
        };
        out[4 * i] == e.r && out[4 * i + 1] == e.g && out[4 * i + 2] == e.b && out[4 * i + 3] == e.a
    } by {
        vstd::arithmetic::div_mod::lemma_fundamental_div_mod(4 * i, 4);
        vstd::arithmetic::div_mod::lemma_fundamental_div_mod(4 * i + 1, 4);
        vstd::arithmetic::div_mod::lemma_fundamental_div_mod(4 * i + 2, 4);
        vstd::arithmetic::div_mod::lemma_fundamental_div_mod(4 * i + 3, 4);
        assert((4 * i) / 4 == i && (4 * i) % 4 == 0);
        assert((4 * i + 1) / 4 == i && (4 * i + 1) % 4 == 1);
        assert((4 * i + 2) / 4 == i && (4 * i + 2) % 4 == 2);
        assert((4 * i + 3) / 4 == i && (4 * i + 3) % 4 == 3);
    }
}

// ---------------------------------------------------------------------------
// Matching a pixel to its nearest entry
// ---------------------------------------------------------------------------

proof fn lemma_sq_diff_bound(x: u8, y: u8)
    ensures 0 <= sq_diff(x, y) <= 65025,
{
    assert(0 <= (x - y) * (x - y) <= 65025) by (nonlinear_arith) requires 0 <= x <= 255, 0 <= y <= 255;
}

proof fn lemma_nn_dist_bound(px: PaletteEntry, e: PaletteEntry, weighted: bool)
    ensures 0 <= nn_dist(px, e, weighted) < u32::MAX, 0 <= rgb_dist(px, e) < u32::MAX,
{
    lemma_sq_diff_bound(px.r, e.r);
    lemma_sq_diff_bound(px.g, e.g);
    lemma_sq_diff_bound(px.b, e.b);
    lemma_sq_diff_bound(px.a, e.a);
    let rmean: int = (px.r + e.r) / 2;
    assert(0 <= rmean <= 255);
    let (dr, dg, db) = (sq_diff(px.r, e.r), sq_diff(px.g, e.g), sq_diff(px.b, e.b));
    assert(0 <= (512 + rmean) * dr <= 767 * 65025) by (nonlinear_arith) requires 0 <= rmean <= 255, 0 <= dr <= 65025;
    assert(0 <= (767 - rmean) * db <= 767 * 65025) by (nonlinear_arith) requires 0 <= rmean <= 255, 0 <= db <= 65025;
}

/// The weighted ("redmean") distance is symmetric, ignores alpha, is zero
/// exactly for equal RGB, and weighs a difference in one channel alone by
/// `512 + mean red` for red, 1024 for green and `767 - red` for blue, per
/// squared unit.
pub proof fn lemma_redmean_weights(p: PaletteEntry, q: PaletteEntry)
    ensures
        redmean_distance_spec(p, q) == redmean_distance_spec(q, p),
        redmean_distance_spec(p, q) >= 0,
        redmean_distance_spec(p, q) == 0 <==> (p.r == q.r && p.g == q.g && p.b == q.b),
        p.r == q.r && p.b == q.b ==> redmean_distance_spec(p, q) == 1024 * ((p.g - q.g) * (p.g - q.g)),
        p.g == q.g && p.b == q.b ==> redmean_distance_spec(p, q) == (512 + (p.r + q.r) / 2) * ((p.r - q.r) * (p.r - q.r)),
        p.r == q.r && p.g == q.g ==> redmean_distance_spec(p, q) == (767 - p.r) * ((p.b - q.b) * (p.b - q.b)),
{
    let rm: int = (p.r + q.r) / 2;
    assert(0 <= rm <= 255);
    assert(rm == (q.r + p.r) / 2);
    let (dr, dg, db) = (sq_diff(p.r, q.r), sq_diff(p.g, q.g), sq_diff(p.b, q.b));
    assert(dr == (p.r - q.r) * (p.r - q.r) && dg == (p.g - q.g) * (p.g - q.g) && db == (p.b - q.b) * (p.b - q.b));
    lemma_sq_diff_symmetric(p.r, q.r);
    lemma_sq_diff_symmetric(p.g, q.g);
    lemma_sq_diff_symmetric(p.b, q.b);
    lemma_sq_diff_bound(p.r, q.r);
    lemma_sq_diff_bound(p.g, q.g);
    lemma_sq_diff_bound(p.b, q.b);
    let dist = redmean_distance_spec(p, q);
    assert(dist == (512 + rm) * dr + 1024 * dg + (767 - rm) * db);
    assert((512 + rm) * dr >= 0 && (767 - rm) * db >= 0) by (nonlinear_arith) requires 0 <= rm <= 255, dr >= 0, db >= 0;
    if dist == 0 {
        assert(dr == 0 && dg == 0 && db == 0) by (nonlinear_arith)
            requires (512 + rm) * dr + 1024 * dg + (767 - rm) * db == 0, 0 <= rm <= 255, dr >= 0, dg >= 0, db >= 0;
        assert(p.r == q.r) by (nonlinear_arith) requires (p.r - q.r) * (p.r - q.r) == 0;
        assert(p.g == q.g) by (nonlinear_arith) requires (p.g - q.g) * (p.g - q.g) == 0;
        assert(p.b == q.b) by (nonlinear_arith) requires (p.b - q.b) * (p.b - q.b) == 0;
    }
    if p.r == q.r {
        assert(dr == 0) by (nonlinear_arith) requires p.r - q.r == 0, dr == (p.r - q.r) * (p.r - q.r);
        assert(rm == p.r);
        assert((512 + rm) * dr == 0) by (nonlinear_arith) requires dr == 0;
    }
    if p.g == q.g {
        assert(dg == 0) by (nonlinear_arith) requires p.g - q.g == 0, dg == (p.g - q.g) * (p.g - q.g);
    }
    if p.b == q.b {
        assert(db == 0) by (nonlinear_arith) requires p.b - q.b == 0, db == (p.b - q.b) * (p.b - q.b);
        assert((767 - rm) * db == 0) by (nonlinear_arith) requires db == 0;
    }
}

proof fn lemma_sq_diff_symmetric(x: u8, y: u8)
    ensures sq_diff(x, y) == sq_diff(y, x),
{
    assert((x - y) * (x - y) == (y - x) * (y - x)) by (nonlinear_arith);
}

proof fn lemma_closest_below_min(entries: Seq<PaletteEntry>, px: PaletteEntry, weighted: bool, k: nat)
    requires 0 < k <= entries.len(),
    ensures ({
        let (bi, bd) = closest_below(entries, px, weighted, k);
        &&& bi < k
        &&& bd == nn_dist(px, entries[bi as int], weighted)
        &&& forall|j: int| 0 <= j < k ==> #[trigger] nn_dist(px, entries[j], weighted) >= bd
        &&& forall|j: int| 0 <= j < bi ==> #[trigger] nn_dist(px, entries[j], weighted) > bd
    }),
    decreases k,
{
    lemma_nn_dist_bound(px, entries[k - 1], weighted);
    let d = nn_dist(px, entries[k - 1], weighted);
    let (bi, bd) = closest_below(entries, px, weighted, k);
    if k == 1 {
        assert(closest_below(entries, px, weighted, 0) == (0nat, u32::MAX as int));
        assert(bi == 0 && bd == d);
    } else {
        lemma_closest_below_min(entries, px, weighted, (k - 1) as nat);
        let (pi, pd) = closest_below(entries, px, weighted, (k - 1) as nat);
        assert forall|j: int| 0 <= j < k implies #[trigger] nn_dist(px, entries[j], weighted) >= bd by {
            if j < k - 1 {
                assert(nn_dist(px, entries[j], weighted) >= pd);
            }
        }
        assert forall|j: int| 0 <= j < bi implies #[trigger] nn_dist(px, entries[j], weighted) > bd by {
            if d < pd {
                if j < k - 1 {
                    assert(nn_dist(px, entries[j], weighted) >= pd);
                }
            } else {
                assert(nn_dist(px, entries[j], weighted) > pd);
            }
        }
    }
}

/// Nearest-neighbor matching (plain or weighted) picks a nearest entry: no
/// entry is nearer to the pixel than the chosen one, and every entry before
/// it is strictly farther.
pub proof fn lemma_closest_is_nearest(entries: Seq<PaletteEntry>, px: PaletteEntry, weighted: bool)
    requires entries.len() > 0,
    ensures ({
        let (bi, bd) = closest_below(entries, px, weighted, entries.len());
        &&& bi < entries.len()
        &&& bd == nn_dist(px, entries[bi as int], weighted)
        &&& forall|j: int| 0 <= j < entries.len() ==> #[trigger] nn_dist(px, entries[j], weighted) >= bd
        &&& forall|j: int| 0 <= j < bi ==> #[trigger] nn_dist(px, entries[j], weighted) > bd
    }),
{
    lemma_closest_below_min(entries, px, weighted, entries.len());
}

proof fn lemma_closest_rgb_below_min(entries: Seq<PaletteEntry>, px: PaletteEntry, k: nat)
    requires 0 < k <= entries.len(),
    ensures ({
        let (bi, bd) = closest_rgb_below(entries, px, k);
        &&& bi < k
        &&& bd == rgb_dist(px, entries[bi as int])
        &&& forall|j: int| 0 <= j < k ==> #[trigger] rgb_dist(px, entries[j]) >= bd
        &&& forall|j: int| 0 <= j < bi ==> #[trigger] rgb_dist(px, entries[j]) > bd
    }),
    decreases k,
{
    lemma_nn_dist_bound(px, entries[k - 1], false);
    let d = rgb_dist(px, entries[k - 1]);
    let (bi, bd) = closest_rgb_below(entries, px, k);
    if k == 1 {
        assert(closest_rgb_below(entries, px, 0) == (0nat, u32::MAX as int));
        assert(bi == 0 && bd == d);
    } else {
        lemma_closest_rgb_below_min(entries, px, (k - 1) as nat);
        let (pi, pd) = closest_rgb_below(entries, px, (k - 1) as nat);
        assert forall|j: int| 0 <= j < k implies #[trigger] rgb_dist(px, entries[j]) >= bd by {
            if j < k - 1 {
                assert(rgb_dist(px, entries[j]) >= pd);
            }
        }
        assert forall|j: int| 0 <= j < bi implies #[trigger] rgb_dist(px, entries[j]) > bd by {
            if d < pd {
                if j < k - 1 {
                    assert(rgb_dist(px, entries[j]) >= pd);
                }
            } else {
                assert(rgb_dist(px, entries[j]) > pd);
            }
        }
    }
}

/// Mapping to a fixed palette picks, by squared RGB distance, a nearest
/// entry: none is nearer, and every entry before it is strictly farther.
pub proof fn lemma_closest_rgb_is_nearest(entries: Seq<PaletteEntry>, px: PaletteEntry)
    requires entries.len() > 0,
    ensures ({
        let (bi, bd) = closest_rgb_below(entries, px, entries.len());
        &&& bi < entries.len()
        &&& bd == rgb_dist(px, entries[bi as int])
        &&& forall|j: int| 0 <= j < entries.len() ==> #[trigger] rgb_dist(px, entries[j]) >= bd
        &&& forall|j: int| 0 <= j < bi ==> #[trigger] rgb_dist(px, entries[j]) > bd
    }),
{
    lemma_closest_rgb_below_min(entries, px, entries.len());
}

/// The k-means assignment puts a color with its nearest centroid among the
/// first `k` (an index that fits in `usize`): none is nearer, and every
/// centroid before it is strictly farther.
pub proof fn lemma_nearest_centroid(c: Rgb, cens: Seq<Centroid>, k: nat)
    requires 0 < k <= cens.len(), k <= usize::MAX,
    ensures ({
        let m = nearest_below(c, cens, k) as int;
        &&& 0 <= m < k
        &&& forall|j: int| 0 <= j < k ==> #[trigger] fp_dist(c, cens[j]) >= fp_dist(c, cens[m])
        &&& forall|j: int| 0 <= j < m ==> #[trigger] fp_dist(c, cens[j]) > fp_dist(c, cens[m])
    }),
    decreases k,
{
    if k > 1 {
        lemma_nearest_centroid(c, cens, (k - 1) as nat);
        let p = nearest_below(c, cens, (k - 1) as nat) as int;
        let m = nearest_below(c, cens, k) as int;
        assert forall|j: int| 0 <= j < k implies #[trigger] fp_dist(c, cens[j]) >= fp_dist(c, cens[m]) by {
            if j < k - 1 {
                assert(fp_dist(c, cens[j]) >= fp_dist(c, cens[p]));
            }
        }
        assert forall|j: int| 0 <= j < m implies #[trigger] fp_dist(c, cens[j]) > fp_dist(c, cens[m]) by {
            if m == k - 1 {
                if j < k - 1 {
                    assert(fp_dist(c, cens[j]) >= fp_dist(c, cens[p]));
                }
            } else {
                assert(fp_dist(c, cens[j]) > fp_dist(c, cens[p]));
            }
        }
    }
}

// ---------------------------------------------------------------------------
// Median cut: which bucket to split
// ---------------------------------------------------------------------------

proof fn lemma_variance_ge_trans(a: Seq<Rgb>, b: Seq<Rgb>, c: Seq<Rgb>)
    requires a.len() > 0, b.len() > 0, c.len() > 0, variance_ge(a, b), variance_ge(b, c),
    ensures variance_ge(a, c),
{
    let (va, vb, vc) = (scaled_variance(a), scaled_variance(b), scaled_variance(c));
    let (na, nb, nc) = (a.len() as int, b.len() as int, c.len() as int);
    let (sa, sb, sc) = (na * na, nb * nb, nc * nc);
    assert(sa > 0 && sb > 0 && sc > 0) by (nonlinear_arith) requires na > 0, nb > 0, nc > 0, sa == na * na, sb == nb * nb, sc == nc * nc;
    assert(va * sb * sc >= vb * sa * sc) by (nonlinear_arith) requires va * sb >= vb * sa, sc > 0;
    assert(vb * sc * sa >= vc * sb * sa) by (nonlinear_arith) requires vb * sc >= vc * sb, sa > 0;
    assert(sb * (va * sc - vc * sa) >= 0) by (nonlinear_arith)
        requires va * sb * sc >= vb * sa * sc, vb * sc * sa >= vc * sb * sa;
    assert(va * sc - vc * sa >= 0) by (nonlinear_arith) requires sb * (va * sc - vc * sa) >= 0, sb > 0;
}

proof fn lemma_widest_below(bk: Seq<Seq<Rgb>>, k: nat)
    requires k <= bk.len(),
    ensures
        match widest_bucket_below(bk, k) {
            None => forall|j: int| 0 <= j < k ==> (#[trigger] bk[j]).len() <= 1,
            Some(i) => {
                &&& 0 <= i < k
                &&& bk[i].len() > 1
                &&& forall|j: int| 0 <= j < k && (#[trigger] bk[j]).len() > 1 ==> variance_ge(bk[i], bk[j])
                &&& forall|j: int| i < j < k && (#[trigger] bk[j]).len() > 1 ==> !variance_ge(bk[j], bk[i])
            },
        },
    decreases k,
{
    if k > 0 {
        lemma_widest_below(bk, (k - 1) as nat);
        let prev = widest_bucket_below(bk, (k - 1) as nat);
        let i = k - 1;
        if bk[i].len() > 1 && (prev is None || variance_ge(bk[i], bk[prev->0])) {
            assert forall|j: int| 0 <= j < k && (#[trigger] bk[j]).len() > 1 implies variance_ge(bk[i], bk[j]) by {
                if j < i {
                    let p = prev->0;
                    lemma_variance_ge_trans(bk[i], bk[p], bk[j]);
                }
            }
        } else if bk[i].len() > 1 {
            let p = prev->0;
            assert(variance_ge(bk[p], bk[i]));
        }
    }
}

/// A median-cut step splits the bucket of largest variance (relative to
/// its size): the bucket chosen has more than one color, no bucket of more
/// than one color has a larger variance, and every later one has a smaller
/// variance; when no bucket has more than one color, none is chosen.
pub proof fn lemma_split_widest_bucket(bk: Seq<Seq<Rgb>>)
    ensures
        match widest_bucket_below(bk, bk.len()) {
            None => forall|j: int| 0 <= j < bk.len() ==> (#[trigger] bk[j]).len() <= 1,
            Some(i) => {
                &&& 0 <= i < bk.len()
                &&& bk[i].len() > 1
                &&& forall|j: int| 0 <= j < bk.len() && (#[trigger] bk[j]).len() > 1 ==> variance_ge(bk[i], bk[j])
                &&& forall|j: int| i < j < bk.len() && (#[trigger] bk[j]).len() > 1 ==> !variance_ge(bk[j], bk[i])
            },
        },
{
    lemma_widest_below(bk, bk.len());
}

// ---------------------------------------------------------------------------
// Median cut: splitting a bucket
// ---------------------------------------------------------------------------

proof fn lemma_key_class_props(s: Seq<Rgb>, axis: int, v: int)
    ensures
        forall|i: int| 0 <= i < key_class(s, axis, v).len() ==>
            channel(#[trigger] key_class(s, axis, v)[i], axis) == v && s.contains(key_class(s, axis, v)[i]),
    decreases s.len(),
{
    if s.len() > 0 {
        let p = s.drop_last();
        lemma_key_class_props(p, axis, v);
        let kp = key_class(p, axis, v);
        let kc = key_class(s, axis, v);
        assert forall|i: int| 0 <= i < kc.len() implies channel(#[trigger] kc[i], axis) == v && s.contains(kc[i]) by {
            if i < kp.len() {
                assert(kc[i] == kp[i]);
                let w = choose|w: int| 0 <= w < p.len() && p[w] == kp[i];
                assert(s[w] == p[w]);
            } else {
                assert(kc[i] == s.last());
                assert(s[s.len() - 1] == s.last());
            }
        }
    }
}

proof fn lemma_sorted_below_props(s: Seq<Rgb>, axis: int, k: nat)
    ensures ({
        let t = sorted_below(s, axis, k);
        &&& forall|i: int| 0 <= i < t.len() ==> channel(#[trigger] t[i], axis) < k && s.contains(t[i])
        &&& forall|i: int, j: int| 0 <= i <= j < t.len() ==> channel(#[trigger] t[i], axis) <= channel(#[trigger] t[j], axis)
    }),
    decreases k,
{
    if k > 0 {
        lemma_sorted_below_props(s, axis, (k - 1) as nat);
        lemma_key_class_props(s, axis, k - 1);
        let a = sorted_below(s, axis, (k - 1) as nat);
        let b = key_class(s, axis, k - 1);
        let t = sorted_below(s, axis, k);
        assert(t == a + b);
        assert forall|i: int| 0 <= i < t.len() implies channel(#[trigger] t[i], axis) < k && s.contains(t[i]) by {
            if i < a.len() {
                assert(t[i] == a[i]);
            } else {
                assert(t[i] == b[i - a.len()]);
            }
        }
        assert forall|i: int, j: int| 0 <= i <= j < t.len() implies channel(#[trigger] t[i], axis) <= channel(#[trigger] t[j], axis) by {
            if j < a.len() {
                assert(t[i] == a[i] && t[j] == a[j]);
            } else if i < a.len() {
                assert(t[i] == a[i] && t[j] == b[j - a.len()]);
            } else {
                assert(t[i] == b[i - a.len()] && t[j] == b[j - a.len()]);
            }
        }
    }
}

/// A median-cut split sorts the bucket by its longest axis and cuts it at
/// the middle: the first half holds `len / 2` colors of the bucket, the
/// second the rest, each half is in order along the axis, and no color of
/// the first half lies above a color of the second along it.
pub proof fn lemma_split_at_median(s: Seq<Rgb>)
    requires s.len() > 0,
    ensures ({
        let (lo, hi) = split_spec(s);
        let ax = longest_axis(s);
        &&& lo.len() == s.len() / 2
        &&& hi.len() == s.len() - s.len() / 2
        &&& forall|i: int| 0 <= i < lo.len() ==> s.contains(#[trigger] lo[i])
        &&& forall|i: int| 0 <= i < hi.len() ==> s.contains(#[trigger] hi[i])
        &&& forall|i: int, j: int| 0 <= i < lo.len() && 0 <= j < hi.len() ==> channel(#[trigger] lo[i], ax) <= channel(#[trigger] hi[j], ax)
        &&& forall|i: int, j: int| 0 <= i <= j < lo.len() ==> channel(#[trigger] lo[i], ax) <= channel(#[trigger] lo[j], ax)
        &&& forall|i: int, j: int| 0 <= i <= j < hi.len() ==> channel(#[trigger] hi[i], ax) <= channel(#[trigger] hi[j], ax)
    }),
{
    let ax = longest_axis(s);
    let t = sort_by_channel(s, ax);
    crate::quantize::lemma_sort_len(s, ax);
    lemma_sorted_below_props(s, ax, 256);
    let mid = (s.len() / 2) as int;
    let (lo, hi) = split_spec(s);
    assert(lo == t.take(mid) && hi == t.skip(mid));
    assert forall|i: int| 0 <= i < lo.len() implies s.contains(#[trigger] lo[i]) by {
        assert(lo[i] == t[i]);
    }
    assert forall|i: int| 0 <= i < hi.len() implies s.contains(#[trigger] hi[i]) by {
        assert(hi[i] == t[i + mid]);
    }
    assert forall|i: int, j: int| 0 <= i < lo.len() && 0 <= j < hi.len() implies channel(#[trigger] lo[i], ax) <= channel(#[trigger] hi[j], ax) by {
        assert(lo[i] == t[i] && hi[j] == t[j + mid]);
    }
    assert forall|i: int, j: int| 0 <= i <= j < lo.len() implies channel(#[trigger] lo[i], ax) <= channel(#[trigger] lo[j], ax) by {
        assert(lo[i] == t[i] && lo[j] == t[j]);
    }
    assert forall|i: int, j: int| 0 <= i <= j < hi.len() implies channel(#[trigger] hi[i], ax) <= channel(#[trigger] hi[j], ax) by {
        assert(hi[i] == t[i + mid] && hi[j] == t[j + mid]);
    }
}

// ---------------------------------------------------------------------------
// Median cut: a bucket's color
// ---------------------------------------------------------------------------

proof fn lemma_channel_sum_between(s: Seq<Rgb>, a: int)
    requires s.len() > 0,
    ensures
        s.len() * channel_min(s, a) <= channel_sum(s, a) <= s.len() * channel_max(s, a),
    decreases s.len(),
{
    let p = s.drop_last();
    let x = channel(s.last(), a) as int;
    let n = p.len() as int;
    if n == 0 {
        assert(channel_sum(p, a) == 0);
    } else {
        lemma_channel_sum_between(p, a);
        let (lo, hi) = (channel_min(s, a) as int, channel_max(s, a) as int);
        let (plo, phi) = (channel_min(p, a) as int, channel_max(p, a) as int);
        assert(lo <= plo && lo <= x && phi <= hi && x <= hi);
        assert(n * lo <= n * plo) by (nonlinear_arith) requires lo <= plo, n >= 0;
        assert(n * phi <= n * hi) by (nonlinear_arith) requires phi <= hi, n >= 0;
        assert((n + 1) * lo == n * lo + lo && (n + 1) * hi == n * hi + hi) by (nonlinear_arith);
    }
}

proof fn lemma_channel_mean(b: Seq<Rgb>, a: int)
    requires b.len() > 0,
    ensures
        is_floor_div(channel_sum(b, a) / (b.len() as int), channel_sum(b, a), b.len() as int),
        channel_min(b, a) <= channel_sum(b, a) / (b.len() as int) <= channel_max(b, a),
{
    let n = b.len() as int;
    lemma_channel_sum_between(b, a);
    let s = channel_sum(b, a);
    let q = s / n;
    vstd::arithmetic::div_mod::lemma_fundamental_div_mod(s, n);
    let (lo, hi) = (channel_min(b, a) as int, channel_max(b, a) as int);
    assert(lo <= q <= hi) by (nonlinear_arith)
        requires n > 0, n * lo <= s <= n * hi, n * q <= s < n * q + n;
}

/// A median-cut bucket stands for its mean color: each channel of its
/// entry is the bucket's channel sum divided by its size, rounded down, so
/// it lies between the bucket's smallest and largest value of that
/// channel; the entry is opaque.
pub proof fn lemma_bucket_mean_is_mean(b: Seq<Rgb>)
    requires b.len() > 0,
    ensures ({
        let e = bucket_mean(b);
        let n = b.len() as int;
        &&& is_floor_div(e.r as int, channel_sum(b, 0), n)
        &&& is_floor_div(e.g as int, channel_sum(b, 1), n)
        &&& is_floor_div(e.b as int, channel_sum(b, 2), n)
        &&& channel_min(b, 0) <= e.r <= channel_max(b, 0)
        &&& channel_min(b, 1) <= e.g <= channel_max(b, 1)
        &&& channel_min(b, 2) <= e.b <= channel_max(b, 2)
        &&& e.a == 255
    }),
{
    let n = b.len() as int;
    lemma_channel_mean(b, 0);
    lemma_channel_mean(b, 1);
    lemma_channel_mean(b, 2);
    assert(channel_sum(b, 0) / n <= 255 && channel_sum(b, 1) / n <= 255 && channel_sum(b, 2) / n <= 255);
}

// ---------------------------------------------------------------------------
// k-means: rounding a centroid
// ---------------------------------------------------------------------------

proof fn lemma_cluster_chan_bound(colors: Seq<Rgb>, weights: Seq<u64>, asg: Seq<usize>, j: int, axis: int, n: nat)
    requires n <= colors.len(), n <= weights.len(), n <= asg.len(),
    ensures
        0 <= cluster_chan(colors, weights, asg, j, axis, n) <= 255 * cluster_weight(weights, asg, j, n),
        0 <= cluster_weight(weights, asg, j, n),
    decreases n,
{
    if n > 0 {
        lemma_cluster_chan_bound(colors, weights, asg, j, axis, (n - 1) as nat);
        let x = channel(colors[n - 1], axis) as int;
        let wt = weights[n - 1] as int;
        assert(0 <= x * wt <= 255 * wt) by (nonlinear_arith) requires 0 <= x <= 255, wt >= 0;
    }
}

proof fn lemma_fp_mean_exact(sum: int, w: int)
    requires w > 0, 0 <= sum <= 255 * w,
    ensures (sum * 65536 / w) as u64 == sum * 65536 / w, is_floor_div(sum * 65536 / w, 65536 * sum, w),
{
    vstd::arithmetic::div_mod::lemma_fundamental_div_mod(sum * 65536, w);
    let q = sum * 65536 / w;
    assert(0 <= q <= 255 * 65536) by (nonlinear_arith)
        requires w > 0, 0 <= sum <= 255 * w, w * q <= sum * 65536 < w * q + w;
    assert(sum * 65536 == 65536 * sum);
}

/// A k-means update moves each centroid with members to the weighted mean
/// of its colors, every color weighing its weight, in fixed point (1/65536,
/// rounded down); a centroid without members stays where it is.
pub proof fn lemma_update_to_weighted_mean(colors: Seq<Rgb>, weights: Seq<u64>, asg: Seq<usize>, cens: Seq<Centroid>, j: int)
    requires colors.len() == weights.len(), colors.len() == asg.len(), 0 <= j < cens.len(),
    ensures ({
        let n = colors.len();
        let w = cluster_weight(weights, asg, j, n);
        let m = update_spec(colors, weights, asg, cens)[j];
        &&& w > 0 ==> is_floor_div(m.0 as int, 65536 * cluster_chan(colors, weights, asg, j, 0, n), w)
        &&& w > 0 ==> is_floor_div(m.1 as int, 65536 * cluster_chan(colors, weights, asg, j, 1, n), w)
        &&& w > 0 ==> is_floor_div(m.2 as int, 65536 * cluster_chan(colors, weights, asg, j, 2, n), w)
        &&& w <= 0 ==> m == cens[j]
    }),
{
    let n = colors.len();
    let w = cluster_weight(weights, asg, j, n);
    lemma_cluster_chan_bound(colors, weights, asg, j, 0, n);
    lemma_cluster_chan_bound(colors, weights, asg, j, 1, n);
    lemma_cluster_chan_bound(colors, weights, asg, j, 2, n);
    if w > 0 {
        lemma_fp_mean_exact(cluster_chan(colors, weights, asg, j, 0, n), w);
        lemma_fp_mean_exact(cluster_chan(colors, weights, asg, j, 1, n), w);
        lemma_fp_mean_exact(cluster_chan(colors, weights, asg, j, 2, n), w);
    }
}

/// A fixed-point centroid channel (in 1/65536) within the byte range rounds
/// to the nearest integer, halves up.
pub proof fn lemma_fp_round_nearest(v: u64)
    requires v <= 255 * 65536,
    ensures
        65536 * fp_round(v) <= v + 32768 < 65536 * fp_round(v) + 65536,
{
    vstd::arithmetic::div_mod::lemma_fundamental_div_mod(v + 32768, 65536);
}

} // verus!
