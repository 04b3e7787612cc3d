//! What each stateless predictor computes, stated by the property that
//! defines it rather than by its formula in `filter`: which neighbour it
//! copies, which weighted mean it takes (rounded down), where it clamps and
//! where it wraps modulo 256; and how the adaptive weighted predictor
//! averages its neighbours and rewards the nearest of them.

use vstd::prelude::*;
use crate::constants::{
    F_2NDORDER, F_4WAY_D1, F_4WAY_D2, F_4WAY_H, F_4WAY_V, F_AVERAGE, F_CONTEXT, F_GRADIENT, F_MED, F_NONE,
    F_SMEDIAN, F_SUB, F_TR_DIRECTIONAL, F_UP,
};
use crate::filter::{abs_diff, predict_spec, weighted_predict_spec, weighted_update_spec, weights_ok};

verus! {

/// `r` is `n / d` rounded down, for a positive `d`.
pub open spec fn is_floor_div(r: int, n: int, d: int) -> bool {
    d * r <= n < d * r + d
}

/// None predicts zero, Sub the left byte, Up the byte above, and Average
/// the mean of those two rounded down.
pub proof fn lemma_copy_and_average_predictors(a: u8, b: u8, c: u8, d: u8, ll: u8, uu: u8)
    ensures
        predict_spec(F_NONE, a, b, c, d, ll, uu) == 0,
        predict_spec(F_SUB, a, b, c, d, ll, uu) == a,
        predict_spec(F_UP, a, b, c, d, ll, uu) == b,
        is_floor_div(predict_spec(F_AVERAGE, a, b, c, d, ll, uu) as int, a + b, 2),
{
}

/// Gradient predicts `a + b - c` wrapped into a byte: the one value of
/// `a + b - c`, `a + b - c + 256` and `a + b - c - 256` that is a byte.
pub proof fn lemma_gradient_wraps(a: u8, b: u8, c: u8, d: u8, ll: u8, uu: u8)
    ensures ({
        let r = predict_spec(F_GRADIENT, a, b, c, d, ll, uu) as int;
        let e = a + b - c;
        r == e || r == e + 256 || r == e - 256
    }),
{
}

/// MED (the JPEG-LS median edge detector): when the upper-left byte is at
/// or above both the left and the upper byte it predicts the smaller of the
/// two, when it is at or below both the larger, and otherwise the plane
/// estimate `a + b - c`, which then lies between them.
pub proof fn lemma_med_edges(a: u8, b: u8, c: u8, d: u8, ll: u8, uu: u8)
    ensures ({
        let r = predict_spec(F_MED, a, b, c, d, ll, uu);
        &&& c >= a && c >= b ==> (r == a || r == b) && r <= a && r <= b
        &&& c <= a && c <= b ==> (r == a || r == b) && r >= a && r >= b
        &&& !(c >= a && c >= b) && !(c <= a && c <= b) ==> r == a + b - c
    }),
{
}

/// The simple median predicts the median of the left, upper and
/// upper-left bytes: one of the three, at least as large as the smaller and
/// at most as large as the larger of every pair of them.
pub proof fn lemma_simple_median_is_median(a: u8, b: u8, c: u8, d: u8, ll: u8, uu: u8)
    ensures ({
        let r = predict_spec(F_SMEDIAN, a, b, c, d, ll, uu);
        &&& r == a || r == b || r == c
        &&& (r >= a || r >= b) && (r <= a || r <= b)
        &&& (r >= b || r >= c) && (r <= b || r <= c)
        &&& (r >= a || r >= c) && (r <= a || r <= c)
    }),
{
}

/// The second-order predictor extrapolates `s = (2a - ll) + (2b - uu)` and
/// predicts half of it, rounded down and clamped to a byte.
pub proof fn lemma_second_order_clamps(a: u8, b: u8, c: u8, d: u8, ll: u8, uu: u8)
    ensures ({
        let r = predict_spec(F_2NDORDER, a, b, c, d, ll, uu) as int;
        let s = (2 * a - ll) + (2 * b - uu);
        &&& s < 0 ==> r == 0
        &&& 0 <= s < 512 ==> is_floor_div(r, s, 2)
        &&& s >= 512 ==> r == 255
    }),
{
    let s: int = (2 * a - ll) + (2 * b - uu);
    if s >= 0 {
        vstd::arithmetic::div_mod::lemma_fundamental_div_mod(s, 2);
    }
}

/// The four-way predictors take weighted means rounded down: horizontal
/// `(3a + b) / 4`, vertical `(a + 3b) / 4`, first diagonal `(a + b + 2c) / 4`
/// and second diagonal `(2a + 2b + c) / 5`.
pub proof fn lemma_four_way_means(a: u8, b: u8, c: u8, d: u8, ll: u8, uu: u8)
    ensures
        is_floor_div(predict_spec(F_4WAY_H, a, b, c, d, ll, uu) as int, 3 * a + b, 4),
        is_floor_div(predict_spec(F_4WAY_V, a, b, c, d, ll, uu) as int, a + 3 * b, 4),
        is_floor_div(predict_spec(F_4WAY_D1, a, b, c, d, ll, uu) as int, a + b + 2 * c, 4),
        is_floor_div(predict_spec(F_4WAY_D2, a, b, c, d, ll, uu) as int, 2 * a + 2 * b + c, 5),
{
    vstd::arithmetic::div_mod::lemma_fundamental_div_mod(3 * a + b, 4);
    vstd::arithmetic::div_mod::lemma_fundamental_div_mod(a + 3 * b, 4);
    vstd::arithmetic::div_mod::lemma_fundamental_div_mod(a + b + 2 * c, 4);
    vstd::arithmetic::div_mod::lemma_fundamental_div_mod(2 * a + 2 * b + c, 5);
}

/// The context predictor follows the smoother direction: the left byte
/// when it differs from the upper-left byte by more than the upper byte
/// does, the upper byte in the opposite case, and their mean rounded down
/// on a tie.
pub proof fn lemma_context_follows_edge(a: u8, b: u8, c: u8, d: u8, ll: u8, uu: u8)
    ensures ({
        let r = predict_spec(F_CONTEXT, a, b, c, d, ll, uu);
        let dh: int = if a >= c { a - c } else { c - a };
        let dv: int = if b >= c { b - c } else { c - b };
        &&& dh > dv ==> r == a
        &&& dv > dh ==> r == b
        &&& dh == dv ==> is_floor_div(r as int, a + b, 2)
    }),
{
}

/// The top-right directional predictor averages the mean of the left and
/// upper-left bytes with the mean of the upper and upper-right bytes, each
/// mean rounded down.
pub proof fn lemma_tr_directional_nested_mean(a: u8, b: u8, c: u8, d: u8, ll: u8, uu: u8)
    ensures
        is_floor_div(predict_spec(F_TR_DIRECTIONAL, a, b, c, d, ll, uu) as int, (a + c) / 2 + (b + d) / 2, 2),
{
    vstd::arithmetic::div_mod::lemma_fundamental_div_mod(a + c, 2);
    vstd::arithmetic::div_mod::lemma_fundamental_div_mod(b + d, 2);
    vstd::arithmetic::div_mod::lemma_fundamental_div_mod((a + c) / 2 + (b + d) / 2, 2);
}

proof fn lemma_scaled_between(k: int, x: int, lo: int, hi: int)
    requires k >= 0, lo <= x <= hi,
    ensures k * lo <= k * x <= k * hi,
{
    assert(k * lo <= k * x <= k * hi) by (nonlinear_arith) requires k >= 0, lo <= x <= hi;
}

/// The adaptive weighted predictor gives the weighted mean of its four
/// neighbours rounded to the nearest integer (halves up), which lies
/// between the smallest and the largest neighbour; with every weight zero
/// it predicts zero.
pub proof fn lemma_weighted_mean_rounded(w: Seq<u32>, a: u8, b: u8, c: u8, d: u8)
    requires weights_ok(w),
    ensures ({
        let r = weighted_predict_spec(w, a, b, c, d) as int;
        let s = w[0] + w[1] + w[2] + w[3];
        let acc = w[0] * a + w[1] * b + w[2] * c + w[3] * d;
        let lo = if a <= b && a <= c && a <= d { a } else if b <= c && b <= d { b } else if c <= d { c } else { d };
        let hi = if a >= b && a >= c && a >= d { a } else if b >= c && b >= d { b } else if c >= d { c } else { d };
        &&& s == 0 ==> r == 0
        &&& s > 0 ==> is_floor_div(r, 2 * acc + s, 2 * s)
        &&& s > 0 ==> lo <= r <= hi
    }),
{
    let s: int = w[0] + w[1] + w[2] + w[3];
    let acc: int = w[0] * a + w[1] * b + w[2] * c + w[3] * d;
    let lo: int = if a <= b && a <= c && a <= d { a as int } else if b <= c && b <= d { b as int } else if c <= d { c as int } else { d as int };
    let hi: int = if a >= b && a >= c && a >= d { a as int } else if b >= c && b >= d { b as int } else if c >= d { c as int } else { d as int };
    if s > 0 {
        let (w0, w1, w2, w3) = (w[0] as int, w[1] as int, w[2] as int, w[3] as int);
        lemma_scaled_between(w0, a as int, lo, hi);
        lemma_scaled_between(w1, b as int, lo, hi);
        lemma_scaled_between(w2, c as int, lo, hi);
        lemma_scaled_between(w3, d as int, lo, hi);
        assert(s * lo == w0 * lo + w1 * lo + w2 * lo + w3 * lo && s * hi == w0 * hi + w1 * hi + w2 * hi + w3 * hi)
            by (nonlinear_arith) requires s == w0 + w1 + w2 + w3;
        let h = s / 2;
        vstd::arithmetic::div_mod::lemma_fundamental_div_mod(s, 2);
        let q = (acc + h) / s;
        vstd::arithmetic::div_mod::lemma_fundamental_div_mod(acc + h, s);
        assert(s * q <= acc + h < s * q + s);
        assert(is_floor_div(q, 2 * acc + s, 2 * s)) by (nonlinear_arith)
            requires s > 0, s * q <= acc + h < s * q + s, s == 2 * h || s == 2 * h + 1;
        assert(lo <= q <= hi) by (nonlinear_arith)
            requires s > 0, s * lo <= acc <= s * hi, s * q <= acc + h < s * q + s, 0 <= h < s;
        assert(q <= 255);
    }
}

/// The smallest of four values.
pub open spec fn min4(x: int, y: int, z: int, t: int) -> int {
    if x <= y && x <= z && x <= t { x } else if y <= z && y <= t { y } else if z <= t { z } else { t }
}

/// The largest of four values.
pub open spec fn max4(x: int, y: int, z: int, t: int) -> int {
    if x >= y && x >= z && x >= t { x } else if y >= z && y >= t { y } else if z >= t { z } else { t }
}

/// A weight raised by one unit, capped at 64.
pub open spec fn raised(w: u32) -> int {
    if w + 1 > 64 { 64 } else { w + 1 }
}

/// A weight lowered by one unit, down to zero.
pub open spec fn lowered(w: u32) -> int {
    if w > 0 { w - 1 } else { 0 }
}

/// After each byte the weighted predictor rewards its nearest neighbours:
/// a neighbour whose error is the smallest gains a unit of weight (capped
/// at 64), and one whose error is the largest, when the errors are not all
/// equal, loses a unit (down to zero).
pub proof fn lemma_weighted_rewards_nearest(w: Seq<u32>, a: u8, b: u8, c: u8, d: u8, actual: u8)
    requires weights_ok(w),
    ensures ({
        let (e0, e1, e2, e3) = (abs_diff(actual, a), abs_diff(actual, b), abs_diff(actual, c), abs_diff(actual, d));
        let m = min4(e0, e1, e2, e3);
        let mx = max4(e0, e1, e2, e3);
        let w2 = weighted_update_spec(w, a, b, c, d, actual);
        &&& e0 == m ==> w2[0] == raised(w[0])
        &&& e1 == m ==> w2[1] == raised(w[1])
        &&& e2 == m ==> w2[2] == raised(w[2])
        &&& e3 == m ==> w2[3] == raised(w[3])
        &&& e0 == mx && mx > m ==> w2[0] == lowered(w[0])
        &&& e1 == mx && mx > m ==> w2[1] == lowered(w[1])
        &&& e2 == mx && mx > m ==> w2[2] == lowered(w[2])
        &&& e3 == mx && mx > m ==> w2[3] == lowered(w[3])
    }),
{
    let (e0, e1, e2, e3) = (abs_diff(actual, a), abs_diff(actual, b), abs_diff(actual, c), abs_diff(actual, d));
    let t: int = e0 + e1 + e2 + e3;
    vstd::arithmetic::div_mod::lemma_fundamental_div_mod(t, 4);
    let m = min4(e0, e1, e2, e3);
    let mx = max4(e0, e1, e2, e3);
    assert(m <= t / 4);
    assert(mx > m ==> mx > t / 4);
}
} // verus!
