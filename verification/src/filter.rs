//! Predictive filters: the sixteen predictors (codes 0-15), per-row and
//! per-block application, and their reversal.
//!
//! Every predictor sees the left (`a`), up (`b`), upper-left (`c`) and
//! upper-right (`d`) neighbours, plus the byte two pixels to the left (`ll`)
//! and the byte two rows up (`uu`); a missing neighbour reads as zero.
//! `F_WEIGHTED` (15) carries an adaptive state across the bytes of a block and
//! is handled by its own row functions.

use vstd::prelude::*;
use crate::constants::{
    F_2NDORDER, F_4WAY_D1, F_4WAY_D2, F_4WAY_H, F_4WAY_V, F_AVERAGE, F_CONTEXT, F_GRADIENT, F_MED,
    F_NONE, F_PAETH, F_SMEDIAN, F_SUB, F_TR_DIRECTIONAL, F_UP, F_WEIGHTED, NUM_FILTERS,
};
use crate::error::CafeError;
use crate::codec::{compress_with_fallback, compress_with_fallback_spec};

verus! {

// ---------------------------------------------------------------------------
// Byte arithmetic
// ---------------------------------------------------------------------------

/// Addition modulo 256.
pub open spec fn add8(x: u8, y: u8) -> u8 {
    if x + y > 255 { (x + y - 256) as u8 } else { (x + y) as u8 }
}

/// Subtraction modulo 256.
pub open spec fn sub8(x: u8, y: u8) -> u8 {
    if x - y < 0 { (x - y + 256) as u8 } else { (x - y) as u8 }
}

pub open spec fn abs_int(i: int) -> int {
    if i < 0 { -i } else { i }
}

pub open spec fn min_u8(x: u8, y: u8) -> u8 {
    if x <= y { x } else { y }
}

pub open spec fn max_u8(x: u8, y: u8) -> u8 {
    if x >= y { x } else { y }
}

// ---------------------------------------------------------------------------
// Predictor formulas
// ---------------------------------------------------------------------------

pub open spec fn paeth_spec(a: u8, b: u8, c: u8) -> u8 {
    let p = a + b - c;
    let pa = abs_int(p - a);
    let pb = abs_int(p - b);
    let pc = abs_int(p - c);
    if pa <= pb && pa <= pc { a } else if pb <= pc { b } else { c }
}

pub open spec fn med_spec(a: u8, b: u8, c: u8) -> u8 {
    if c >= max_u8(a, b) {
        min_u8(a, b)
    } else if c <= min_u8(a, b) {
        max_u8(a, b)
    } else {
        sub8(add8(a, b), c)
    }
}

pub open spec fn gradient_spec(a: u8, b: u8, c: u8) -> u8 {
    sub8(add8(a, b), c)
}

/// The median of three values.
pub open spec fn median3_spec(a: u8, b: u8, c: u8) -> u8 {
    max_u8(min_u8(a, b), min_u8(max_u8(a, b), c))
}

pub open spec fn four_way_h_spec(a: u8, b: u8) -> u8 {
    ((3 * a + b) / 4) as u8
}

pub open spec fn four_way_v_spec(a: u8, b: u8) -> u8 {
    ((a + 3 * b) / 4) as u8
}

pub open spec fn four_way_d1_spec(a: u8, b: u8, c: u8) -> u8 {
    ((a + b + 2 * c) / 4) as u8
}

pub open spec fn four_way_d2_spec(a: u8, b: u8, c: u8) -> u8 {
    ((2 * a + 2 * b + c) / 5) as u8
}

pub open spec fn context_spec(a: u8, b: u8, c: u8) -> u8 {
    let dh = abs_int(a - c);
    let dv = abs_int(b - c);
    if dh > dv { a } else if dv > dh { b } else { ((a + b) / 2) as u8 }
}

/// Linear extrapolation by second-order differences, clamped to `0..=255`.
pub open spec fn second_order_spec(a: u8, b: u8, ll: u8, uu: u8) -> u8 {
    let s = 2 * a - ll + 2 * b - uu;
    if s < 0 { 0 } else if s / 2 > 255 { 255 } else { (s / 2) as u8 }
}

pub open spec fn average2_spec(a: u8, b: u8) -> u8 {
    ((a + b) / 2) as u8
}

pub open spec fn tr_directional_spec(a: u8, b: u8, c: u8, d: u8) -> u8 {
    average2_spec(average2_spec(a, c), average2_spec(b, d))
}

/// The prediction of every stateless filter code; unknown codes (and
/// `F_WEIGHTED`, which has its own path) predict zero.
pub open spec fn predict_spec(ftype: u8, a: u8, b: u8, c: u8, d: u8, ll: u8, uu: u8) -> u8 {
    if ftype == F_NONE { 0 }
    else if ftype == F_SUB { a }
    else if ftype == F_UP { b }
    else if ftype == F_AVERAGE { average2_spec(a, b) }
    else if ftype == F_PAETH { paeth_spec(a, b, c) }
    else if ftype == F_MED { med_spec(a, b, c) }
    else if ftype == F_GRADIENT { gradient_spec(a, b, c) }
    else if ftype == F_SMEDIAN { median3_spec(a, b, c) }
    else if ftype == F_2NDORDER { second_order_spec(a, b, ll, uu) }
    else if ftype == F_4WAY_H { four_way_h_spec(a, b) }
    else if ftype == F_4WAY_V { four_way_v_spec(a, b) }
    else if ftype == F_4WAY_D1 { four_way_d1_spec(a, b, c) }
    else if ftype == F_4WAY_D2 { four_way_d2_spec(a, b, c) }
    else if ftype == F_CONTEXT { context_spec(a, b, c) }
    else if ftype == F_TR_DIRECTIONAL { tr_directional_spec(a, b, c, d) }
    else { 0 }
}

/// Paeth predictor.
pub fn paeth_predictor(a: u8, b: u8, c: u8) -> (r: u8)
    ensures r == paeth_spec(a, b, c),
{
    let (ai, bi, ci) = (a as i32, b as i32, c as i32);
    let p: i32 = ai + bi - ci;
    let pa: i32 = if p - ai < 0 { ai - p } else { p - ai };
    let pb: i32 = if p - bi < 0 { bi - p } else { p - bi };
    let pc: i32 = if p - ci < 0 { ci - p } else { p - ci };
    if pa <= pb && pa <= pc {
        a
    } else if pb <= pc {
        b
    } else {
        c
    }
}

/// MED (median edge detector), as in JPEG-LS.
pub fn med_predictor(a: u8, b: u8, c: u8) -> (r: u8)
    ensures r == med_spec(a, b, c),
{
    let mx = if a >= b { a } else { b };
    let mn = if a <= b { a } else { b };
    if c >= mx {
        mn
    } else if c <= mn {
        mx
    } else {
        a.wrapping_add(b).wrapping_sub(c)
    }
}

/// Gradient (plane) predictor `a + b - c`, modulo 256.
pub fn gradient_predictor(a: u8, b: u8, c: u8) -> (r: u8)
    ensures r == gradient_spec(a, b, c),
{
    a.wrapping_add(b).wrapping_sub(c)
}

/// Median of the left, up and upper-left neighbours.
pub fn simple_median_predictor(a: u8, b: u8, c: u8) -> (r: u8)
    ensures r == median3_spec(a, b, c),
{
    let lo = if a <= b { a } else { b };
    let hi = if a >= b { a } else { b };
    let m = if hi <= c { hi } else { c };
    if lo >= m { lo } else { m }
}

/// Horizontal emphasis: `(3a + b) / 4`.
pub fn four_way_horizontal_predictor(a: u8, b: u8, c: u8) -> (r: u8)
    ensures r == four_way_h_spec(a, b),
{
    ((a as u16 * 3 + b as u16) / 4) as u8
}

/// Vertical emphasis: `(a + 3b) / 4`.
pub fn four_way_vertical_predictor(a: u8, b: u8, c: u8) -> (r: u8)
    ensures r == four_way_v_spec(a, b),
{
    ((a as u16 + b as u16 * 3) / 4) as u8
}

/// Diagonal `\` emphasis: `(a + b + 2c) / 4`.
pub fn four_way_diagonal1_predictor(a: u8, b: u8, c: u8) -> (r: u8)
    ensures r == four_way_d1_spec(a, b, c),
{
    ((a as u16 + b as u16 + c as u16 * 2) / 4) as u8
}

/// Diagonal `/` emphasis: `(2a + 2b + c) / 5`.
pub fn four_way_diagonal2_predictor(a: u8, b: u8, c: u8) -> (r: u8)
    ensures r == four_way_d2_spec(a, b, c),
{
    ((a as u16 * 2 + b as u16 * 2 + c as u16) / 5) as u8
}

/// Context-based: left on a vertical edge, up on a horizontal edge, the
/// average otherwise.
pub fn context_based_predictor(a: u8, b: u8, c: u8) -> (r: u8)
    ensures r == context_spec(a, b, c),
{
    let dh: i16 = if a >= c { a as i16 - c as i16 } else { c as i16 - a as i16 };
    let dv: i16 = if b >= c { b as i16 - c as i16 } else { c as i16 - b as i16 };
    if dh > dv {
        a
    } else if dv > dh {
        b
    } else {
        ((a as u16 + b as u16) / 2) as u8
    }
}

/// Second-order extrapolation `((2a - ll) + (2b - uu)) / 2`, clamped.
pub fn second_order_predictor(a: u8, b: u8, ll: u8, uu: u8) -> (r: u8)
    ensures r == second_order_spec(a, b, ll, uu),
{
    let s: i32 = 2 * (a as i32) - (ll as i32) + 2 * (b as i32) - (uu as i32);
    if s < 0 {
        0
    } else if s / 2 > 255 {
        255
    } else {
        (s / 2) as u8
    }
}

/// Truncated average of two bytes.
pub fn average2(a: u8, b: u8) -> (r: u8)
    ensures r == average2_spec(a, b),
{
    let s: u16 = a as u16 + b as u16;
    assert(s >> 1 == s / 2) by (bit_vector);
    (s >> 1) as u8
}

/// Bilinear average of the left, upper-left, up and upper-right neighbours.
pub fn tr_directional_predictor(a: u8, b: u8, c: u8, d: u8) -> (r: u8)
    ensures r == tr_directional_spec(a, b, c, d),
{
    average2(average2(a, c), average2(b, d))
}

/// Prediction of a stateless filter code.
pub fn predict(ftype: u8, a: u8, b: u8, c: u8, d: u8, ll: u8, uu: u8) -> (r: u8)
    ensures r == predict_spec(ftype, a, b, c, d, ll, uu),
{
    if ftype == F_NONE { 0 }
    else if ftype == F_SUB { a }
    else if ftype == F_UP { b }
    else if ftype == F_AVERAGE { ((a as u16 + b as u16) / 2) as u8 }
    else if ftype == F_PAETH { paeth_predictor(a, b, c) }
    else if ftype == F_MED { med_predictor(a, b, c) }
    else if ftype == F_GRADIENT { gradient_predictor(a, b, c) }
    else if ftype == F_SMEDIAN { simple_median_predictor(a, b, c) }
    else if ftype == F_2NDORDER { second_order_predictor(a, b, ll, uu) }
    else if ftype == F_4WAY_H { four_way_horizontal_predictor(a, b, c) }
    else if ftype == F_4WAY_V { four_way_vertical_predictor(a, b, c) }
    else if ftype == F_4WAY_D1 { four_way_diagonal1_predictor(a, b, c) }
    else if ftype == F_4WAY_D2 { four_way_diagonal2_predictor(a, b, c) }
    else if ftype == F_CONTEXT { context_based_predictor(a, b, c) }
    else if ftype == F_TR_DIRECTIONAL { tr_directional_predictor(a, b, c, d) }
    else { 0 }
}


// ---------------------------------------------------------------------------
// Neighbourhood of a byte
// ---------------------------------------------------------------------------

/// `s[i]` when `i` lies inside `s`, zero otherwise.
pub open spec fn byte_at(s: Seq<u8>, i: int) -> u8 {
    if 0 <= i < s.len() { s[i] } else { 0 }
}

/// The row above, if any, as a sequence.
pub open spec fn opt_view(row: Option<&[u8]>) -> Option<Seq<u8>> {
    match row {
        Some(r) => Some(r@),
        None => None,
    }
}

/// `row[x]` of an optional row (zero when there is no row).
pub open spec fn opt_at(row: Option<Seq<u8>>, x: int) -> u8 {
    match row {
        Some(r) => byte_at(r, x),
        None => 0,
    }
}

/// An optional row is at least `len` bytes long.
pub open spec fn opt_len_ok(row: Option<Seq<u8>>, len: int) -> bool {
    match row {
        Some(r) => r.len() >= len,
        None => true,
    }
}

pub open spec fn nb_a(cur: Seq<u8>, x: int, bpp: int) -> u8 {
    if x >= bpp { byte_at(cur, x - bpp) } else { 0 }
}

pub open spec fn nb_c(prev: Option<Seq<u8>>, x: int, bpp: int) -> u8 {
    if x >= bpp { opt_at(prev, x - bpp) } else { 0 }
}

pub open spec fn nb_d(prev: Option<Seq<u8>>, x: int, bpp: int, len: int) -> u8 {
    if x + bpp < len { opt_at(prev, x + bpp) } else { 0 }
}

pub open spec fn nb_ll(cur: Seq<u8>, x: int, bpp: int) -> u8 {
    if x >= 2 * bpp { byte_at(cur, x - 2 * bpp) } else { 0 }
}

/// Prediction at position `x` of a row of `len` bytes. `cur` holds the bytes
/// of the row that are already known (all of it when filtering, the
/// reconstructed prefix when reversing).
pub open spec fn pred_at(
    cur: Seq<u8>,
    len: int,
    prev: Option<Seq<u8>>,
    pprev: Option<Seq<u8>>,
    ftype: u8,
    bpp: int,
    x: int,
) -> u8 {
    predict_spec(
        ftype,
        nb_a(cur, x, bpp),
        opt_at(prev, x),
        nb_c(prev, x, bpp),
        nb_d(prev, x, bpp, len),
        nb_ll(cur, x, bpp),
        opt_at(pprev, x),
    )
}

/// Residuals of a row under a stateless filter.
pub open spec fn filter_row_spec(
    row: Seq<u8>,
    prev: Option<Seq<u8>>,
    pprev: Option<Seq<u8>>,
    ftype: u8,
    bpp: int,
) -> Seq<u8> {
    Seq::new(row.len(), |x: int| sub8(row[x], pred_at(row, row.len() as int, prev, pprev, ftype, bpp, x)))
}

/// The first `n` bytes a reversal reconstructs from `filtered`.
pub open spec fn unfilter_prefix(
    filtered: Seq<u8>,
    prev: Option<Seq<u8>>,
    pprev: Option<Seq<u8>>,
    ftype: u8,
    bpp: int,
    n: nat,
) -> Seq<u8>
    decreases n,
{
    if n == 0 {
        Seq::empty()
    } else {
        let p = unfilter_prefix(filtered, prev, pprev, ftype, bpp, (n - 1) as nat);
        p.push(add8(filtered[n - 1], pred_at(p, filtered.len() as int, prev, pprev, ftype, bpp, n - 1)))
    }
}

/// A row reconstructed from its residuals under a stateless filter.
pub open spec fn unfilter_row_spec(
    filtered: Seq<u8>,
    prev: Option<Seq<u8>>,
    pprev: Option<Seq<u8>>,
    ftype: u8,
    bpp: int,
) -> Seq<u8> {
    unfilter_prefix(filtered, prev, pprev, ftype, bpp, filtered.len())
}

pub proof fn lemma_unfilter_prefix_len(
    filtered: Seq<u8>,
    prev: Option<Seq<u8>>,
    pprev: Option<Seq<u8>>,
    ftype: u8,
    bpp: int,
    n: nat,
)
    ensures unfilter_prefix(filtered, prev, pprev, ftype, bpp, n).len() == n,
    decreases n,
{
    if n > 0 {
        lemma_unfilter_prefix_len(filtered, prev, pprev, ftype, bpp, (n - 1) as nat);
    }
}

/// The prediction at `x` only reads bytes of the current row before `x`.
pub proof fn lemma_pred_at_prefix(
    cur1: Seq<u8>,
    cur2: Seq<u8>,
    len: int,
    prev: Option<Seq<u8>>,
    pprev: Option<Seq<u8>>,
    ftype: u8,
    bpp: int,
    x: int,
)
    requires
        bpp >= 1,
        0 <= x <= cur1.len(),
        x <= cur2.len(),
        cur1.take(x) == cur2.take(x),
    ensures
        pred_at(cur1, len, prev, pprev, ftype, bpp, x) == pred_at(cur2, len, prev, pprev, ftype, bpp, x),
{
    if x >= bpp {
        assert(cur1[x - bpp] == cur1.take(x)[x - bpp]);
        assert(cur2[x - bpp] == cur2.take(x)[x - bpp]);
    }
    if x >= 2 * bpp {
        assert(cur1[x - 2 * bpp] == cur1.take(x)[x - 2 * bpp]);
        assert(cur2[x - 2 * bpp] == cur2.take(x)[x - 2 * bpp]);
    }
}

/// Reversing a stateless filter gives back the row it was applied to.
pub proof fn lemma_unfilter_filter_row(
    row: Seq<u8>,
    prev: Option<Seq<u8>>,
    pprev: Option<Seq<u8>>,
    ftype: u8,
    bpp: int,
    n: nat,
)
    requires
        bpp >= 1,
        n <= row.len(),
    ensures
        unfilter_prefix(filter_row_spec(row, prev, pprev, ftype, bpp), prev, pprev, ftype, bpp, n)
            == row.take(n as int),
    decreases n,
{
    let f = filter_row_spec(row, prev, pprev, ftype, bpp);
    if n > 0 {
        lemma_unfilter_filter_row(row, prev, pprev, ftype, bpp, (n - 1) as nat);
        let p = unfilter_prefix(f, prev, pprev, ftype, bpp, (n - 1) as nat);
        assert(p == row.take(n - 1));
        assert(p.take(n - 1) =~= row.take(n - 1));
        lemma_pred_at_prefix(p, row, row.len() as int, prev, pprev, ftype, bpp, n - 1);
        assert(p.take(n - 1) == p);
        assert(unfilter_prefix(f, prev, pprev, ftype, bpp, n) =~= row.take(n as int));
    }
}

/// Applies a stateless filter to a row, producing its residuals. `prev_row`
/// is the row above, `prev_prev_row` the row two above (`F_2NDORDER` only).
pub fn filter_row(
    row: &[u8],
    prev_row: Option<&[u8]>,
    prev_prev_row: Option<&[u8]>,
    ftype: u8,
    bpp: usize,
) -> (out: Vec<u8>)
    requires
        opt_len_ok(opt_view(prev_row), row@.len() as int),
        opt_len_ok(opt_view(prev_prev_row), row@.len() as int),
        row@.len() + 2 * bpp <= usize::MAX,
    ensures
        out@ == filter_row_spec(row@, opt_view(prev_row), opt_view(prev_prev_row), ftype, bpp as int),
{
    let len = row.len();
    let mut out: Vec<u8> = vec![0u8; len];
    let ghost spec = filter_row_spec(row@, opt_view(prev_row), opt_view(prev_prev_row), ftype, bpp as int);
    let mut x: usize = 0;
    while x < len
        invariant
            len == row@.len(),
            out@.len() == len,
            x <= len,
            len + 2 * bpp <= usize::MAX,
            opt_len_ok(opt_view(prev_row), len as int),
            opt_len_ok(opt_view(prev_prev_row), len as int),
            spec == filter_row_spec(row@, opt_view(prev_row), opt_view(prev_prev_row), ftype, bpp as int),
            forall|i: int| 0 <= i < x ==> out@[i] == spec[i],
        decreases len - x,
    {
        let a = if x >= bpp { row[x - bpp] } else { 0 };
        let b = match prev_row { Some(p) => p[x], None => 0 };
        let c = if x >= bpp { match prev_row { Some(p) => p[x - bpp], None => 0 } } else { 0 };
        let d = if x + bpp < len { match prev_row { Some(p) => p[x + bpp], None => 0 } } else { 0 };
        let ll = if x >= 2 * bpp { row[x - 2 * bpp] } else { 0 };
        let uu = match prev_prev_row { Some(p) => p[x], None => 0 };
        let pred = predict(ftype, a, b, c, d, ll, uu);
        out.set(x, row[x].wrapping_sub(pred));
        x += 1;
    }
    assert(out@ =~= spec);
    out
}

/// Reverses a stateless filter, reconstructing a row from its residuals.
pub fn unfilter_row(
    filtered: &[u8],
    prev_row: Option<&[u8]>,
    prev_prev_row: Option<&[u8]>,
    ftype: u8,
    bpp: usize,
) -> (out: Vec<u8>)
    requires
        opt_len_ok(opt_view(prev_row), filtered@.len() as int),
        opt_len_ok(opt_view(prev_prev_row), filtered@.len() as int),
        filtered@.len() + 2 * bpp <= usize::MAX,
    ensures
        out@ == unfilter_row_spec(filtered@, opt_view(prev_row), opt_view(prev_prev_row), ftype, bpp as int),
{
    let len = filtered.len();
    let mut out: Vec<u8> = vec![0u8; len];
    let ghost pv = opt_view(prev_row);
    let ghost ppv = opt_view(prev_prev_row);
    let mut x: usize = 0;
    while x < len
        invariant
            len == filtered@.len(),
            out@.len() == len,
            x <= len,
            len + 2 * bpp <= usize::MAX,
            pv == opt_view(prev_row),
            ppv == opt_view(prev_prev_row),
            opt_len_ok(pv, len as int),
            opt_len_ok(ppv, len as int),
            out@.take(x as int) == unfilter_prefix(filtered@, pv, ppv, ftype, bpp as int, x as nat),
            forall|i: int| x <= i < len ==> out@[i] == 0,
        decreases len - x,
    {
        let ghost p = out@.take(x as int);
        proof {
            lemma_unfilter_prefix_len(filtered@, pv, ppv, ftype, bpp as int, x as nat);
        }
        let a = if x >= bpp { out[x - bpp] } else { 0 };
        let b = match prev_row { Some(p) => p[x], None => 0 };
        let c = if x >= bpp { match prev_row { Some(p) => p[x - bpp], None => 0 } } else { 0 };
        let d = if x + bpp < len { match prev_row { Some(p) => p[x + bpp], None => 0 } } else { 0 };
        let ll = if x >= 2 * bpp { out[x - 2 * bpp] } else { 0 };
        let uu = match prev_prev_row { Some(p) => p[x], None => 0 };
        assert(a == nb_a(p, x as int, bpp as int));
        assert(ll == nb_ll(p, x as int, bpp as int));
        let pred = predict(ftype, a, b, c, d, ll, uu);
        out.set(x, filtered[x].wrapping_add(pred));
        assert(out@.take(x + 1) =~= p.push(add8(filtered@[x as int], pred)));
        x += 1;
    }
    assert(out@.take(len as int) =~= out@);
    out
}


// ---------------------------------------------------------------------------
// F_WEIGHTED: adaptive weighted predictor
// ---------------------------------------------------------------------------

/// Cap of each weight.
pub const WEIGHTED_WEIGHT_MAX: u32 = 64;
/// Initial weight of every neighbour (a plain average of the four).
pub const WEIGHTED_INIT_WEIGHT: u32 = 8;

/// Adaptive state of `F_WEIGHTED`: one weight per neighbour, in the order
/// left, up, upper-left, upper-right. Reset per block, carried across rows.
#[derive(Clone, Copy)]
pub struct WeightedState {
    pub weight: [u32; 4],
}

impl Default for WeightedState {
    fn default() -> (s: Self)
        ensures s.weight@ == weighted_init_spec(),
    {
        let s = WeightedState { weight: [WEIGHTED_INIT_WEIGHT; 4] };
        assert(s.weight@ =~= weighted_init_spec());
        s
    }
}

pub open spec fn weighted_init_spec() -> Seq<u32> {
    seq![WEIGHTED_INIT_WEIGHT, WEIGHTED_INIT_WEIGHT, WEIGHTED_INIT_WEIGHT, WEIGHTED_INIT_WEIGHT]
}

/// Four weights, none above the cap.
pub open spec fn weights_ok(w: Seq<u32>) -> bool {
    w.len() == 4 && forall|i: int| 0 <= i < 4 ==> w[i] <= WEIGHTED_WEIGHT_MAX
}

/// Weighted average of the four neighbours, rounded, normalised by the sum
/// of the weights (zero when every weight is zero).
pub open spec fn weighted_predict_spec(w: Seq<u32>, a: u8, b: u8, c: u8, d: u8) -> u8 {
    let sum = w[0] + w[1] + w[2] + w[3];
    if sum == 0 {
        0
    } else {
        let acc = w[0] * a + w[1] * b + w[2] * c + w[3] * d;
        let pred = (acc + sum / 2) / sum;
        if pred > 255 { 255 } else { pred as u8 }
    }
}

pub open spec fn abs_diff(x: u8, y: u8) -> int {
    if x >= y { x - y } else { y - x }
}

/// One weight after an update: rewarded (up to the cap) when its neighbour's
/// error is at most the average error, penalised (down to zero) otherwise.
pub open spec fn weight_step(w: u32, e: int, avg: int) -> u32 {
    if e <= avg {
        if w + 1 > WEIGHTED_WEIGHT_MAX { WEIGHTED_WEIGHT_MAX } else { (w + 1) as u32 }
    } else if w > 0 {
        (w - 1) as u32
    } else {
        w
    }
}

/// The weights after learning that the byte was `actual`.
pub open spec fn weighted_update_spec(w: Seq<u32>, a: u8, b: u8, c: u8, d: u8, actual: u8) -> Seq<u32> {
    let e0 = abs_diff(actual, a);
    let e1 = abs_diff(actual, b);
    let e2 = abs_diff(actual, c);
    let e3 = abs_diff(actual, d);
    let avg = (e0 + e1 + e2 + e3) / 4;
    seq![weight_step(w[0], e0, avg), weight_step(w[1], e1, avg), weight_step(w[2], e2, avg), weight_step(w[3], e3, avg)]
}

pub proof fn lemma_weighted_update_ok(w: Seq<u32>, a: u8, b: u8, c: u8, d: u8, actual: u8)
    requires weights_ok(w),
    ensures weights_ok(weighted_update_spec(w, a, b, c, d, actual)),
{
}

/// Predicts the current byte from the weighted average of its neighbours.
pub fn weighted_predict(state: &WeightedState, a: u8, b: u8, c: u8, d: u8) -> (r: u8)
    requires weights_ok(state.weight@),
    ensures r == weighted_predict_spec(state.weight@, a, b, c, d),
{
    let w0 = state.weight[0];
    let w1 = state.weight[1];
    let w2 = state.weight[2];
    let w3 = state.weight[3];
    let sum_w = w0 + w1 + w2 + w3;
    if sum_w == 0 {
        return 0;
    }
    assert(w0 * (a as u32) <= 64 * 255) by (nonlinear_arith) requires w0 <= 64, a <= 255;
    assert(w1 * (b as u32) <= 64 * 255) by (nonlinear_arith) requires w1 <= 64, b <= 255;
    assert(w2 * (c as u32) <= 64 * 255) by (nonlinear_arith) requires w2 <= 64, c <= 255;
    assert(w3 * (d as u32) <= 64 * 255) by (nonlinear_arith) requires w3 <= 64, d <= 255;
    let acc = w0 * a as u32 + w1 * b as u32 + w2 * c as u32 + w3 * d as u32;
    let pred = (acc + sum_w / 2) / sum_w;
    if pred > 255 { 255 } else { pred as u8 }
}

fn weight_step_exec(w: u32, e: u32, avg: u32) -> (r: u32)
    requires w <= WEIGHTED_WEIGHT_MAX,
    ensures r == weight_step(w, e as int, avg as int),
{
    if e <= avg {
        if w + 1 > WEIGHTED_WEIGHT_MAX { WEIGHTED_WEIGHT_MAX } else { w + 1 }
    } else if w > 0 {
        w - 1
    } else {
        w
    }
}

fn abs_diff_exec(x: u8, y: u8) -> (r: u32)
    ensures r == abs_diff(x, y),
{
    if x >= y { (x - y) as u32 } else { (y - x) as u32 }
}

/// Updates the state once the actual byte is known; run identically by the
/// encoder and the decoder.
pub fn weighted_update(state: &mut WeightedState, a: u8, b: u8, c: u8, d: u8, actual: u8)
    requires weights_ok(old(state).weight@),
    ensures final(state).weight@ == weighted_update_spec(old(state).weight@, a, b, c, d, actual),
{
    let e0 = abs_diff_exec(actual, a);
    let e1 = abs_diff_exec(actual, b);
    let e2 = abs_diff_exec(actual, c);
    let e3 = abs_diff_exec(actual, d);
    let avg = (e0 + e1 + e2 + e3) / 4;
    let w = state.weight;
    let n0 = weight_step_exec(w[0], e0, avg);
    let n1 = weight_step_exec(w[1], e1, avg);
    let n2 = weight_step_exec(w[2], e2, avg);
    let n3 = weight_step_exec(w[3], e3, avg);
    state.weight = [n0, n1, n2, n3];
    assert(state.weight@ =~= weighted_update_spec(old(state).weight@, a, b, c, d, actual));
}

/// Residuals and final state of `F_WEIGHTED` over the first `n` bytes of a row.
pub open spec fn wfilter_prefix(row: Seq<u8>, prev: Option<Seq<u8>>, bpp: int, st: Seq<u32>, n: nat) -> (Seq<u8>, Seq<u32>)
    decreases n,
{
    if n == 0 {
        (Seq::empty(), st)
    } else {
        let (o, s) = wfilter_prefix(row, prev, bpp, st, (n - 1) as nat);
        let x = n - 1;
        let a = nb_a(row, x, bpp);
        let b = opt_at(prev, x);
        let c = nb_c(prev, x, bpp);
        let d = nb_d(prev, x, bpp, row.len() as int);
        let pred = weighted_predict_spec(s, a, b, c, d);
        (o.push(sub8(row[x], pred)), weighted_update_spec(s, a, b, c, d, row[x]))
    }
}

/// Reconstructed bytes and final state of `F_WEIGHTED` over the first `n`
/// residuals of a row.
pub open spec fn wunfilter_prefix(filtered: Seq<u8>, prev: Option<Seq<u8>>, bpp: int, st: Seq<u32>, n: nat) -> (Seq<u8>, Seq<u32>)
    decreases n,
{
    if n == 0 {
        (Seq::empty(), st)
    } else {
        let (o, s) = wunfilter_prefix(filtered, prev, bpp, st, (n - 1) as nat);
        let x = n - 1;
        let a = nb_a(o, x, bpp);
        let b = opt_at(prev, x);
        let c = nb_c(prev, x, bpp);
        let d = nb_d(prev, x, bpp, filtered.len() as int);
        let pred = weighted_predict_spec(s, a, b, c, d);
        let actual = add8(filtered[x], pred);
        (o.push(actual), weighted_update_spec(s, a, b, c, d, actual))
    }
}

pub proof fn lemma_wfilter_prefix(row: Seq<u8>, prev: Option<Seq<u8>>, bpp: int, st: Seq<u32>, n: nat, k: nat)
    requires k <= n,
    ensures
        wfilter_prefix(row, prev, bpp, st, n).0.len() == n,
        wfilter_prefix(row, prev, bpp, st, n).0.take(k as int) == wfilter_prefix(row, prev, bpp, st, k).0,
        weights_ok(st) ==> weights_ok(wfilter_prefix(row, prev, bpp, st, n).1),
    decreases n,
{
    if n > 0 {
        lemma_wfilter_prefix(row, prev, bpp, st, (n - 1) as nat, if k == n { (n - 1) as nat } else { k });
        let (o, s) = wfilter_prefix(row, prev, bpp, st, (n - 1) as nat);
        if weights_ok(st) {
            let x = n - 1;
            lemma_weighted_update_ok(s, nb_a(row, x, bpp), opt_at(prev, x), nb_c(prev, x, bpp), nb_d(prev, x, bpp, row.len() as int), row[x]);
        }
        if k == n {
            assert(wfilter_prefix(row, prev, bpp, st, n).0.take(k as int) =~= wfilter_prefix(row, prev, bpp, st, n).0);
        } else {
            assert(wfilter_prefix(row, prev, bpp, st, n).0.take(k as int) =~= o.take(k as int));
        }
    }
}

pub proof fn lemma_wunfilter_prefix(filtered: Seq<u8>, prev: Option<Seq<u8>>, bpp: int, st: Seq<u32>, n: nat)
    ensures
        wunfilter_prefix(filtered, prev, bpp, st, n).0.len() == n,
        weights_ok(st) ==> weights_ok(wunfilter_prefix(filtered, prev, bpp, st, n).1),
    decreases n,
{
    if n > 0 {
        lemma_wunfilter_prefix(filtered, prev, bpp, st, (n - 1) as nat);
        let (o, s) = wunfilter_prefix(filtered, prev, bpp, st, (n - 1) as nat);
        let x = n - 1;
        if weights_ok(st) {
            let pred = weighted_predict_spec(s, nb_a(o, x, bpp), opt_at(prev, x), nb_c(prev, x, bpp), nb_d(prev, x, bpp, filtered.len() as int));
            lemma_weighted_update_ok(s, nb_a(o, x, bpp), opt_at(prev, x), nb_c(prev, x, bpp), nb_d(prev, x, bpp, filtered.len() as int), add8(filtered[x], pred));
        }
    }
}

/// Reversing `F_WEIGHTED` on a row gives back the row and the same state the
/// encoder reached.
pub proof fn lemma_wunfilter_wfilter(row: Seq<u8>, prev: Option<Seq<u8>>, bpp: int, st: Seq<u32>, n: nat)
    requires
        bpp >= 1,
        n <= row.len(),
    ensures
        wunfilter_prefix(wfilter_prefix(row, prev, bpp, st, row.len()).0, prev, bpp, st, n)
            == (row.take(n as int), wfilter_prefix(row, prev, bpp, st, n).1),
    decreases n,
{
    let f = wfilter_prefix(row, prev, bpp, st, row.len()).0;
    lemma_wfilter_prefix(row, prev, bpp, st, row.len(), n);
    if n > 0 {
        lemma_wunfilter_wfilter(row, prev, bpp, st, (n - 1) as nat);
        lemma_wfilter_prefix(row, prev, bpp, st, n, (n - 1) as nat);
        lemma_wfilter_prefix(row, prev, bpp, st, row.len(), (n - 1) as nat);
        let x = n - 1;
        let (o, s) = wunfilter_prefix(f, prev, bpp, st, (n - 1) as nat);
        assert(o == row.take(x));
        assert(f[x] == wfilter_prefix(row, prev, bpp, st, n).0[x]);
        if x >= bpp {
            assert(o[x - bpp] == row[x - bpp]);
        }
        assert(nb_a(o, x, bpp) == nb_a(row, x, bpp));
        assert(f.len() == row.len());
        assert(wunfilter_prefix(f, prev, bpp, st, n).0 =~= row.take(n as int));
    }
}

/// Applies `F_WEIGHTED` to a row, threading the adaptive state.
pub fn filter_row_weighted(row: &[u8], prev_row: Option<&[u8]>, bpp: usize, state: &mut WeightedState) -> (out: Vec<u8>)
    requires
        opt_len_ok(opt_view(prev_row), row@.len() as int),
        row@.len() + 2 * bpp <= usize::MAX,
        weights_ok(old(state).weight@),
    ensures
        (out@, final(state).weight@) == wfilter_prefix(row@, opt_view(prev_row), bpp as int, old(state).weight@, row@.len()),
        weights_ok(final(state).weight@),
{
    let len = row.len();
    let mut out: Vec<u8> = vec![0u8; len];
    let ghost pv = opt_view(prev_row);
    let ghost st0 = state.weight@;
    proof { lemma_wfilter_prefix(row@, pv, bpp as int, st0, len as nat, 0); }
    let mut x: usize = 0;
    while x < len
        invariant
            len == row@.len(),
            out@.len() == len,
            x <= len,
            len + 2 * bpp <= usize::MAX,
            pv == opt_view(prev_row),
            opt_len_ok(pv, len as int),
            weights_ok(st0),
            weights_ok(state.weight@),
            (out@.take(x as int), state.weight@) == wfilter_prefix(row@, pv, bpp as int, st0, x as nat),
        decreases len - x,
    {
        proof { lemma_wfilter_prefix(row@, pv, bpp as int, st0, (x + 1) as nat, x as nat); }
        let a = if x >= bpp { row[x - bpp] } else { 0 };
        let b = match prev_row { Some(p) => p[x], None => 0 };
        let c = if x >= bpp { match prev_row { Some(p) => p[x - bpp], None => 0 } } else { 0 };
        let d = if x + bpp < len { match prev_row { Some(p) => p[x + bpp], None => 0 } } else { 0 };
        let pred = weighted_predict(state, a, b, c, d);
        let ghost before = out@.take(x as int);
        out.set(x, row[x].wrapping_sub(pred));
        weighted_update(state, a, b, c, d, row[x]);
        assert(out@.take(x + 1) =~= before.push(sub8(row@[x as int], pred)));
        x += 1;
    }
    assert(out@.take(len as int) =~= out@);
    out
}

/// Reverses `F_WEIGHTED` on a row, threading the adaptive state.
pub fn unfilter_row_weighted(filtered: &[u8], prev_row: Option<&[u8]>, bpp: usize, state: &mut WeightedState) -> (out: Vec<u8>)
    requires
        opt_len_ok(opt_view(prev_row), filtered@.len() as int),
        filtered@.len() + 2 * bpp <= usize::MAX,
        weights_ok(old(state).weight@),
    ensures
        (out@, final(state).weight@) == wunfilter_prefix(filtered@, opt_view(prev_row), bpp as int, old(state).weight@, filtered@.len()),
        weights_ok(final(state).weight@),
{
    let len = filtered.len();
    let mut out: Vec<u8> = vec![0u8; len];
    let ghost pv = opt_view(prev_row);
    let ghost st0 = state.weight@;
    let mut x: usize = 0;
    while x < len
        invariant
            len == filtered@.len(),
            out@.len() == len,
            x <= len,
            len + 2 * bpp <= usize::MAX,
            pv == opt_view(prev_row),
            opt_len_ok(pv, len as int),
            weights_ok(st0),
            weights_ok(state.weight@),
            (out@.take(x as int), state.weight@) == wunfilter_prefix(filtered@, pv, bpp as int, st0, x as nat),
            forall|i: int| x <= i < len ==> out@[i] == 0,
        decreases len - x,
    {
        let ghost p = out@.take(x as int);
        proof { lemma_wunfilter_prefix(filtered@, pv, bpp as int, st0, (x + 1) as nat); }
        let a = if x >= bpp { out[x - bpp] } else { 0 };
        let b = match prev_row { Some(p) => p[x], None => 0 };
        let c = if x >= bpp { match prev_row { Some(p) => p[x - bpp], None => 0 } } else { 0 };
        let d = if x + bpp < len { match prev_row { Some(p) => p[x + bpp], None => 0 } } else { 0 };
        assert(a == nb_a(p, x as int, bpp as int));
        let pred = weighted_predict(state, a, b, c, d);
        let actual = filtered[x].wrapping_add(pred);
        out.set(x, actual);
        weighted_update(state, a, b, c, d, actual);
        assert(out@.take(x + 1) =~= p.push(actual));
        x += 1;
    }
    assert(out@.take(len as int) =~= out@);
    out
}


// ---------------------------------------------------------------------------
// Blocks (tiles): one filter code for every row
// ---------------------------------------------------------------------------

/// Row `r` of a block of rows `bpr` bytes long.
pub open spec fn row_seq(t: Seq<u8>, r: int, bpr: int) -> Seq<u8> {
    t.subrange(r * bpr, r * bpr + bpr)
}

/// The row above row `r`, if any.
pub open spec fn prev_of(t: Seq<u8>, r: int, bpr: int) -> Option<Seq<u8>> {
    if r >= 1 { Some(row_seq(t, r - 1, bpr)) } else { None }
}

/// The row two above row `r`, if any.
pub open spec fn pprev_of(t: Seq<u8>, r: int, bpr: int) -> Option<Seq<u8>> {
    if r >= 2 { Some(row_seq(t, r - 2, bpr)) } else { None }
}

/// Residuals of the first `k` rows under a stateless filter; every row sees
/// the original rows above it.
pub open spec fn sblock(t: Seq<u8>, k: nat, bpr: int, bpp: int, f: u8) -> Seq<u8>
    decreases k,
{
    if k == 0 {
        Seq::empty()
    } else {
        sblock(t, (k - 1) as nat, bpr, bpp, f)
            + filter_row_spec(row_seq(t, k - 1, bpr), prev_of(t, k - 1, bpr), pprev_of(t, k - 1, bpr), f, bpp)
    }
}

/// Residuals and state of `F_WEIGHTED` over the first `k` rows.
pub open spec fn wblock(t: Seq<u8>, k: nat, bpr: int, bpp: int) -> (Seq<u8>, Seq<u32>)
    decreases k,
{
    if k == 0 {
        (Seq::empty(), weighted_init_spec())
    } else {
        let (o, s) = wblock(t, (k - 1) as nat, bpr, bpp);
        let (ro, rs) = wfilter_prefix(row_seq(t, k - 1, bpr), prev_of(t, k - 1, bpr), bpp, s, bpr as nat);
        (o + ro, rs)
    }
}

/// The residuals of a whole block of `h` rows under filter `f`.
pub open spec fn filter_block_spec(t: Seq<u8>, h: nat, bpr: int, bpp: int, f: u8) -> Seq<u8> {
    if f == F_WEIGHTED { wblock(t, h, bpr, bpp).0 } else { sblock(t, h, bpr, bpp, f) }
}

/// The first `k` rows reconstructed from residuals `body` under a stateless
/// filter; every row sees the reconstructed rows above it.
pub open spec fn sundo(body: Seq<u8>, k: nat, bpr: int, bpp: int, f: u8) -> Seq<u8>
    decreases k,
{
    if k == 0 {
        Seq::empty()
    } else {
        let o = sundo(body, (k - 1) as nat, bpr, bpp, f);
        o + unfilter_row_spec(row_seq(body, k - 1, bpr), prev_of(o, k - 1, bpr), pprev_of(o, k - 1, bpr), f, bpp)
    }
}

/// The first `k` rows and the state reconstructed under `F_WEIGHTED`.
pub open spec fn wundo(body: Seq<u8>, k: nat, bpr: int, bpp: int) -> (Seq<u8>, Seq<u32>)
    decreases k,
{
    if k == 0 {
        (Seq::empty(), weighted_init_spec())
    } else {
        let (o, s) = wundo(body, (k - 1) as nat, bpr, bpp);
        let (ro, rs) = wunfilter_prefix(row_seq(body, k - 1, bpr), prev_of(o, k - 1, bpr), bpp, s, bpr as nat);
        (o + ro, rs)
    }
}

/// A block of `h` rows reconstructed from residuals `body` under filter `f`.
pub open spec fn undo_block_spec(body: Seq<u8>, h: nat, bpr: int, bpp: int, f: u8) -> Seq<u8> {
    if f == F_WEIGHTED { wundo(body, h, bpr, bpp).0 } else { sundo(body, h, bpr, bpp, f) }
}

pub proof fn lemma_mul_step(k: int, bpr: int)
    requires k >= 1, bpr >= 0,
    ensures (k - 1) * bpr + bpr == k * bpr, (k - 1) * bpr >= 0, (k - 1) * bpr <= k * bpr,
{
    assert((k - 1) * bpr + bpr == k * bpr) by (nonlinear_arith);
    assert((k - 1) * bpr >= 0) by (nonlinear_arith) requires k >= 1, bpr >= 0;
}

pub proof fn lemma_mul_mono(r: int, k: int, bpr: int)
    requires 0 <= r <= k, bpr >= 0,
    ensures r * bpr <= k * bpr, r * bpr >= 0,
{
    assert(r * bpr <= k * bpr) by (nonlinear_arith) requires 0 <= r <= k, bpr >= 0;
    assert(r * bpr >= 0) by (nonlinear_arith) requires 0 <= r, bpr >= 0;
}

/// Rows of a prefix are the rows of the whole.
pub proof fn lemma_row_of_take(t: Seq<u8>, r: int, k: int, bpr: int)
    requires 0 <= r < k, bpr >= 0, k * bpr <= t.len(),
    ensures row_seq(t.take(k * bpr), r, bpr) == row_seq(t, r, bpr),
{
    lemma_mul_mono(r + 1, k, bpr);
    assert((r + 1) * bpr == r * bpr + bpr) by (nonlinear_arith);
    assert(row_seq(t.take(k * bpr), r, bpr) =~= row_seq(t, r, bpr));
}

/// The rows of an appended sequence.
pub proof fn lemma_row_of_append(o: Seq<u8>, ro: Seq<u8>, r: int, k: int, bpr: int)
    requires 0 <= r <= k, bpr >= 0, o.len() == k * bpr, ro.len() == bpr,
    ensures
        r < k ==> row_seq(o + ro, r, bpr) == row_seq(o, r, bpr),
        r == k ==> row_seq(o + ro, r, bpr) == ro,
{
    lemma_mul_mono(r, k, bpr);
    if r < k {
        lemma_mul_mono(r + 1, k, bpr);
        assert((r + 1) * bpr == r * bpr + bpr) by (nonlinear_arith);
        assert(row_seq(o + ro, r, bpr) =~= row_seq(o, r, bpr));
    } else {
        assert(row_seq(o + ro, r, bpr) =~= ro);
    }
}

pub proof fn lemma_sblock(t: Seq<u8>, k: nat, bpr: int, bpp: int, f: u8)
    requires bpr >= 0, k * bpr <= t.len(),
    ensures
        sblock(t, k, bpr, bpp, f).len() == k * bpr,
        forall|r: int| 0 <= r < k ==> #[trigger] row_seq(sblock(t, k, bpr, bpp, f), r, bpr)
            == filter_row_spec(row_seq(t, r, bpr), prev_of(t, r, bpr), pprev_of(t, r, bpr), f, bpp),
    decreases k,
{
    if k == 0 {
        assert(k * bpr == 0) by (nonlinear_arith) requires k == 0;
    } else {
        lemma_mul_step(k as int, bpr);
        lemma_sblock(t, (k - 1) as nat, bpr, bpp, f);
        let o = sblock(t, (k - 1) as nat, bpr, bpp, f);
        let ro = filter_row_spec(row_seq(t, k - 1, bpr), prev_of(t, k - 1, bpr), pprev_of(t, k - 1, bpr), f, bpp);
        assert forall|r: int| 0 <= r < k implies #[trigger] row_seq(sblock(t, k, bpr, bpp, f), r, bpr)
            == filter_row_spec(row_seq(t, r, bpr), prev_of(t, r, bpr), pprev_of(t, r, bpr), f, bpp) by {
            lemma_row_of_append(o, ro, r, k - 1, bpr);
        }
    }
}

pub proof fn lemma_wblock(t: Seq<u8>, k: nat, bpr: int, bpp: int)
    requires bpr >= 0, k * bpr <= t.len(),
    ensures
        wblock(t, k, bpr, bpp).0.len() == k * bpr,
        weights_ok(wblock(t, k, bpr, bpp).1),
        forall|r: int| 0 <= r < k ==> #[trigger] row_seq(wblock(t, k, bpr, bpp).0, r, bpr)
            == wfilter_prefix(row_seq(t, r, bpr), prev_of(t, r, bpr), bpp, wblock(t, r as nat, bpr, bpp).1, bpr as nat).0,
    decreases k,
{
    if k == 0 {
        assert(k * bpr == 0) by (nonlinear_arith) requires k == 0;
    } else {
        lemma_mul_step(k as int, bpr);
        lemma_wblock(t, (k - 1) as nat, bpr, bpp);
        let (o, s) = wblock(t, (k - 1) as nat, bpr, bpp);
        let row = row_seq(t, k - 1, bpr);
        lemma_wfilter_prefix(row, prev_of(t, k - 1, bpr), bpp, s, bpr as nat, bpr as nat);
        let ro = wfilter_prefix(row, prev_of(t, k - 1, bpr), bpp, s, bpr as nat).0;
        assert forall|r: int| 0 <= r < k implies #[trigger] row_seq(wblock(t, k, bpr, bpp).0, r, bpr)
            == wfilter_prefix(row_seq(t, r, bpr), prev_of(t, r, bpr), bpp, wblock(t, r as nat, bpr, bpp).1, bpr as nat).0 by {
            lemma_row_of_append(o, ro, r, k - 1, bpr);
        }
    }
}

/// Undoing a stateless filter block by block reconstructs the original rows.
pub proof fn lemma_sundo_sblock(t: Seq<u8>, h: nat, k: nat, bpr: int, bpp: int, f: u8)
    requires bpr >= 0, bpp >= 1, k <= h, h * bpr <= t.len(),
    ensures sundo(sblock(t, h, bpr, bpp, f), k, bpr, bpp, f) == t.take(k * bpr),
    decreases k,
{
    let body = sblock(t, h, bpr, bpp, f);
    lemma_sblock(t, h, bpr, bpp, f);
    if k == 0 {
        assert(k * bpr == 0) by (nonlinear_arith) requires k == 0;
        assert(t.take(0) =~= Seq::<u8>::empty());
    } else {
        lemma_sundo_sblock(t, h, (k - 1) as nat, bpr, bpp, f);
        lemma_mul_step(k as int, bpr);
        lemma_mul_mono(k as int, h as int, bpr);
        let o = sundo(body, (k - 1) as nat, bpr, bpp, f);
        let r = k - 1;
        assert(o == t.take(r * bpr));
        if r >= 1 {
            lemma_row_of_take(t, r - 1, r, bpr);
        }
        if r >= 2 {
            lemma_row_of_take(t, r - 2, r, bpr);
        }
        assert(prev_of(o, r, bpr) == prev_of(t, r, bpr));
        assert(pprev_of(o, r, bpr) == pprev_of(t, r, bpr));
        let row = row_seq(t, r, bpr);
        lemma_mul_mono(r + 1, h as int, bpr);
        assert(row.len() == bpr);
        assert(row_seq(body, r, bpr) == filter_row_spec(row, prev_of(t, r, bpr), pprev_of(t, r, bpr), f, bpp));
        lemma_unfilter_filter_row(row, prev_of(t, r, bpr), pprev_of(t, r, bpr), f, bpp, bpr as nat);
        assert(row.take(bpr) =~= row);
        assert(t.take(k * bpr) =~= t.take(r * bpr) + row);
    }
}

/// Undoing `F_WEIGHTED` block by block reconstructs the original rows and
/// the encoder's state.
#[verifier::spinoff_prover]
pub proof fn lemma_wundo_wblock(t: Seq<u8>, h: nat, k: nat, bpr: int, bpp: int)
    requires bpr >= 0, bpp >= 1, k <= h, h * bpr <= t.len(),
    ensures wundo(wblock(t, h, bpr, bpp).0, k, bpr, bpp) == (t.take(k * bpr), wblock(t, k, bpr, bpp).1),
    decreases k,
{
    let body = wblock(t, h, bpr, bpp).0;
    lemma_wblock(t, h, bpr, bpp);
    if k == 0 {
        assert(k * bpr == 0) by (nonlinear_arith) requires k == 0;
        assert(t.take(0) =~= Seq::<u8>::empty());
    } else {
        lemma_wundo_wblock(t, h, (k - 1) as nat, bpr, bpp);
        lemma_mul_step(k as int, bpr);
        lemma_mul_mono(k as int, h as int, bpr);
        let (o, s) = wundo(body, (k - 1) as nat, bpr, bpp);
        let r = k - 1;
        if r >= 1 {
            lemma_row_of_take(t, r - 1, r, bpr);
        }
        assert(prev_of(o, r, bpr) == prev_of(t, r, bpr));
        let row = row_seq(t, r, bpr);
        lemma_mul_mono(r + 1, h as int, bpr);
        assert(row.len() == bpr);
        assert(row_seq(body, r, bpr) == wfilter_prefix(row, prev_of(t, r, bpr), bpp, wblock(t, r as nat, bpr, bpp).1, bpr as nat).0);
        lemma_wunfilter_wfilter(row, prev_of(t, r, bpr), bpp, s, bpr as nat);
        assert(row.take(bpr) =~= row);
        assert(t.take(k * bpr) =~= t.take(r * bpr) + row);
    }
}

/// Reversing the residuals of any filter code gives back the block.
pub proof fn lemma_undo_filter_block(t: Seq<u8>, h: nat, bpr: int, bpp: int, f: u8)
    requires bpr >= 0, bpp >= 1, h * bpr <= t.len(),
    ensures undo_block_spec(filter_block_spec(t, h, bpr, bpp, f), h, bpr, bpp, f) == t.take(h * bpr),
{
    if f == F_WEIGHTED {
        lemma_wundo_wblock(t, h, h, bpr, bpp);
    } else {
        lemma_sundo_sblock(t, h, h, bpr, bpp, f);
    }
}

/// Applies filter `ftype` to every row of a block of `tile_height` rows of
/// `bytes_per_row` bytes, returning the residuals (without the code byte).
/// The first row sees no row above, the second no row two above.
pub fn filter_block(tile_raw: &[u8], tile_height: usize, bytes_per_row: usize, bpp: usize, ftype: u8) -> (out: Vec<u8>)
    requires
        tile_height * bytes_per_row <= tile_raw@.len(),
        bytes_per_row + 2 * bpp <= usize::MAX,
    ensures
        out@ == filter_block_spec(tile_raw@, tile_height as nat, bytes_per_row as int, bpp as int, ftype),
{
    let ghost t = tile_raw@;
    let ghost bpr = bytes_per_row as int;
    let n = tile_raw.len();
    let mut acc: Vec<u8> = Vec::new();
    let mut prev_row: Option<&[u8]> = None;
    if ftype == F_WEIGHTED {
        let mut state = WeightedState::default();
        let mut r: usize = 0;
        while r < tile_height
            invariant
                t == tile_raw@,
                n == t.len(),
                bpr == bytes_per_row,
                r <= tile_height,
                tile_height * bytes_per_row <= t.len(),
                bytes_per_row + 2 * bpp <= usize::MAX,
                (acc@, state.weight@) == wblock(t, r as nat, bpr, bpp as int),
                weights_ok(state.weight@),
                opt_view(prev_row) == prev_of(t, r as int, bpr),
                opt_len_ok(opt_view(prev_row), bpr),
            decreases tile_height - r,
        {
            proof {
                lemma_mul_mono(r as int + 1, tile_height as int, bpr);
                assert((r as int + 1) * bpr == r as int * bpr + bpr) by (nonlinear_arith);
            }
            let row = &tile_raw[r * bytes_per_row..(r + 1) * bytes_per_row];
            assert(row@ == row_seq(t, r as int, bpr));
            let filtered = filter_row_weighted(row, prev_row, bpp, &mut state);
            acc.extend_from_slice(&filtered);
            prev_row = Some(row);
            assert(opt_view(prev_row) == prev_of(t, r as int + 1, bpr));
            r += 1;
        }
        return acc;
    }
    let mut prev_prev_row: Option<&[u8]> = None;
    let mut r: usize = 0;
    while r < tile_height
        invariant
            t == tile_raw@,
            n == t.len(),
            bpr == bytes_per_row,
            r <= tile_height,
            ftype != F_WEIGHTED,
            tile_height * bytes_per_row <= t.len(),
            bytes_per_row + 2 * bpp <= usize::MAX,
            acc@ == sblock(t, r as nat, bpr, bpp as int, ftype),
            opt_view(prev_row) == prev_of(t, r as int, bpr),
            opt_view(prev_prev_row) == pprev_of(t, r as int, bpr),
            opt_len_ok(opt_view(prev_row), bpr),
            opt_len_ok(opt_view(prev_prev_row), bpr),
        decreases tile_height - r,
    {
        proof {
            lemma_mul_mono(r as int + 1, tile_height as int, bpr);
            assert((r as int + 1) * bpr == r as int * bpr + bpr) by (nonlinear_arith);
        }
        let row = &tile_raw[r * bytes_per_row..(r + 1) * bytes_per_row];
        assert(row@ == row_seq(t, r as int, bpr));
        let filtered = filter_row(row, prev_row, prev_prev_row, ftype, bpp);
        acc.extend_from_slice(&filtered);
        assert(acc@ =~= sblock(t, r as nat + 1, bpr, bpp as int, ftype));
        prev_prev_row = prev_row;
        prev_row = Some(row);
        r += 1;
    }
    acc
}


/// What reversing a filtered block yields: the code byte must name one of the
/// sixteen filters and be followed by at least `h * bpr` residual bytes.
pub open spec fn undo_predictive_filter_spec(data: Seq<u8>, h: nat, bpr: nat, bpp: nat) -> Result<Seq<u8>, CafeError> {
    if data.len() == 0 {
        Err(CafeError::TruncatedFile("filter data ends before the filter code"))
    } else if data[0] >= NUM_FILTERS {
        Err(CafeError::UnsupportedFeature("invalid filter code", None))
    } else if h * bpr + 1 > usize::MAX || data.len() < 1 + h * bpr {
        Err(CafeError::TruncatedFile("insufficient filter data for the block's rows"))
    } else {
        Ok(undo_block_spec(data.subrange(1, data.len() as int), h, bpr as int, bpp as int, data[0]))
    }
}

proof fn lemma_undo_row_prev(o: Seq<u8>, r: int, bpr: int)
    requires r >= 0, bpr > 0, o.len() == r * bpr,
    ensures
        (o.len() >= bpr) == (r >= 1),
        (o.len() >= 2 * bpr) == (r >= 2),
        r >= 1 ==> o.subrange(o.len() - bpr, o.len() as int) == row_seq(o, r - 1, bpr),
        r >= 2 ==> o.subrange(o.len() - 2 * bpr, o.len() - bpr) == row_seq(o, r - 2, bpr),
{
    if r >= 1 {
        assert(r * bpr >= bpr) by (nonlinear_arith) requires r >= 1, bpr > 0;
        assert((r - 1) * bpr == r * bpr - bpr) by (nonlinear_arith);
    } else {
        assert(r * bpr == 0) by (nonlinear_arith) requires r == 0;
    }
    if r >= 2 {
        assert(r * bpr >= 2 * bpr) by (nonlinear_arith) requires r >= 2, bpr > 0;
        assert((r - 2) * bpr == r * bpr - 2 * bpr) by (nonlinear_arith);
    } else {
        assert(r * bpr < 2 * bpr) by (nonlinear_arith) requires r < 2, bpr > 0;
    }
}

/// Reverses the predictive filter of a whole block: reads the filter code
/// byte, then reconstructs `tile_height` rows of `bytes_per_row` bytes.
pub fn undo_predictive_filter(tile_data: &[u8], tile_height: usize, bytes_per_row: usize, bpp: usize) -> (r: Result<Vec<u8>, CafeError>)
    requires
        bytes_per_row + 2 * bpp <= usize::MAX,
        2 * bytes_per_row <= usize::MAX,
    ensures
        match r {
            Ok(v) => undo_predictive_filter_spec(tile_data@, tile_height as nat, bytes_per_row as nat, bpp as nat) == Ok::<Seq<u8>, CafeError>(v@),
            Err(e) => undo_predictive_filter_spec(tile_data@, tile_height as nat, bytes_per_row as nat, bpp as nat) == Err::<Seq<u8>, CafeError>(e),
        },
{
    if tile_data.len() == 0 {
        return Err(CafeError::TruncatedFile("filter data ends before the filter code"));
    }
    let ftype = tile_data[0];
    if ftype >= NUM_FILTERS {
        return Err(CafeError::UnsupportedFeature("invalid filter code", None));
    }
    let data_bytes = match tile_height.checked_mul(bytes_per_row) {
        Some(v) => v,
        None => return Err(CafeError::TruncatedFile("insufficient filter data for the block's rows")),
    };
    let needed = match 1usize.checked_add(data_bytes) {
        Some(v) => v,
        None => return Err(CafeError::TruncatedFile("insufficient filter data for the block's rows")),
    };
    if tile_data.len() < needed {
        return Err(CafeError::TruncatedFile("insufficient filter data for the block's rows"));
    }
    let ghost h = tile_height as nat;
    let ghost bpr = bytes_per_row as int;
    let body = &tile_data[1..tile_data.len()];
    let ghost b = body@;
    assert(b == tile_data@.subrange(1, tile_data@.len() as int));
    let mut out: Vec<u8> = Vec::new();
    if ftype == F_WEIGHTED {
        let mut state = WeightedState::default();
        let mut r: usize = 0;
        while r < tile_height
            invariant
                b == body@,
                bpr == bytes_per_row,
                h == tile_height,
                r <= tile_height,
                tile_height * bytes_per_row <= b.len(),
                b.len() == body.len(),
                bytes_per_row + 2 * bpp <= usize::MAX,
                2 * bytes_per_row <= usize::MAX,
                (out@, state.weight@) == wundo(b, r as nat, bpr, bpp as int),
                out@.len() == r * bpr,
                weights_ok(state.weight@),
            decreases tile_height - r,
        {
            proof {
                lemma_mul_mono(r as int + 1, tile_height as int, bpr);
                assert((r as int + 1) * bpr == r as int * bpr + bpr) by (nonlinear_arith);
            }
            let filtered = &body[r * bytes_per_row..(r + 1) * bytes_per_row];
            assert(filtered@ == row_seq(b, r as int, bpr));
            let ghost o = out@;
            let prev_row: Option<&[u8]> = if out.len() >= bytes_per_row {
                Some(&out.as_slice()[out.len() - bytes_per_row..out.len()])
            } else {
                None
            };
            let ghost st = state.weight@;
            let row = unfilter_row_weighted(filtered, prev_row, bpp, &mut state);
            proof {
                lemma_wunfilter_prefix(filtered@, opt_view(prev_row), bpp as int, st, bpr as nat);
                lemma_wunfilter_prefix(filtered@, prev_of(o, r as int, bpr), bpp as int, st, bpr as nat);
                if bpr > 0 {
                    lemma_undo_row_prev(o, r as int, bpr);
                    assert(opt_view(prev_row) == prev_of(o, r as int, bpr));
                } else {
                    assert(row@ =~= wunfilter_prefix(filtered@, prev_of(o, r as int, bpr), bpp as int, st, bpr as nat).0);
                    assert(state.weight@ == wunfilter_prefix(filtered@, prev_of(o, r as int, bpr), bpp as int, st, bpr as nat).1);
                }
            }
            out.extend_from_slice(&row);
            assert(out@ =~= o + row@);
            r += 1;
        }
        return Ok(out);
    }
    let mut r: usize = 0;
    while r < tile_height
        invariant
            b == body@,
            bpr == bytes_per_row,
            h == tile_height,
            r <= tile_height,
            ftype < NUM_FILTERS,
            ftype != F_WEIGHTED,
            tile_height * bytes_per_row <= b.len(),
            b.len() == body.len(),
            bytes_per_row + 2 * bpp <= usize::MAX,
            2 * bytes_per_row <= usize::MAX,
            out@ == sundo(b, r as nat, bpr, bpp as int, ftype),
            out@.len() == r * bpr,
        decreases tile_height - r,
    {
        proof {
            lemma_mul_mono(r as int + 1, tile_height as int, bpr);
            assert((r as int + 1) * bpr == r as int * bpr + bpr) by (nonlinear_arith);
        }
        let filtered = &body[r * bytes_per_row..(r + 1) * bytes_per_row];
        assert(filtered@ == row_seq(b, r as int, bpr));
        let ghost o = out@;
        let prev_row: Option<&[u8]> = if out.len() >= bytes_per_row {
            Some(&out.as_slice()[out.len() - bytes_per_row..out.len()])
        } else {
            None
        };
        let prev_prev_row: Option<&[u8]> = if out.len() >= 2 * bytes_per_row {
            Some(&out.as_slice()[out.len() - 2 * bytes_per_row..out.len() - bytes_per_row])
        } else {
            None
        };
        let row = unfilter_row(filtered, prev_row, prev_prev_row, ftype, bpp);
        proof {
            lemma_unfilter_prefix_len(filtered@, opt_view(prev_row), opt_view(prev_prev_row), ftype, bpp as int, bpr as nat);
            if bpr > 0 {
                lemma_undo_row_prev(o, r as int, bpr);
                assert(opt_view(prev_row) == prev_of(o, r as int, bpr));
                assert(opt_view(prev_prev_row) == pprev_of(o, r as int, bpr));
            } else {
                assert(row@ =~= unfilter_row_spec(filtered@, prev_of(o, r as int, bpr), pprev_of(o, r as int, bpr), ftype, bpp as int));
            }
        }
        out.extend_from_slice(&row);
        assert(out@ =~= o + row@);
        r += 1;
    }
    Ok(out)
}


// ---------------------------------------------------------------------------
// Choosing the filter of a block
// ---------------------------------------------------------------------------

/// How candidate filters of a block are scored (lower is better). Scoring by
/// Shannon entropy works on floating-point numbers and is not offered here.
#[derive(Clone, Copy, Debug, PartialEq, Eq, Structural)]
pub enum FilterHeuristic {
    /// Sum of the residual bytes.
    Msad,
    /// Size after compression with the raw/Zstandard fallback.
    CompressionTest,
}

/// Sum of the bytes of `s`.
pub open spec fn byte_sum(s: Seq<u8>) -> int
    decreases s.len(),
{
    if s.len() == 0 { 0 } else { byte_sum(s.drop_last()) + s.last() }
}

pub proof fn lemma_byte_sum_bound(s: Seq<u8>)
    ensures 0 <= byte_sum(s) <= 255 * s.len(),
    decreases s.len(),
{
    if s.len() > 0 {
        lemma_byte_sum_bound(s.drop_last());
    }
}

/// Score of filter `f` on a block; `None` when it cannot be scored (the
/// compressor failed), which ranks below every scored candidate.
pub open spec fn block_score(t: Seq<u8>, h: nat, bpr: int, bpp: int, heuristic: FilterHeuristic, level: i32, f: u8) -> Option<int> {
    let fb = filter_block_spec(t, h, bpr, bpp, f);
    match heuristic {
        FilterHeuristic::Msad => Some(byte_sum(fb)),
        FilterHeuristic::CompressionTest => match compress_with_fallback_spec(fb, level) {
            Ok((_, c)) => Some(c.len() as int),
            Err(_) => None,
        },
    }
}

/// `code` is the lowest-numbered filter of least score.
pub open spec fn is_best_code(t: Seq<u8>, h: nat, bpr: int, bpp: int, heuristic: FilterHeuristic, level: i32, code: u8) -> bool {
    &&& code < NUM_FILTERS
    &&& block_score(t, h, bpr, bpp, heuristic, level, code) is Some
    &&& forall|g: u8| g < NUM_FILTERS && #[trigger] block_score(t, h, bpr, bpp, heuristic, level, g) is Some ==> {
        &&& block_score(t, h, bpr, bpp, heuristic, level, code)->0 <= block_score(t, h, bpr, bpp, heuristic, level, g)->0
        &&& (g < code ==> block_score(t, h, bpr, bpp, heuristic, level, code)->0 < block_score(t, h, bpr, bpp, heuristic, level, g)->0)
    }
}

fn byte_sum_exec(s: &[u8]) -> (r: u128)
    ensures r == byte_sum(s@),
{
    let mut acc: u128 = 0;
    let mut i: usize = 0;
    while i < s.len()
        invariant
            i <= s@.len(),
            acc == byte_sum(s@.take(i as int)),
            acc <= 255 * i,
        decreases s@.len() - i,
    {
        assert(s@.take(i + 1).drop_last() =~= s@.take(i as int));
        acc = acc + s[i] as u128;
        i += 1;
    }
    assert(s@.take(s@.len() as int) =~= s@);
    acc
}

/// Tries every filter code on the block and keeps the lowest-scoring one
/// (the first on ties); returns its code and the filtered block. When no
/// candidate can be scored, returns `F_NONE` with an empty block.
pub fn choose_best_block_filter(
    tile_raw: &[u8],
    tile_height: usize,
    bytes_per_row: usize,
    bpp: usize,
    heuristic: FilterHeuristic,
    level: i32,
) -> (r: (u8, Vec<u8>))
    requires
        tile_height * bytes_per_row <= tile_raw@.len(),
        bytes_per_row + 2 * bpp <= usize::MAX,
    ensures
        ({
            let (code, out) = r;
            (is_best_code(tile_raw@, tile_height as nat, bytes_per_row as int, bpp as int, heuristic, level, code)
                && out@ == filter_block_spec(tile_raw@, tile_height as nat, bytes_per_row as int, bpp as int, code))
            || ((forall|g: u8| g < NUM_FILTERS ==> #[trigger] block_score(tile_raw@, tile_height as nat, bytes_per_row as int, bpp as int, heuristic, level, g) is None)
                && code == F_NONE && out@.len() == 0)
        }),
{
    let ghost t = tile_raw@;
    let ghost h = tile_height as nat;
    let ghost bpr = bytes_per_row as int;
    let mut best_ftype: u8 = F_NONE;
    let mut best_score: Option<u128> = None;
    let mut best_filtered: Vec<u8> = Vec::new();
    let mut ftype: u8 = 0;
    while ftype < NUM_FILTERS
        invariant
            t == tile_raw@,
            h == tile_height,
            bpr == bytes_per_row,
            tile_height * bytes_per_row <= t.len(),
            bytes_per_row + 2 * bpp <= usize::MAX,
            ftype <= NUM_FILTERS,
            match best_score {
                None => forall|g: u8| g < ftype ==> #[trigger] block_score(t, h, bpr, bpp as int, heuristic, level, g) is None,
                Some(bs) => {
                    &&& best_ftype < ftype
                    &&& block_score(t, h, bpr, bpp as int, heuristic, level, best_ftype) == Some(bs as int)
                    &&& best_filtered@ == filter_block_spec(t, h, bpr, bpp as int, best_ftype)
                    &&& forall|g: u8| g < ftype && #[trigger] block_score(t, h, bpr, bpp as int, heuristic, level, g) is Some ==> {
                        &&& bs <= block_score(t, h, bpr, bpp as int, heuristic, level, g)->0
                        &&& (g < best_ftype ==> bs < block_score(t, h, bpr, bpp as int, heuristic, level, g)->0)
                    }
                },
            },
            best_score is None ==> best_ftype == F_NONE && best_filtered@.len() == 0,
        decreases NUM_FILTERS - ftype,
    {
        let filtered = filter_block(tile_raw, tile_height, bytes_per_row, bpp, ftype);
        let score: Option<u128> = match heuristic {
            FilterHeuristic::Msad => Some(byte_sum_exec(filtered.as_slice())),
            FilterHeuristic::CompressionTest => match compress_with_fallback(filtered.as_slice(), level) {
                Ok((_, compressed)) => Some(compressed.len() as u128),
                Err(_) => None,
            },
        };
        assert(match score { Some(v) => block_score(t, h, bpr, bpp as int, heuristic, level, ftype) == Some(v as int), None => block_score(t, h, bpr, bpp as int, heuristic, level, ftype) is None });
        match score {
            Some(sc) => {
                let better = match best_score {
                    None => true,
                    Some(bs) => sc < bs,
                };
                if better {
                    best_score = Some(sc);
                    best_ftype = ftype;
                    best_filtered = filtered;
                }
            }
            None => {}
        }
        ftype += 1;
    }
    (best_ftype, best_filtered)
}

/// The block as stored: the filter code byte followed by the residuals.
pub open spec fn coded_block_spec(t: Seq<u8>, h: nat, bpr: int, bpp: int, code: u8) -> Seq<u8> {
    seq![code] + filter_block_spec(t, h, bpr, bpp, code)
}

/// Filters a block with one filter chosen for the whole block by `heuristic`
/// and prefixes the filter code. Rejects a block shorter than
/// `tile_height * bytes_per_row` bytes.
pub fn apply_predictive_filter(
    tile_raw: &[u8],
    tile_height: usize,
    bytes_per_row: usize,
    bpp: usize,
    heuristic: FilterHeuristic,
    level: i32,
) -> (r: Result<Vec<u8>, CafeError>)
    requires
        bytes_per_row + 2 * bpp <= usize::MAX,
    ensures
        tile_height * bytes_per_row > usize::MAX || tile_raw@.len() < tile_height * bytes_per_row
            <==> r == Err::<Vec<u8>, CafeError>(CafeError::TruncatedFile("apply_predictive_filter: insufficient data for the block's rows")),
        r is Ok || r == Err::<Vec<u8>, CafeError>(CafeError::TruncatedFile("apply_predictive_filter: insufficient data for the block's rows")),
        r matches Ok(v) ==> (
            (exists|code: u8| is_best_code(tile_raw@, tile_height as nat, bytes_per_row as int, bpp as int, heuristic, level, code)
                && v@ == #[trigger] coded_block_spec(tile_raw@, tile_height as nat, bytes_per_row as int, bpp as int, code))
            || ((forall|g: u8| g < NUM_FILTERS ==> #[trigger] block_score(tile_raw@, tile_height as nat, bytes_per_row as int, bpp as int, heuristic, level, g) is None)
                && v@ == seq![F_NONE])),
{
    let n = tile_raw.len();
    assert(n == tile_raw@.len());
    let expected_size = match tile_height.checked_mul(bytes_per_row) {
        Some(v) => v,
        None => return Err(CafeError::TruncatedFile("apply_predictive_filter: insufficient data for the block's rows")),
    };
    if tile_raw.len() < expected_size {
        return Err(CafeError::TruncatedFile("apply_predictive_filter: insufficient data for the block's rows"));
    }
    let (ftype, filtered) = choose_best_block_filter(tile_raw, tile_height, bytes_per_row, bpp, heuristic, level);
    let mut out: Vec<u8> = Vec::with_capacity(1);
    out.push(ftype);
    crate::bytes::append_bytes(&mut out, filtered.as_slice());
    assert(out@ =~= seq![ftype] + filtered@);
    assert(out@ == coded_block_spec(tile_raw@, tile_height as nat, bytes_per_row as int, bpp as int, ftype)
        || out@ == seq![F_NONE]);
    Ok(out)
}

/// Filters a block with the given filter code and prefixes the code.
pub fn apply_predictive_filter_with_code(
    tile_raw: &[u8],
    tile_height: usize,
    bytes_per_row: usize,
    bpp: usize,
    ftype: u8,
) -> (r: Result<Vec<u8>, CafeError>)
    requires
        bytes_per_row + 2 * bpp <= usize::MAX,
    ensures
        tile_height * bytes_per_row > usize::MAX || tile_raw@.len() < tile_height * bytes_per_row
            ==> r == Err::<Vec<u8>, CafeError>(CafeError::TruncatedFile("apply_predictive_filter: insufficient data for the block's rows")),
        ftype >= NUM_FILTERS && tile_height * bytes_per_row <= tile_raw@.len()
            ==> r == Err::<Vec<u8>, CafeError>(CafeError::UnsupportedFeature("invalid filter code", None)),
        ftype < NUM_FILTERS && tile_height * bytes_per_row <= tile_raw@.len() ==> (r matches Ok(v)
            && v@ == coded_block_spec(tile_raw@, tile_height as nat, bytes_per_row as int, bpp as int, ftype)),
{
    let n = tile_raw.len();
    assert(n == tile_raw@.len());
    let expected_size = match tile_height.checked_mul(bytes_per_row) {
        Some(v) => v,
        None => return Err(CafeError::TruncatedFile("apply_predictive_filter: insufficient data for the block's rows")),
    };
    if tile_raw.len() < expected_size {
        return Err(CafeError::TruncatedFile("apply_predictive_filter: insufficient data for the block's rows"));
    }
    if ftype >= NUM_FILTERS {
        return Err(CafeError::UnsupportedFeature("invalid filter code", None));
    }
    let filtered = filter_block(tile_raw, tile_height, bytes_per_row, bpp, ftype);
    let mut out: Vec<u8> = Vec::with_capacity(1);
    out.push(ftype);
    crate::bytes::append_bytes(&mut out, filtered.as_slice());
    assert(out@ =~= seq![ftype] + filtered@);
    Ok(out)
}

/// Reversing a block stored with any of the sixteen filter codes gives back
/// the block's rows (for pixels at least one byte wide).
pub proof fn lemma_undo_predictive_filter_roundtrip(t: Seq<u8>, h: nat, bpr: nat, bpp: nat, code: u8)
    requires
        code < NUM_FILTERS,
        bpp >= 1,
        h * bpr <= t.len(),
        h * bpr + 1 <= usize::MAX,
    ensures
        undo_predictive_filter_spec(coded_block_spec(t, h, bpr as int, bpp as int, code), h, bpr, bpp)
            == Ok::<Seq<u8>, CafeError>(t.take((h * bpr) as int)),
{
    let fb = filter_block_spec(t, h, bpr as int, bpp as int, code);
    let data = coded_block_spec(t, h, bpr as int, bpp as int, code);
    if code == F_WEIGHTED {
        lemma_wblock(t, h, bpr as int, bpp as int);
    } else {
        lemma_sblock(t, h, bpr as int, bpp as int, code);
    }
    assert(fb.len() == h * bpr);
    assert(data.subrange(1, data.len() as int) =~= fb);
    lemma_undo_filter_block(t, h, bpr as int, bpp as int, code);
}

} // verus!
