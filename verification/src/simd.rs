//! Row filters with fixed filter codes (Sub, Up, Average, Gradient, the four
//! 4-way directional filters and TR-directional) and the reversals of Sub,
//! Up and Average. Each is the corresponding general row filter of
//! `filter`, computed byte by byte.

use vstd::prelude::*;

use crate::constants::{F_4WAY_D1, F_4WAY_D2, F_4WAY_H, F_4WAY_V, F_AVERAGE, F_GRADIENT, F_SUB, F_TR_DIRECTIONAL, F_UP};
use crate::filter::{filter_row, filter_row_spec, opt_len_ok, opt_view, sub8, unfilter_row, unfilter_row_spec};

verus! {

/// What filter `code` gives on `row` with the row above `prev`.
pub open spec fn coded_filter(row: Seq<u8>, prev: Option<Seq<u8>>, code: u8, bpp: usize) -> Seq<u8> {
    filter_row_spec(row, prev, None, code, bpp as int)
}

/// What reversing filter `code` gives on residuals `filtered`.
pub open spec fn coded_unfilter(filtered: Seq<u8>, prev: Option<Seq<u8>>, code: u8, bpp: usize) -> Seq<u8> {
    unfilter_row_spec(filtered, prev, None, code, bpp as int)
}

/// Filter 1 (Sub): each byte minus the byte `bpp` to its left.
pub fn filter_sub_scalar(row: &[u8], bpp: usize) -> (out: Vec<u8>)
    requires row@.len() + 2 * bpp <= usize::MAX,
    ensures out@ == coded_filter(row@, None, F_SUB, bpp),
{
    filter_row(row, None, None, F_SUB, bpp)
}

/// Filter 1 (Sub).
pub fn filter_sub_avx2(row: &[u8], bpp: usize) -> (out: Vec<u8>)
    requires row@.len() + 2 * bpp <= usize::MAX,
    ensures out@ == coded_filter(row@, None, F_SUB, bpp),
{
    filter_sub_scalar(row, bpp)
}

/// Reverses filter 1 (Sub).
pub fn unfilter_sub_avx2(filtered: &[u8], bpp: usize) -> (out: Vec<u8>)
    requires filtered@.len() + 2 * bpp <= usize::MAX,
    ensures out@ == coded_unfilter(filtered@, None, F_SUB, bpp),
{
    unfilter_row(filtered, None, None, F_SUB, bpp)
}

/// Filter 2 (Up): each byte minus the byte above it.
pub fn filter_up_scalar(row: &[u8], prev_row: Option<&[u8]>) -> (out: Vec<u8>)
    requires opt_len_ok(opt_view(prev_row), row@.len() as int), row@.len() + 2 <= usize::MAX,
    ensures out@ == coded_filter(row@, opt_view(prev_row), F_UP, 1),
{
    filter_row(row, prev_row, None, F_UP, 1)
}

/// Filter 2 (Up).
pub fn filter_up_avx2(row: &[u8], prev_row: Option<&[u8]>) -> (out: Vec<u8>)
    requires opt_len_ok(opt_view(prev_row), row@.len() as int), row@.len() + 2 <= usize::MAX,
    ensures out@ == coded_filter(row@, opt_view(prev_row), F_UP, 1),
{
    filter_up_scalar(row, prev_row)
}

/// Reverses filter 2 (Up).
pub fn unfilter_up_scalar(filtered: &[u8], prev_row: Option<&[u8]>) -> (out: Vec<u8>)
    requires opt_len_ok(opt_view(prev_row), filtered@.len() as int), filtered@.len() + 2 <= usize::MAX,
    ensures out@ == coded_unfilter(filtered@, opt_view(prev_row), F_UP, 1),
{
    unfilter_row(filtered, prev_row, None, F_UP, 1)
}

/// Reverses filter 2 (Up).
pub fn unfilter_up_avx2(filtered: &[u8], prev_row: Option<&[u8]>) -> (out: Vec<u8>)
    requires opt_len_ok(opt_view(prev_row), filtered@.len() as int), filtered@.len() + 2 <= usize::MAX,
    ensures out@ == coded_unfilter(filtered@, opt_view(prev_row), F_UP, 1),
{
    unfilter_up_scalar(filtered, prev_row)
}

/// Filter 3 (Average): each byte minus the floor mean of left and above.
pub fn filter_average_scalar(row: &[u8], prev_row: Option<&[u8]>, bpp: usize) -> (out: Vec<u8>)
    requires opt_len_ok(opt_view(prev_row), row@.len() as int), row@.len() + 2 * bpp <= usize::MAX,
    ensures out@ == coded_filter(row@, opt_view(prev_row), F_AVERAGE, bpp),
{
    filter_row(row, prev_row, None, F_AVERAGE, bpp)
}

/// Filter 3 (Average).
pub fn filter_average_avx2(row: &[u8], prev_row: Option<&[u8]>, bpp: usize) -> (out: Vec<u8>)
    requires opt_len_ok(opt_view(prev_row), row@.len() as int), row@.len() + 2 * bpp <= usize::MAX,
    ensures out@ == coded_filter(row@, opt_view(prev_row), F_AVERAGE, bpp),
{
    filter_average_scalar(row, prev_row, bpp)
}

/// Reverses filter 3 (Average).
pub fn unfilter_average_avx2(filtered: &[u8], prev_row: Option<&[u8]>, bpp: usize) -> (out: Vec<u8>)
    requires opt_len_ok(opt_view(prev_row), filtered@.len() as int), filtered@.len() + 2 * bpp <= usize::MAX,
    ensures out@ == coded_unfilter(filtered@, opt_view(prev_row), F_AVERAGE, bpp),
{
    unfilter_row(filtered, prev_row, None, F_AVERAGE, bpp)
}

/// Filter 6 (Gradient): each byte minus `left + above - diagonal` (mod 256).
pub fn filter_gradient_scalar(row: &[u8], prev_row: Option<&[u8]>, bpp: usize) -> (out: Vec<u8>)
    requires opt_len_ok(opt_view(prev_row), row@.len() as int), row@.len() + 2 * bpp <= usize::MAX,
    ensures out@ == coded_filter(row@, opt_view(prev_row), F_GRADIENT, bpp),
{
    filter_row(row, prev_row, None, F_GRADIENT, bpp)
}

/// Filter 6 (Gradient).
pub fn filter_gradient_avx2(row: &[u8], prev_row: Option<&[u8]>, bpp: usize) -> (out: Vec<u8>)
    requires opt_len_ok(opt_view(prev_row), row@.len() as int), row@.len() + 2 * bpp <= usize::MAX,
    ensures out@ == coded_filter(row@, opt_view(prev_row), F_GRADIENT, bpp),
{
    filter_gradient_scalar(row, prev_row, bpp)
}

/// Filter 9 (4-way horizontal): `(3 left + above) / 4`.
pub fn filter_4way_h_avx2(row: &[u8], prev_row: Option<&[u8]>, bpp: usize) -> (out: Vec<u8>)
    requires opt_len_ok(opt_view(prev_row), row@.len() as int), row@.len() + 2 * bpp <= usize::MAX,
    ensures out@ == coded_filter(row@, opt_view(prev_row), F_4WAY_H, bpp),
{
    filter_row(row, prev_row, None, F_4WAY_H, bpp)
}

/// Filter 10 (4-way vertical): `(left + 3 above) / 4`.
pub fn filter_4way_v_avx2(row: &[u8], prev_row: Option<&[u8]>, bpp: usize) -> (out: Vec<u8>)
    requires opt_len_ok(opt_view(prev_row), row@.len() as int), row@.len() + 2 * bpp <= usize::MAX,
    ensures out@ == coded_filter(row@, opt_view(prev_row), F_4WAY_V, bpp),
{
    filter_row(row, prev_row, None, F_4WAY_V, bpp)
}

/// Filter 11 (4-way diagonal `\`): `(left + above + 2 diagonal) / 4`.
pub fn filter_4way_d1_avx2(row: &[u8], prev_row: Option<&[u8]>, bpp: usize) -> (out: Vec<u8>)
    requires opt_len_ok(opt_view(prev_row), row@.len() as int), row@.len() + 2 * bpp <= usize::MAX,
    ensures out@ == coded_filter(row@, opt_view(prev_row), F_4WAY_D1, bpp),
{
    filter_row(row, prev_row, None, F_4WAY_D1, bpp)
}

/// Filter 12 (4-way diagonal `/`): `(2 left + 2 above + diagonal) / 5`.
pub fn filter_4way_d2_avx2(row: &[u8], prev_row: Option<&[u8]>, bpp: usize) -> (out: Vec<u8>)
    requires opt_len_ok(opt_view(prev_row), row@.len() as int), row@.len() + 2 * bpp <= usize::MAX,
    ensures out@ == coded_filter(row@, opt_view(prev_row), F_4WAY_D2, bpp),
{
    filter_row(row, prev_row, None, F_4WAY_D2, bpp)
}

/// The neighbors of byte `i`: left, above, diagonal (0 outside the block).
pub open spec fn neighbors(row: Seq<u8>, prev: Option<Seq<u8>>, bpp: int, i: int) -> (u8, u8, u8) {
    let a = if i >= bpp { row[i - bpp] } else { 0u8 };
    let b = match prev { Some(p) => p[i], None => 0u8 };
    let c = if i >= bpp { match prev { Some(p) => p[i - bpp], None => 0u8 } } else { 0u8 };
    (a, b, c)
}

/// `v` is byte `i` of `row` minus some value `pred_fn` may return on the
/// byte's neighbors.
pub open spec fn predicted_residual<F: Fn(u8, u8, u8) -> u8>(pred_fn: F, row: Seq<u8>, prev: Option<Seq<u8>>, bpp: int, i: int, v: u8) -> bool {
    exists|p: u8| #[trigger] pred_fn.ensures(neighbors(row, prev, bpp, i), p) && v == sub8(row[i], p)
}

/// Applies a predictor given as a function of left, above and diagonal to
/// every byte of `row`: each residual is the byte minus the prediction.
pub fn filter_4way_scalar<F: Fn(u8, u8, u8) -> u8>(row: &[u8], prev_row: Option<&[u8]>, bpp: usize, pred_fn: F) -> (out: Vec<u8>)
    requires
        opt_len_ok(opt_view(prev_row), row@.len() as int),
        row@.len() + bpp <= usize::MAX,
        forall|a: u8, b: u8, c: u8| pred_fn.requires((a, b, c)),
    ensures
        out@.len() == row@.len(),
        forall|i: int| 0 <= i < row@.len() ==> predicted_residual(pred_fn, row@, opt_view(prev_row), bpp as int, i, #[trigger] out@[i]),
{
    let len = row.len();
    let mut out: Vec<u8> = Vec::with_capacity(len);
    let mut i: usize = 0;
    while i < len
        invariant
            len == row@.len(),
            i <= len,
            out@.len() == i,
            opt_len_ok(opt_view(prev_row), len as int),
            len + bpp <= usize::MAX,
            forall|a: u8, b: u8, c: u8| pred_fn.requires((a, b, c)),
            forall|k: int| 0 <= k < i ==> predicted_residual(pred_fn, row@, opt_view(prev_row), bpp as int, k, #[trigger] out@[k]),
        decreases len - i,
    {
        let a = if i >= bpp { row[i - bpp] } else { 0 };
        let b = match prev_row { Some(p) => p[i], None => 0 };
        let c = if i >= bpp { match prev_row { Some(p) => p[i - bpp], None => 0 } } else { 0 };
        let p = pred_fn(a, b, c);
        let ghost before = out@;
        out.push(row[i].wrapping_sub(p));
        proof {
            assert forall|k: int| 0 <= k < i + 1 implies predicted_residual(pred_fn, row@, opt_view(prev_row), bpp as int, k, #[trigger] out@[k]) by {
                if k < i {
                    assert(out@[k] == before[k]);
                    assert(predicted_residual(pred_fn, row@, opt_view(prev_row), bpp as int, k, before[k]));
                    assert(predicted_residual(pred_fn, row@, opt_view(prev_row), bpp as int, k, out@[k]));
                } else {
                    assert(neighbors(row@, opt_view(prev_row), bpp as int, k) == (a, b, c));
                    assert(out@[k] == sub8(row@[k], p));
                    assert(pred_fn.ensures((a, b, c), p));
                    assert(pred_fn.ensures(neighbors(row@, opt_view(prev_row), bpp as int, k), p));
                    assert(predicted_residual(pred_fn, row@, opt_view(prev_row), bpp as int, k, out@[k]));
                }
            }
        }
        i += 1;
    }
    out
}

/// Filter 14 (TR-directional): the floor mean of the means of
/// (left, diagonal) and (above, top-right).
pub fn filter_tr_directional_scalar(row: &[u8], prev_row: Option<&[u8]>, bpp: usize) -> (out: Vec<u8>)
    requires opt_len_ok(opt_view(prev_row), row@.len() as int), row@.len() + 2 * bpp <= usize::MAX,
    ensures out@ == coded_filter(row@, opt_view(prev_row), F_TR_DIRECTIONAL, bpp),
{
    filter_row(row, prev_row, None, F_TR_DIRECTIONAL, bpp)
}

/// Filter 14 (TR-directional).
pub fn filter_tr_directional_avx2(row: &[u8], prev_row: Option<&[u8]>, bpp: usize) -> (out: Vec<u8>)
    requires opt_len_ok(opt_view(prev_row), row@.len() as int), row@.len() + 2 * bpp <= usize::MAX,
    ensures out@ == coded_filter(row@, opt_view(prev_row), F_TR_DIRECTIONAL, bpp),
{
    filter_tr_directional_scalar(row, prev_row, bpp)
}

} // verus!
