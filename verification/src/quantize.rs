//! Palette building from RGBA pixels: median-cut quantization.
//!
//! Colors are handled as `(r, g, b)` triples; fully transparent pixels take
//! no part. The distinct colors are taken in increasing `0xRRGGBB` order,
//! so that every step below is a function of the pixels alone.

use vstd::prelude::*;

use crate::error::CafeError;
use crate::palette::{Palette, PaletteEntry};

verus! {

/// An RGB color.
pub type Rgb = (u8, u8, u8);

/// Channel `axis` (0: red, 1: green, 2: blue) of `c`.
pub open spec fn channel(c: Rgb, axis: int) -> u8 {
    if axis == 0 { c.0 } else if axis == 1 { c.1 } else { c.2 }
}

/// The color with code `0xRRGGBB == code`.
pub open spec fn rgb_of_code(code: int) -> Rgb {
    ((code / 65536) as u8, ((code / 256) % 256) as u8, (code % 256) as u8)
}

/// Pixel `p` of `rgba` is opaque (alpha above zero) and has color `c`.
pub open spec fn opaque_pixel_is(rgba: Seq<u8>, p: int, c: Rgb) -> bool {
    &&& 0 <= p
    &&& 4 * p + 4 <= rgba.len()
    &&& rgba[4 * p + 3] > 0
    &&& rgba[4 * p] == c.0 && rgba[4 * p + 1] == c.1 && rgba[4 * p + 2] == c.2
}

/// Some opaque pixel of `rgba` has color `c`.
pub open spec fn has_opaque_color(rgba: Seq<u8>, c: Rgb) -> bool {
    exists|p: int| #[trigger] opaque_pixel_is(rgba, p, c)
}

/// The distinct opaque colors of `rgba` with code below `k`, in code order.
pub open spec fn opaque_colors_below(rgba: Seq<u8>, k: nat) -> Seq<Rgb>
    decreases k,
{
    if k == 0 {
        Seq::empty()
    } else {
        let prev = opaque_colors_below(rgba, (k - 1) as nat);
        if has_opaque_color(rgba, rgb_of_code(k - 1)) { prev.push(rgb_of_code(k - 1)) } else { prev }
    }
}

/// The distinct opaque colors of `rgba`, in increasing `0xRRGGBB` order.
pub open spec fn opaque_colors(rgba: Seq<u8>) -> Seq<Rgb> {
    opaque_colors_below(rgba, 0x100_0000)
}

proof fn lemma_opaque_colors_below_len(rgba: Seq<u8>, k: nat)
    ensures opaque_colors_below(rgba, k).len() <= k,
    decreases k,
{
    if k > 0 {
        lemma_opaque_colors_below_len(rgba, (k - 1) as nat);
    }
}

/// Every color is the color of its own code.
proof fn lemma_rgb_code(c: Rgb)
    ensures
        0 <= c.0 * 65536 + c.1 * 256 + c.2 < 0x100_0000,
        rgb_of_code(c.0 * 65536 + c.1 * 256 + c.2) == c,
{
    let code = c.0 * 65536 + c.1 * 256 + c.2;
    vstd::arithmetic::div_mod::lemma_fundamental_div_mod_converse(code, 65536, c.0 as int, c.1 * 256 + c.2);
    vstd::arithmetic::div_mod::lemma_fundamental_div_mod_converse(code, 256, c.0 * 256 + c.1, c.2 as int);
    vstd::arithmetic::div_mod::lemma_fundamental_div_mod_converse(c.0 * 256 + c.1, 256, c.0 as int, c.1 as int);
}

/// The distinct opaque colors of `rgba` in increasing `0xRRGGBB` order, or
/// `UnsupportedFeature` when no pixel is opaque. A trailing partial pixel is
/// ignored.
pub fn collect_opaque_colors(rgba: &[u8]) -> (r: Result<Vec<Rgb>, CafeError>)
    ensures
        match r {
            Ok(v) => v@ == opaque_colors(rgba@) && v@.len() > 0,
            Err(e) => e == CafeError::UnsupportedFeature("no opaque pixel to quantize", None) && opaque_colors(rgba@).len() == 0,
        },
{
    let mut seen: Vec<bool> = vec![false; 0x100_0000];
    let len = rgba.len();
    let n = len / 4;
    proof {
        vstd::arithmetic::div_mod::lemma_fundamental_div_mod(len as int, 4);
    }
    let mut p: usize = 0;
    while p < n
        invariant
            n == rgba@.len() / 4,
            4 * n <= rgba@.len(),
            len == rgba@.len(),
            p <= n,
            seen@.len() == 0x100_0000,
            forall|code: int| 0 <= code < 0x100_0000 ==>
                (#[trigger] seen@[code] <==> exists|q: int| 0 <= q < p && #[trigger] opaque_pixel_is(rgba@, q, rgb_of_code(code))),
        decreases n - p,
    {
        let r = rgba[4 * p];
        let g = rgba[4 * p + 1];
        let b = rgba[4 * p + 2];
        let a = rgba[4 * p + 3];
        if a > 0 {
            let code: usize = (r as usize) * 65536 + (g as usize) * 256 + (b as usize);
            proof {
                lemma_rgb_code((r, g, b));
            }
            seen[code] = true;
            proof {
                assert forall|c: int| 0 <= c < 0x100_0000 implies
                    (#[trigger] seen@[c] <==> exists|q: int| 0 <= q < p + 1 && #[trigger] opaque_pixel_is(rgba@, q, rgb_of_code(c))) by {
                    if c == code {
                        assert(opaque_pixel_is(rgba@, p as int, rgb_of_code(c)));
                    } else if exists|q: int| 0 <= q < p + 1 && #[trigger] opaque_pixel_is(rgba@, q, rgb_of_code(c)) {
                        let q = choose|q: int| 0 <= q < p + 1 && #[trigger] opaque_pixel_is(rgba@, q, rgb_of_code(c));
                        if q == p {
                            lemma_rgb_code(rgb_of_code(c));
                            lemma_code_of_rgb(c);
                        }
                    }
                }
            }
        } else {
            proof {
                assert forall|c: int| 0 <= c < 0x100_0000 implies
                    (#[trigger] seen@[c] <==> exists|q: int| 0 <= q < p + 1 && #[trigger] opaque_pixel_is(rgba@, q, rgb_of_code(c))) by {
                    if exists|q: int| 0 <= q < p + 1 && #[trigger] opaque_pixel_is(rgba@, q, rgb_of_code(c)) {
                        let q = choose|q: int| 0 <= q < p + 1 && #[trigger] opaque_pixel_is(rgba@, q, rgb_of_code(c));
                        assert(q != p);
                    }
                }
            }
        }
        p += 1;
    }
    proof {
        assert forall|code: int| 0 <= code < 0x100_0000 implies
            (#[trigger] seen@[code] == has_opaque_color(rgba@, rgb_of_code(code))) by {
            if has_opaque_color(rgba@, rgb_of_code(code)) {
                let q = choose|q: int| #[trigger] opaque_pixel_is(rgba@, q, rgb_of_code(code));
                assert(0 <= q < n) by {
                    vstd::arithmetic::div_mod::lemma_fundamental_div_mod(rgba@.len() as int, 4);
                }
            }
        }
    }
    let mut colors: Vec<Rgb> = Vec::new();
    let mut code: u32 = 0;
    while code < 0x100_0000
        invariant
            code <= 0x100_0000,
            seen@.len() == 0x100_0000,
            forall|c: int| 0 <= c < 0x100_0000 ==> (#[trigger] seen@[c] == has_opaque_color(rgba@, rgb_of_code(c))),
            colors@ == opaque_colors_below(rgba@, code as nat),
        decreases 0x100_0000 - code,
    {
        if seen[code as usize] {
            let c: Rgb = ((code / 65536) as u8, ((code / 256) % 256) as u8, (code % 256) as u8);
            colors.push(c);
        }
        code += 1;
    }
    if colors.len() == 0 {
        return Err(CafeError::UnsupportedFeature("no opaque pixel to quantize", None));
    }
    Ok(colors)
}

/// The code of a color is its `0xRRGGBB` value.
proof fn lemma_code_of_rgb(code: int)
    requires 0 <= code < 0x100_0000,
    ensures
        ({
            let c = rgb_of_code(code);
            c.0 * 65536 + c.1 * 256 + c.2 == code
        }),
{
    vstd::arithmetic::div_mod::lemma_fundamental_div_mod(code, 65536);
    vstd::arithmetic::div_mod::lemma_fundamental_div_mod(code, 256);
    vstd::arithmetic::div_mod::lemma_fundamental_div_mod(code / 256, 256);
    vstd::arithmetic::div_mod::lemma_mod_bound(code, 256);
    vstd::arithmetic::div_mod::lemma_mod_bound(code / 256, 256);
    vstd::arithmetic::div_mod::lemma_div_denominator(code, 256, 256);
}

// ---------------------------------------------------------------------------
// Bucket statistics
// ---------------------------------------------------------------------------

/// Sum of channel `axis` over `s`.
pub open spec fn channel_sum(s: Seq<Rgb>, axis: int) -> int
    decreases s.len(),
{
    if s.len() == 0 { 0 } else { channel_sum(s.drop_last(), axis) + channel(s.last(), axis) }
}

/// Sum over `s` of the squared norm `r^2 + g^2 + b^2`.
pub open spec fn norm_sum(s: Seq<Rgb>) -> int
    decreases s.len(),
{
    if s.len() == 0 {
        0
    } else {
        let c = s.last();
        norm_sum(s.drop_last()) + c.0 * c.0 + c.1 * c.1 + c.2 * c.2
    }
}

/// `n^2` times the variance of bucket `s` (the mean squared distance of its
/// colors from their mean), `n` being its size.
pub open spec fn scaled_variance(s: Seq<Rgb>) -> int {
    let sr = channel_sum(s, 0);
    let sg = channel_sum(s, 1);
    let sb = channel_sum(s, 2);
    s.len() * norm_sum(s) - (sr * sr + sg * sg + sb * sb)
}

/// The variance of `a` is at least that of `b` (both non-empty).
pub open spec fn variance_ge(a: Seq<Rgb>, b: Seq<Rgb>) -> bool {
    scaled_variance(a) * (b.len() * b.len()) >= scaled_variance(b) * (a.len() * a.len())
}

proof fn lemma_sums_bound(s: Seq<Rgb>)
    ensures
        0 <= channel_sum(s, 0) <= 255 * s.len(),
        0 <= channel_sum(s, 1) <= 255 * s.len(),
        0 <= channel_sum(s, 2) <= 255 * s.len(),
        0 <= norm_sum(s) <= 195075 * s.len(),
    decreases s.len(),
{
    if s.len() > 0 {
        lemma_sums_bound(s.drop_last());
        let c = s.last();
        assert(c.0 * c.0 <= 65025 && c.1 * c.1 <= 65025 && c.2 * c.2 <= 65025) by (nonlinear_arith)
            requires c.0 <= 255, c.1 <= 255, c.2 <= 255;
        assert(0 <= c.0 * c.0 && 0 <= c.1 * c.1 && 0 <= c.2 * c.2) by (nonlinear_arith);
        assert(norm_sum(s) == norm_sum(s.drop_last()) + c.0 * c.0 + c.1 * c.1 + c.2 * c.2);
        assert(195075 * s.len() == 195075 * (s.len() - 1) + 195075);
    }
}

/// Channel sums and squared-norm sum of a bucket.
fn bucket_sums(s: &[Rgb]) -> (r: (u64, u64, u64, u64))
    requires s@.len() <= 0x100_0000,
    ensures
        r.0 == channel_sum(s@, 0), r.1 == channel_sum(s@, 1), r.2 == channel_sum(s@, 2),
        r.3 == norm_sum(s@),
{
    let mut sr: u64 = 0;
    let mut sg: u64 = 0;
    let mut sb: u64 = 0;
    let mut sq: u64 = 0;
    let mut i: usize = 0;
    while i < s.len()
        invariant
            i <= s@.len(),
            s@.len() <= 0x100_0000,
            sr == channel_sum(s@.take(i as int), 0),
            sg == channel_sum(s@.take(i as int), 1),
            sb == channel_sum(s@.take(i as int), 2),
            sq == norm_sum(s@.take(i as int)),
        decreases s@.len() - i,
    {
        proof {
            assert(s@.take(i + 1).drop_last() =~= s@.take(i as int));
            lemma_sums_bound(s@.take(i + 1));
            assert(s@.take(i + 1).last() == s@[i as int]);
        }
        let c = s[i];
        assert(195075 * (i + 1) <= 195075 * 0x100_0000);
        sr = sr + c.0 as u64;
        sg = sg + c.1 as u64;
        sb = sb + c.2 as u64;
        sq = sq + (c.0 as u64) * (c.0 as u64) + (c.1 as u64) * (c.1 as u64) + (c.2 as u64) * (c.2 as u64);
        i += 1;
    }
    assert(s@.take(s@.len() as int) =~= s@);
    (sr, sg, sb, sq)
}

/// `scaled_variance(s)` and `s.len()^2`, computed exactly.
fn variance_parts(s: &[Rgb]) -> (r: (i128, i128))
    requires s@.len() <= 0x100_0000,
    ensures
        r.0 == scaled_variance(s@), r.1 == s@.len() * s@.len(),
        -0x4_0000_0000_0000_0000 <= r.0 <= 0x4_0000_0000_0000_0000,
        0 <= r.1 <= 0x1_0000_0000_0000,
{
    let (sr, sg, sb, sq) = bucket_sums(s);
    proof {
        lemma_sums_bound(s@);
        let n = s@.len() as int;
        assert(n * norm_sum(s@) <= 0x100_0000 * (195075 * 0x100_0000)) by (nonlinear_arith)
            requires 0 <= n <= 0x100_0000, 0 <= norm_sum(s@) <= 195075 * n;
        assert(0 <= n * norm_sum(s@)) by (nonlinear_arith) requires 0 <= n, 0 <= norm_sum(s@);
        assert(sr * sr <= (0xff00_0000) * (0xff00_0000)) by (nonlinear_arith)
            requires 0 <= sr <= 0xff00_0000;
        assert(sg * sg <= (0xff00_0000) * (0xff00_0000)) by (nonlinear_arith)
            requires 0 <= sg <= 0xff00_0000;
        assert(sb * sb <= (0xff00_0000) * (0xff00_0000)) by (nonlinear_arith)
            requires 0 <= sb <= 0xff00_0000;
        assert(0 <= sr * sr && 0 <= sg * sg && 0 <= sb * sb) by (nonlinear_arith);
        assert(n * n <= 0x100_0000 * 0x100_0000) by (nonlinear_arith) requires 0 <= n <= 0x100_0000;
        assert(0 <= n * n) by (nonlinear_arith);
        assert(0xff00_0000 <= n * 255 || 255 * n <= 0xff00_0000);
    }
    let n = s.len() as i128;
    let v = n * (sq as i128) - ((sr as i128) * (sr as i128) + (sg as i128) * (sg as i128) + (sb as i128) * (sb as i128));
    (v, n * n)
}

/// `variance_ge(a, b)`, computed exactly.
fn variance_at_least(a: (i128, i128), b: (i128, i128)) -> (r: bool)
    requires
        -0x4_0000_0000_0000_0000 <= a.0 <= 0x4_0000_0000_0000_0000, 0 <= a.1 <= 0x1_0000_0000_0000,
        -0x4_0000_0000_0000_0000 <= b.0 <= 0x4_0000_0000_0000_0000, 0 <= b.1 <= 0x1_0000_0000_0000,
    ensures r == (a.0 * b.1 >= b.0 * a.1),
{
    assert(-0x4_0000_0000_0000_0000 * 0x1_0000_0000_0000 <= a.0 * b.1 <= 0x4_0000_0000_0000_0000 * 0x1_0000_0000_0000)
        by (nonlinear_arith)
        requires -0x4_0000_0000_0000_0000 <= a.0 <= 0x4_0000_0000_0000_0000, 0 <= b.1 <= 0x1_0000_0000_0000;
    assert(-0x4_0000_0000_0000_0000 * 0x1_0000_0000_0000 <= b.0 * a.1 <= 0x4_0000_0000_0000_0000 * 0x1_0000_0000_0000)
        by (nonlinear_arith)
        requires -0x4_0000_0000_0000_0000 <= b.0 <= 0x4_0000_0000_0000_0000, 0 <= a.1 <= 0x1_0000_0000_0000;
    a.0 * b.1 >= b.0 * a.1
}

// ---------------------------------------------------------------------------
// Splitting a bucket
// ---------------------------------------------------------------------------

/// The colors of `s` whose channel `axis` equals `v`, in their order in `s`.
pub open spec fn key_class(s: Seq<Rgb>, axis: int, v: int) -> Seq<Rgb>
    decreases s.len(),
{
    if s.len() == 0 {
        Seq::empty()
    } else {
        let prev = key_class(s.drop_last(), axis, v);
        if channel(s.last(), axis) == v { prev.push(s.last()) } else { prev }
    }
}

/// The colors of `s` with channel `axis` below `k`, ordered by that channel
/// and, on equal channel values, by their order in `s`.
pub open spec fn sorted_below(s: Seq<Rgb>, axis: int, k: nat) -> Seq<Rgb>
    decreases k,
{
    if k == 0 { Seq::empty() } else { sorted_below(s, axis, (k - 1) as nat) + key_class(s, axis, k - 1) }
}

/// `s` stably sorted by channel `axis`.
pub open spec fn sort_by_channel(s: Seq<Rgb>, axis: int) -> Seq<Rgb> {
    sorted_below(s, axis, 256)
}

/// Smallest value of channel `axis` over `s` (255 when empty).
pub open spec fn channel_min(s: Seq<Rgb>, axis: int) -> u8
    decreases s.len(),
{
    if s.len() == 0 {
        255
    } else {
        let m = channel_min(s.drop_last(), axis);
        let c = channel(s.last(), axis);
        if c < m { c } else { m }
    }
}

/// Largest value of channel `axis` over `s` (0 when empty).
pub open spec fn channel_max(s: Seq<Rgb>, axis: int) -> u8
    decreases s.len(),
{
    if s.len() == 0 {
        0
    } else {
        let m = channel_max(s.drop_last(), axis);
        let c = channel(s.last(), axis);
        if c > m { c } else { m }
    }
}

pub open spec fn channel_range(s: Seq<Rgb>, axis: int) -> int {
    channel_max(s, axis) - channel_min(s, axis)
}

/// The channel of widest range (red, then green, on ties).
pub open spec fn longest_axis(s: Seq<Rgb>) -> int {
    if channel_range(s, 0) >= channel_range(s, 1) && channel_range(s, 0) >= channel_range(s, 2) {
        0
    } else if channel_range(s, 1) >= channel_range(s, 2) {
        1
    } else {
        2
    }
}

/// A bucket sorted along its longest axis and cut at its middle.
pub open spec fn split_spec(s: Seq<Rgb>) -> (Seq<Rgb>, Seq<Rgb>) {
    let t = sort_by_channel(s, longest_axis(s));
    let mid = s.len() / 2;
    (t.take(mid as int), t.skip(mid as int))
}

proof fn lemma_sorted_below_len(s: Seq<Rgb>, axis: int, k: nat)
    requires s.len() > 0,
    ensures
        sorted_below(s, axis, k).len() == sorted_below(s.drop_last(), axis, k).len()
            + if channel(s.last(), axis) < k { 1int } else { 0int },
    decreases k,
{
    if k > 0 {
        lemma_sorted_below_len(s, axis, (k - 1) as nat);
        assert(key_class(s, axis, k - 1).len() == key_class(s.drop_last(), axis, k - 1).len()
            + if channel(s.last(), axis) == k - 1 { 1int } else { 0int });
    }
}

pub(crate) proof fn lemma_sort_len(s: Seq<Rgb>, axis: int)
    ensures sort_by_channel(s, axis).len() == s.len(),
    decreases s.len(),
{
    if s.len() > 0 {
        lemma_sorted_below_len(s, axis, 256);
        lemma_sort_len(s.drop_last(), axis);
    } else {
        lemma_sorted_below_empty(s, axis, 256);
    }
}

proof fn lemma_sorted_below_empty(s: Seq<Rgb>, axis: int, k: nat)
    requires s.len() == 0,
    ensures sorted_below(s, axis, k).len() == 0,
    decreases k,
{
    if k > 0 {
        lemma_sorted_below_empty(s, axis, (k - 1) as nat);
    }
}

fn channel_exec(c: Rgb, axis: usize) -> (r: u8)
    ensures r == channel(c, axis as int),
{
    if axis == 0 { c.0 } else if axis == 1 { c.1 } else { c.2 }
}

/// `s` stably sorted by channel `axis`, by distributing its colors into one
/// bin per channel value.
fn sort_by_channel_exec(s: &[Rgb], axis: usize) -> (out: Vec<Rgb>)
    ensures out@ == sort_by_channel(s@, axis as int),
{
    let mut bins: Vec<Vec<Rgb>> = Vec::new();
    let mut v: usize = 0;
    while v < 256
        invariant
            v <= 256,
            bins@.len() == v,
            forall|j: int| 0 <= j < v ==> (#[trigger] bins@[j])@ == Seq::<Rgb>::empty(),
        decreases 256 - v,
    {
        bins.push(Vec::new());
        v += 1;
    }
    let mut i: usize = 0;
    while i < s.len()
        invariant
            i <= s@.len(),
            bins@.len() == 256,
            forall|j: int| 0 <= j < 256 ==> (#[trigger] bins@[j])@ == key_class(s@.take(i as int), axis as int, j),
        decreases s@.len() - i,
    {
        let c = s[i];
        let k = channel_exec(c, axis) as usize;
        let ghost old_bins = bins@;
        bins[k].push(c);
        proof {
            assert(s@.take(i + 1).drop_last() =~= s@.take(i as int));
            assert forall|j: int| 0 <= j < 256 implies (#[trigger] bins@[j])@ == key_class(s@.take(i + 1), axis as int, j) by {
                if j != k {
                    assert(bins@[j] == old_bins[j]);
                }
            }
        }
        i += 1;
    }
    assert(s@.take(s@.len() as int) =~= s@);
    let mut out: Vec<Rgb> = Vec::new();
    let mut v: usize = 0;
    while v < 256
        invariant
            v <= 256,
            bins@.len() == 256,
            forall|j: int| 0 <= j < 256 ==> (#[trigger] bins@[j])@ == key_class(s@, axis as int, j),
            out@ == sorted_below(s@, axis as int, v as nat),
        decreases 256 - v,
    {
        let bin = &bins[v];
        let mut t: usize = 0;
        let ghost start = out@;
        while t < bin.len()
            invariant
                t <= bin@.len(),
                out@ == start + bin@.take(t as int),
            decreases bin@.len() - t,
        {
            out.push(bin[t]);
            t += 1;
            assert(out@ =~= start + bin@.take(t as int));
        }
        assert(bin@.take(bin@.len() as int) =~= bin@);
        v += 1;
    }
    out
}

/// Sorts a bucket along its channel of widest range and splits it at the
/// median: the first `len / 2` colors, then the rest.
pub fn split_bucket_median(colors: &[Rgb]) -> (r: (Vec<Rgb>, Vec<Rgb>))
    ensures
        r.0@ == split_spec(colors@).0,
        r.1@ == split_spec(colors@).1,
        r.0@.len() == colors@.len() / 2,
        r.1@.len() == colors@.len() - colors@.len() / 2,
{
    let mut rmin: u8 = 255;
    let mut rmax: u8 = 0;
    let mut gmin: u8 = 255;
    let mut gmax: u8 = 0;
    let mut bmin: u8 = 255;
    let mut bmax: u8 = 0;
    let mut i: usize = 0;
    while i < colors.len()
        invariant
            i <= colors@.len(),
            rmin == channel_min(colors@.take(i as int), 0), rmax == channel_max(colors@.take(i as int), 0),
            gmin == channel_min(colors@.take(i as int), 1), gmax == channel_max(colors@.take(i as int), 1),
            bmin == channel_min(colors@.take(i as int), 2), bmax == channel_max(colors@.take(i as int), 2),
        decreases colors@.len() - i,
    {
        assert(colors@.take(i + 1).drop_last() =~= colors@.take(i as int));
        let c = colors[i];
        if c.0 < rmin { rmin = c.0; }
        if c.0 > rmax { rmax = c.0; }
        if c.1 < gmin { gmin = c.1; }
        if c.1 > gmax { gmax = c.1; }
        if c.2 < bmin { bmin = c.2; }
        if c.2 > bmax { bmax = c.2; }
        i += 1;
    }
    assert(colors@.take(colors@.len() as int) =~= colors@);
    let r_range: i32 = rmax as i32 - rmin as i32;
    let g_range: i32 = gmax as i32 - gmin as i32;
    let b_range: i32 = bmax as i32 - bmin as i32;
    let axis: usize = if r_range >= g_range && r_range >= b_range {
        0
    } else if g_range >= b_range {
        1
    } else {
        2
    };
    let sorted = sort_by_channel_exec(colors, axis);
    proof {
        lemma_sort_len(colors@, axis as int);
    }
    let mid = sorted.len() / 2;
    let mut b1: Vec<Rgb> = Vec::new();
    let mut b2: Vec<Rgb> = Vec::new();
    let mut k: usize = 0;
    while k < sorted.len()
        invariant
            mid == sorted@.len() / 2,
            k <= sorted@.len(),
            k <= mid ==> b1@ == sorted@.take(k as int) && b2@.len() == 0,
            k > mid ==> b1@ == sorted@.take(mid as int) && b2@ == sorted@.subrange(mid as int, k as int),
        decreases sorted@.len() - k,
    {
        if k < mid {
            b1.push(sorted[k]);
            assert(b1@ =~= sorted@.take(k + 1));
        } else {
            b2.push(sorted[k]);
            assert(b2@ =~= sorted@.subrange(mid as int, k + 1));
        }
        k += 1;
    }
    if sorted.len() <= mid {
        assert(b2@ =~= sorted@.skip(mid as int));
    } else {
        assert(b2@ =~= sorted@.skip(mid as int));
    }
    (b1, b2)
}

// ---------------------------------------------------------------------------
// Median cut
// ---------------------------------------------------------------------------

/// The buckets as color sequences.
pub open spec fn bucket_views(b: Seq<Vec<Rgb>>) -> Seq<Seq<Rgb>> {
    b.map_values(|v: Vec<Rgb>| v@)
}

/// Among buckets `0..k` of more than one color, the one of largest variance
/// (the last such on ties).
pub open spec fn widest_bucket_below(bk: Seq<Seq<Rgb>>, k: nat) -> Option<int>
    decreases k,
{
    if k == 0 {
        None
    } else {
        let prev = widest_bucket_below(bk, (k - 1) as nat);
        let i = k - 1;
        if bk[i].len() > 1 && (prev is None || variance_ge(bk[i], bk[prev->0])) { Some(i) } else { prev }
    }
}

/// Some bucket has more than one color.
pub open spec fn any_splittable(bk: Seq<Seq<Rgb>>) -> bool {
    exists|i: int| 0 <= i < bk.len() && (#[trigger] bk[i]).len() > 1
}

/// One median-cut step: the widest bucket is taken out and its two halves
/// appended.
pub open spec fn median_cut_step(bk: Seq<Seq<Rgb>>) -> Seq<Seq<Rgb>> {
    let i = widest_bucket_below(bk, bk.len())->0;
    let (b1, b2) = split_spec(bk[i]);
    let rest = bk.remove(i);
    let r1 = if b1.len() > 0 { rest.push(b1) } else { rest };
    if b2.len() > 0 { r1.push(b2) } else { r1 }
}

/// Median-cut steps while there are fewer than `max` buckets and one can be
/// split, at most `fuel` of them.
pub open spec fn median_cut_buckets(bk: Seq<Seq<Rgb>>, max: nat, fuel: nat) -> Seq<Seq<Rgb>>
    decreases fuel,
{
    if fuel == 0 || !(bk.len() < max && any_splittable(bk)) {
        bk
    } else {
        median_cut_buckets(median_cut_step(bk), max, (fuel - 1) as nat)
    }
}

/// The opaque palette entry of a color.
pub open spec fn entry_of(c: Rgb) -> PaletteEntry {
    PaletteEntry { r: c.0, g: c.1, b: c.2, a: 255 }
}

/// The opaque palette entry of a bucket's mean color (rounded down).
pub open spec fn bucket_mean(b: Seq<Rgb>) -> PaletteEntry {
    PaletteEntry {
        r: (channel_sum(b, 0) / (b.len() as int)) as u8,
        g: (channel_sum(b, 1) / (b.len() as int)) as u8,
        b: (channel_sum(b, 2) / (b.len() as int)) as u8,
        a: 255,
    }
}

/// The palette entries median cut gives for distinct colors `colors`: the
/// colors themselves when there are at most `max_colors`, else the means of
/// the buckets of `colors` cut until there are `max_colors`.
pub open spec fn median_cut_entries(colors: Seq<Rgb>, max_colors: nat) -> Seq<PaletteEntry> {
    if colors.len() <= max_colors {
        colors.map_values(|c: Rgb| entry_of(c))
    } else {
        let bk = median_cut_buckets(seq![colors], max_colors, max_colors);
        bk.map_values(|b: Seq<Rgb>| bucket_mean(b))
    }
}

/// What `quantize_median_cut` yields: the palette entries, or the error.
pub open spec fn median_cut_spec(rgba: Seq<u8>, max_colors: nat) -> Result<Seq<PaletteEntry>, CafeError> {
    if rgba.len() % 4 != 0 {
        Err(CafeError::UnsupportedFeature("RGBA data length is not a multiple of 4", None))
    } else if max_colors == 0 || max_colors > 256 {
        Err(CafeError::UnsupportedFeature("max_colors must be between 1 and 256", Some(max_colors as u64)))
    } else if opaque_colors(rgba).len() == 0 {
        Err(CafeError::UnsupportedFeature("no opaque pixel to quantize", None))
    } else {
        Ok(median_cut_entries(opaque_colors(rgba), max_colors))
    }
}

/// Index of the bucket `median_cut_step` splits.
fn widest_bucket(buckets: &Vec<Vec<Rgb>>) -> (r: Option<usize>)
    requires forall|i: int| 0 <= i < buckets@.len() ==> (#[trigger] buckets@[i])@.len() <= 0x100_0000,
    ensures
        match r {
            Some(i) => widest_bucket_below(bucket_views(buckets@), buckets@.len() as nat) == Some(i as int),
            None => widest_bucket_below(bucket_views(buckets@), buckets@.len() as nat) is None,
        },
{
    let ghost bk = bucket_views(buckets@);
    let mut best: Option<usize> = None;
    let mut best_parts: (i128, i128) = (0, 0);
    let mut i: usize = 0;
    while i < buckets.len()
        invariant
            bk == bucket_views(buckets@),
            i <= buckets@.len(),
            forall|j: int| 0 <= j < buckets@.len() ==> (#[trigger] buckets@[j])@.len() <= 0x100_0000,
            match best {
                Some(b) => widest_bucket_below(bk, i as nat) == Some(b as int) && b < i
                    && best_parts.0 == scaled_variance(bk[b as int])
                    && best_parts.1 == bk[b as int].len() * bk[b as int].len()
                    && -0x4_0000_0000_0000_0000 <= best_parts.0 <= 0x4_0000_0000_0000_0000
                    && 0 <= best_parts.1 <= 0x1_0000_0000_0000,
                None => widest_bucket_below(bk, i as nat) is None,
            },
        decreases buckets@.len() - i,
    {
        let b = &buckets[i];
        assert(b@ == bk[i as int]);
        if b.len() > 1 {
            let parts = variance_parts(b.as_slice());
            let take = match best {
                None => true,
                Some(_) => variance_at_least(parts, best_parts),
            };
            if take {
                best = Some(i);
                best_parts = parts;
            }
        }
        i += 1;
    }
    best
}

fn bucket_mean_exec(b: &[Rgb]) -> (e: PaletteEntry)
    requires 0 < b@.len() <= 0x100_0000,
    ensures e == bucket_mean(b@),
{
    let (sr, sg, sb, _) = bucket_sums(b);
    let n = b.len() as u64;
    proof {
        lemma_sums_bound(b@);
        vstd::arithmetic::div_mod::lemma_div_is_ordered(sr as int, 255 * n, n as int);
        vstd::arithmetic::div_mod::lemma_div_is_ordered(sg as int, 255 * n, n as int);
        vstd::arithmetic::div_mod::lemma_div_is_ordered(sb as int, 255 * n, n as int);
        vstd::arithmetic::div_mod::lemma_div_multiples_vanish(255, n as int);
    }
    PaletteEntry { r: (sr / n) as u8, g: (sg / n) as u8, b: (sb / n) as u8, a: 255 }
}

/// The palette of the given colors themselves, one opaque entry each, in
/// their order.
fn palette_from_unique_colors(colors: &Vec<Rgb>) -> (p: Palette)
    ensures
        p.entries@ == colors@.map_values(|c: Rgb| entry_of(c)),
        !p.has_alpha,
{
    let mut entries: Vec<PaletteEntry> = Vec::new();
    let mut i: usize = 0;
    while i < colors.len()
        invariant
            i <= colors@.len(),
            entries@ == colors@.take(i as int).map_values(|c: Rgb| entry_of(c)),
        decreases colors@.len() - i,
    {
        let c = colors[i];
        entries.push(PaletteEntry { r: c.0, g: c.1, b: c.2, a: 255 });
        i += 1;
        assert(entries@ =~= colors@.take(i as int).map_values(|c: Rgb| entry_of(c)));
    }
    assert(colors@.take(colors@.len() as int) =~= colors@);
    let mut palette = Palette::new(false);
    palette.entries = entries;
    palette
}

/// Median-cut quantization (Heckbert): the distinct opaque colors of `rgba`
/// are cut into at most `max_colors` buckets, each time splitting the bucket
/// of largest variance at the median of its channel of widest range; each
/// bucket gives its mean color. With at most `max_colors` distinct colors,
/// those colors are the palette. Rejects data that is not whole RGBA pixels,
/// `max_colors` outside `1..=256`, and images with no opaque pixel.
pub fn quantize_median_cut(rgba: &[u8], max_colors: usize) -> (r: Result<Palette, CafeError>)
    ensures
        match r {
            Ok(p) => median_cut_spec(rgba@, max_colors as nat) == Ok::<Seq<PaletteEntry>, CafeError>(p.entries@)
                && !p.has_alpha && p.entries@.len() > 0,
            Err(e) => median_cut_spec(rgba@, max_colors as nat) == Err::<Seq<PaletteEntry>, CafeError>(e),
        },
{
    if rgba.len() % 4 != 0 {
        return Err(CafeError::UnsupportedFeature("RGBA data length is not a multiple of 4", None));
    }
    if max_colors == 0 || max_colors > 256 {
        return Err(CafeError::UnsupportedFeature("max_colors must be between 1 and 256", Some(max_colors as u64)));
    }
    let colors = match collect_opaque_colors(rgba) {
        Ok(c) => c,
        Err(e) => return Err(e),
    };
    proof {
        lemma_opaque_colors_below_len(rgba@, 0x100_0000);
    }
    if colors.len() <= max_colors {
        return Ok(palette_from_unique_colors(&colors));
    }
    let ghost max = max_colors as nat;
    let mut buckets: Vec<Vec<Rgb>> = Vec::new();
    buckets.push(colors);
    let ghost init = bucket_views(buckets@);
    assert(init =~= seq![opaque_colors(rgba@)]);
    let mut fuel: usize = max_colors;
    loop
        invariant
            max == max_colors, 1 <= max_colors <= 256,
            fuel + buckets@.len() == max_colors + 1,
            buckets@.len() >= 1,
            median_cut_buckets(bucket_views(buckets@), max, fuel as nat) == median_cut_buckets(init, max, max),
            forall|i: int| 0 <= i < buckets@.len() ==> 0 < (#[trigger] buckets@[i])@.len() <= 0x100_0000,
        ensures
            median_cut_buckets(init, max, max) == bucket_views(buckets@),
            buckets@.len() >= 1,
            forall|i: int| 0 <= i < buckets@.len() ==> 0 < (#[trigger] buckets@[i])@.len() <= 0x100_0000,
        decreases fuel,
    {
        let ghost bk = bucket_views(buckets@);
        if buckets.len() >= max_colors {
            break;
        }
        let chosen = widest_bucket(&buckets);
        let idx = match chosen {
            None => {
                proof {
                    if any_splittable(bk) {
                        let j = choose|j: int| 0 <= j < bk.len() && (#[trigger] bk[j]).len() > 1;
                        lemma_widest_some(bk, bk.len() as nat, j);
                    }
                }
                break;
            }
            Some(i) => i,
        };
        proof {
            lemma_widest_splittable(bk, bk.len() as nat);
            assert(bk[idx as int].len() > 1);
        }
        let bucket = buckets.remove(idx);
        let (b1, b2) = split_bucket_median(bucket.as_slice());
        if b1.len() > 0 {
            buckets.push(b1);
        }
        if b2.len() > 0 {
            buckets.push(b2);
        }
        proof {
            assert(bucket_views(buckets@) =~= median_cut_step(bk));
        }
        fuel = fuel - 1;
    }
    let mut entries: Vec<PaletteEntry> = Vec::new();
    let mut i: usize = 0;
    while i < buckets.len()
        invariant
            i <= buckets@.len(),
            forall|j: int| 0 <= j < buckets@.len() ==> 0 < (#[trigger] buckets@[j])@.len() <= 0x100_0000,
            entries@ == bucket_views(buckets@).take(i as int).map_values(|b: Seq<Rgb>| bucket_mean(b)),
        decreases buckets@.len() - i,
    {
        let b = &buckets[i];
        if b.len() > 0 {
            let e = bucket_mean_exec(b.as_slice());
            entries.push(e);
        }
        i += 1;
        assert(entries@ =~= bucket_views(buckets@).take(i as int).map_values(|b: Seq<Rgb>| bucket_mean(b)));
    }
    assert(bucket_views(buckets@).take(buckets@.len() as int) =~= bucket_views(buckets@));
    let mut palette = Palette::new(false);
    palette.entries = entries;
    Ok(palette)
}

proof fn lemma_widest_some(bk: Seq<Seq<Rgb>>, k: nat, j: int)
    requires 0 <= j < k <= bk.len(), bk[j].len() > 1,
    ensures widest_bucket_below(bk, k) is Some,
    decreases k,
{
    if j < k - 1 {
        lemma_widest_some(bk, (k - 1) as nat, j);
    }
}

proof fn lemma_widest_splittable(bk: Seq<Seq<Rgb>>, k: nat)
    requires k <= bk.len(),
    ensures
        widest_bucket_below(bk, k) matches Some(i) ==> 0 <= i < k && bk[i].len() > 1,
    decreases k,
{
    if k > 0 {
        lemma_widest_splittable(bk, (k - 1) as nat);
    }
}


// ---------------------------------------------------------------------------
// Pixel counts of the distinct colors
// ---------------------------------------------------------------------------

/// The `0xRRGGBB` code of a color.
pub open spec fn code_of(c: Rgb) -> int {
    c.0 * 65536 + c.1 * 256 + c.2
}

/// The number of pixels among the first `n` of `rgba` that are opaque with
/// color `c`.
pub open spec fn pixel_count(rgba: Seq<u8>, c: Rgb, n: nat) -> nat
    decreases n,
{
    if n == 0 {
        0
    } else {
        pixel_count(rgba, c, (n - 1) as nat) + if opaque_pixel_is(rgba, n - 1, c) { 1nat } else { 0nat }
    }
}

/// The pixel count of each of `colors` in `rgba`.
pub open spec fn color_weights(rgba: Seq<u8>, colors: Seq<Rgb>) -> Seq<u64> {
    colors.map_values(|c: Rgb| pixel_count(rgba, c, rgba.len() / 4) as u64)
}

/// Colors in strictly increasing code order.
pub open spec fn strictly_sorted(s: Seq<Rgb>) -> bool {
    forall|i: int, j: int| 0 <= i < j < s.len() ==> code_of(#[trigger] s[i]) < code_of(#[trigger] s[j])
}

pub(crate) proof fn lemma_pixel_count_bound(rgba: Seq<u8>, c: Rgb, n: nat)
    ensures pixel_count(rgba, c, n) <= n,
    decreases n,
{
    if n > 0 {
        lemma_pixel_count_bound(rgba, c, (n - 1) as nat);
    }
}

/// The distinct opaque colors below a code are strictly sorted, below that
/// code, and each occurs in `rgba`; every color below the code that occurs
/// is among them.
proof fn lemma_opaque_colors_below_shape(rgba: Seq<u8>, k: nat)
    requires k <= 0x100_0000,
    ensures
        strictly_sorted(opaque_colors_below(rgba, k)),
        forall|i: int| 0 <= i < opaque_colors_below(rgba, k).len() ==>
            code_of(#[trigger] opaque_colors_below(rgba, k)[i]) < k,
        forall|c: Rgb| code_of(c) < k && has_opaque_color(rgba, c) ==>
            opaque_colors_below(rgba, k).contains(c),
    decreases k,
{
    if k > 0 {
        let prev = opaque_colors_below(rgba, (k - 1) as nat);
        lemma_opaque_colors_below_shape(rgba, (k - 1) as nat);
        lemma_code_of_rgb(k - 1);
        let top = rgb_of_code(k - 1);
        let cur = opaque_colors_below(rgba, k);
        assert forall|c: Rgb| code_of(c) < k && has_opaque_color(rgba, c) implies cur.contains(c) by {
            lemma_rgb_code(c);
            if code_of(c) == k - 1 {
                assert(cur[cur.len() - 1] == c);
            } else {
                let i = choose|i: int| 0 <= i < prev.len() && prev[i] == c;
                assert(cur[i] == c);
            }
        }
    }
}

/// Index of `c` in `colors`, found by binary search on codes.
fn find_color(colors: &Vec<Rgb>, c: Rgb) -> (r: usize)
    requires
        strictly_sorted(colors@),
        colors@.contains(c),
    ensures
        r < colors@.len(),
        colors@[r as int] == c,
{
    let key: u32 = (c.0 as u32) * 65536 + (c.1 as u32) * 256 + (c.2 as u32);
    let ghost w = choose|w: int| 0 <= w < colors@.len() && colors@[w] == c;
    let mut lo: usize = 0;
    let mut hi: usize = colors.len();
    while lo + 1 < hi
        invariant
            strictly_sorted(colors@),
            0 <= w < colors@.len(), colors@[w] == c,
            key == code_of(c),
            lo <= w < hi <= colors@.len(),
        decreases hi - lo,
    {
        let mid = lo + (hi - lo) / 2;
        let m = colors[mid];
        let mkey: u32 = (m.0 as u32) * 65536 + (m.1 as u32) * 256 + (m.2 as u32);
        if mkey <= key {
            lo = mid;
        } else {
            hi = mid;
        }
    }
    proof {
        lemma_rgb_code(colors@[lo as int]);
        lemma_rgb_code(c);
    }
    lo
}

/// How many opaque pixels of `rgba` have each of `colors`, the distinct
/// opaque colors of `rgba`.
fn color_weights_exec(rgba: &[u8], colors: &Vec<Rgb>) -> (w: Vec<u64>)
    requires colors@ == opaque_colors(rgba@),
    ensures w@ == color_weights(rgba@, colors@),
{
    proof {
        lemma_opaque_colors_below_shape(rgba@, 0x100_0000);
    }
    let k = colors.len();
    let mut w: Vec<u64> = vec![0u64; k];
    let len = rgba.len();
    let n = len / 4;
    proof {
        vstd::arithmetic::div_mod::lemma_fundamental_div_mod(len as int, 4);
    }
    let mut p: usize = 0;
    while p < n
        invariant
            n == rgba@.len() / 4,
            4 * n <= rgba@.len(),
            len == rgba@.len(),
            p <= n,
            k == colors@.len(),
            w@.len() == k,
            strictly_sorted(colors@),
            colors@ == opaque_colors(rgba@),
            forall|c: Rgb| code_of(c) < 0x100_0000 && has_opaque_color(rgba@, c) ==> colors@.contains(c),
            forall|i: int| 0 <= i < k ==> #[trigger] w@[i] == pixel_count(rgba@, colors@[i], p as nat),
        decreases n - p,
    {
        let a = rgba[4 * p + 3];
        let ghost w0 = w@;
        if a > 0 {
            let c: Rgb = (rgba[4 * p], rgba[4 * p + 1], rgba[4 * p + 2]);
            proof {
                assert(opaque_pixel_is(rgba@, p as int, c));
                lemma_rgb_code(c);
            }
            let idx = find_color(colors, c);
            proof {
                lemma_pixel_count_bound(rgba@, c, p as nat);
            }
            w.set(idx, w[idx] + 1);
            proof {
                assert forall|i: int| 0 <= i < k implies #[trigger] w@[i] == pixel_count(rgba@, colors@[i], (p + 1) as nat) by {
                    if i != idx {
                        lemma_rgb_code(colors@[i]);
                        assert(colors@[i] != c);
                        assert(!opaque_pixel_is(rgba@, p as int, colors@[i]));
                        assert(w@[i] == w0[i]);
                    }
                }
            }
        } else {
            proof {
                assert forall|i: int| 0 <= i < k implies #[trigger] w@[i] == pixel_count(rgba@, colors@[i], (p + 1) as nat) by {
                    assert(!opaque_pixel_is(rgba@, p as int, colors@[i]));
                }
            }
        }
        p += 1;
    }
    assert(w@ =~= color_weights(rgba@, colors@));
    w
}

// ---------------------------------------------------------------------------
// k-means (Lloyd) refinement
// ---------------------------------------------------------------------------

/// A cluster center in fixed point: each channel times 65536.
pub type Centroid = (u64, u64, u64);

/// Fixed-point scale of centroid channels.
pub const FP_ONE: u64 = 65536;

/// The most assignment/update rounds k-means runs.
pub const MAX_KMEANS_ITERATIONS: usize = 20;

/// Every channel of every centroid lies in `0..=255` (in fixed point).
pub open spec fn centroids_in_range(cens: Seq<Centroid>) -> bool {
    forall|j: int| 0 <= j < cens.len() ==>
        (#[trigger] cens[j]).0 <= 255 * 65536 && cens[j].1 <= 255 * 65536 && cens[j].2 <= 255 * 65536
}

/// Squared distance between a color and a centroid, in fixed point (the
/// real squared RGB distance times `65536^2`).
pub open spec fn fp_dist(c: Rgb, m: Centroid) -> int {
    let dr = c.0 * 65536 - m.0;
    let dg = c.1 * 65536 - m.1;
    let db = c.2 * 65536 - m.2;
    dr * dr + dg * dg + db * db
}

/// The first of centroids `0..k` nearest to `c` (index 0 when `k <= 1`).
pub open spec fn nearest_below(c: Rgb, cens: Seq<Centroid>, k: nat) -> usize
    decreases k,
{
    if k <= 1 {
        0
    } else {
        let prev = nearest_below(c, cens, (k - 1) as nat);
        if fp_dist(c, cens[k - 1]) < fp_dist(c, cens[prev as int]) { (k - 1) as usize } else { prev }
    }
}

/// Assignment step: each color's nearest centroid.
pub open spec fn assign_spec(colors: Seq<Rgb>, cens: Seq<Centroid>) -> Seq<usize> {
    colors.map_values(|c: Rgb| nearest_below(c, cens, cens.len()))
}

/// Total weight of the first `n` colors assigned to cluster `j`.
pub open spec fn cluster_weight(weights: Seq<u64>, asg: Seq<usize>, j: int, n: nat) -> int
    decreases n,
{
    if n == 0 {
        0
    } else {
        cluster_weight(weights, asg, j, (n - 1) as nat) + if asg[n - 1] == j { weights[n - 1] as int } else { 0 }
    }
}

/// Weighted sum of channel `axis` over the first `n` colors assigned to
/// cluster `j`.
pub open spec fn cluster_chan(colors: Seq<Rgb>, weights: Seq<u64>, asg: Seq<usize>, j: int, axis: int, n: nat) -> int
    decreases n,
{
    if n == 0 {
        0
    } else {
        cluster_chan(colors, weights, asg, j, axis, (n - 1) as nat)
            + if asg[n - 1] == j { channel(colors[n - 1], axis) * weights[n - 1] } else { 0 }
    }
}

/// Fixed-point weighted mean `sum / w` (rounded down to 1/65536).
pub open spec fn fp_mean(sum: int, w: int) -> u64 {
    (sum * 65536 / w) as u64
}

/// Update step: each cluster with members moves to the weighted mean of its
/// colors; an empty one keeps its place.
pub open spec fn update_spec(colors: Seq<Rgb>, weights: Seq<u64>, asg: Seq<usize>, cens: Seq<Centroid>) -> Seq<Centroid> {
    Seq::new(cens.len(), |j: int| {
        let n = colors.len();
        let w = cluster_weight(weights, asg, j, n);
        if w > 0 {
            (
                fp_mean(cluster_chan(colors, weights, asg, j, 0, n), w),
                fp_mean(cluster_chan(colors, weights, asg, j, 1, n), w),
                fp_mean(cluster_chan(colors, weights, asg, j, 2, n), w),
            )
        } else {
            cens[j]
        }
    })
}

/// Up to `rounds` Lloyd rounds (assign, then update) from centroids `cens`
/// and assignments `asg`, stopping after the first round that leaves the
/// assignments unchanged. Yields the last centroids and assignments.
pub open spec fn kmeans_rounds(
    colors: Seq<Rgb>,
    weights: Seq<u64>,
    cens: Seq<Centroid>,
    asg: Seq<usize>,
    rounds: nat,
) -> (Seq<Centroid>, Seq<usize>)
    decreases rounds,
{
    if rounds == 0 {
        (cens, asg)
    } else {
        let asg2 = assign_spec(colors, cens);
        let cens2 = update_spec(colors, weights, asg2, cens);
        if asg2 == asg {
            (cens2, asg2)
        } else {
            kmeans_rounds(colors, weights, cens2, asg2, (rounds - 1) as nat)
        }
    }
}

/// A fixed-point channel rounded to the nearest integer (halves up), at
/// most 255.
pub open spec fn fp_round(v: u64) -> u8 {
    let q = (v + 32768) / 65536;
    if q > 255 { 255 } else { q as u8 }
}

/// The opaque palette entry of a centroid.
pub open spec fn centroid_entry(m: Centroid) -> PaletteEntry {
    PaletteEntry { r: fp_round(m.0), g: fp_round(m.1), b: fp_round(m.2), a: 255 }
}

/// The entries of the centroids among `0..k` that some color is assigned
/// to, in centroid order.
pub open spec fn kept_entries(cens: Seq<Centroid>, asg: Seq<usize>, k: nat) -> Seq<PaletteEntry>
    decreases k,
{
    if k == 0 {
        Seq::empty()
    } else {
        let prev = kept_entries(cens, asg, (k - 1) as nat);
        if asg.contains((k - 1) as usize) { prev.push(centroid_entry(cens[k - 1])) } else { prev }
    }
}

/// Palette entries as fixed-point centroids.
pub open spec fn initial_centroids(entries: Seq<PaletteEntry>) -> Seq<Centroid> {
    entries.map_values(|e: PaletteEntry| ((e.r * 65536) as u64, (e.g * 65536) as u64, (e.b * 65536) as u64))
}

/// The palette entries k-means gives for the distinct opaque colors `colors`
/// of `rgba`, when there are more than `max_colors` of them: centroids start
/// at the median-cut palette, every color weighs its pixel count, and the
/// centroids with members after the Lloyd rounds are the palette.
pub open spec fn kmeans_entries(rgba: Seq<u8>, colors: Seq<Rgb>, max_colors: nat) -> Seq<PaletteEntry> {
    let init = initial_centroids(median_cut_entries(colors, max_colors));
    let asg0 = Seq::new(colors.len(), |i: int| 0usize);
    let fin = kmeans_rounds(colors, color_weights(rgba, colors), init, asg0, MAX_KMEANS_ITERATIONS as nat);
    kept_entries(fin.0, fin.1, fin.0.len())
}

/// What `quantize_kmeans` yields: the palette entries, or the error.
pub open spec fn kmeans_spec(rgba: Seq<u8>, max_colors: nat) -> Result<Seq<PaletteEntry>, CafeError> {
    if rgba.len() % 4 != 0 {
        Err(CafeError::UnsupportedFeature("RGBA data length is not a multiple of 4", None))
    } else if max_colors == 0 || max_colors > 256 {
        Err(CafeError::UnsupportedFeature("max_colors must be between 1 and 256", Some(max_colors as u64)))
    } else if opaque_colors(rgba).len() == 0 {
        Err(CafeError::UnsupportedFeature("no opaque pixel to quantize", None))
    } else if opaque_colors(rgba).len() <= max_colors {
        Ok(opaque_colors(rgba).map_values(|c: Rgb| entry_of(c)))
    } else {
        Ok(kmeans_entries(rgba, opaque_colors(rgba), max_colors))
    }
}

fn fp_dist_exec(c: Rgb, m: Centroid) -> (d: u64)
    requires m.0 <= 255 * 65536, m.1 <= 255 * 65536, m.2 <= 255 * 65536,
    ensures d == fp_dist(c, m),
{
    let dr: i64 = (c.0 as i64) * 65536 - (m.0 as i64);
    let dg: i64 = (c.1 as i64) * 65536 - (m.1 as i64);
    let db: i64 = (c.2 as i64) * 65536 - (m.2 as i64);
    assert(dr * dr <= 16711680 * 16711680 && 0 <= dr * dr) by (nonlinear_arith) requires -16711680 <= dr <= 16711680;
    assert(dg * dg <= 16711680 * 16711680 && 0 <= dg * dg) by (nonlinear_arith) requires -16711680 <= dg <= 16711680;
    assert(db * db <= 16711680 * 16711680 && 0 <= db * db) by (nonlinear_arith) requires -16711680 <= db <= 16711680;
    (dr * dr + dg * dg + db * db) as u64
}

/// Index of the first centroid nearest to `c`.
fn nearest_centroid(c: Rgb, cens: &Vec<Centroid>) -> (r: usize)
    requires
        1 <= cens@.len(),
        centroids_in_range(cens@),
    ensures
        r == nearest_below(c, cens@, cens@.len() as nat),
        r < cens@.len(),
{
    let mut best: usize = 0;
    let mut best_d = fp_dist_exec(c, cens[0]);
    let mut k: usize = 1;
    while k < cens.len()
        invariant
            1 <= k <= cens@.len(),
            centroids_in_range(cens@),
            best == nearest_below(c, cens@, k as nat),
            best < k,
            best_d == fp_dist(c, cens@[best as int]),
        decreases cens@.len() - k,
    {
        let m = cens[k];
        let d = fp_dist_exec(c, m);
        if d < best_d {
            best = k;
            best_d = d;
        }
        k += 1;
    }
    best
}

/// Assignment step over all colors.
fn assign_all(colors: &Vec<Rgb>, cens: &Vec<Centroid>) -> (a: Vec<usize>)
    requires
        1 <= cens@.len(),
        centroids_in_range(cens@),
    ensures
        a@ == assign_spec(colors@, cens@),
        forall|i: int| 0 <= i < a@.len() ==> #[trigger] a@[i] < cens@.len(),
{
    let mut a: Vec<usize> = Vec::new();
    let mut i: usize = 0;
    while i < colors.len()
        invariant
            i <= colors@.len(),
            1 <= cens@.len(),
            centroids_in_range(cens@),
            a@ == assign_spec(colors@.take(i as int), cens@),
            forall|t: int| 0 <= t < a@.len() ==> #[trigger] a@[t] < cens@.len(),
        decreases colors@.len() - i,
    {
        let r = nearest_centroid(colors[i], cens);
        a.push(r);
        i += 1;
        assert(a@ =~= assign_spec(colors@.take(i as int), cens@));
    }
    assert(colors@.take(colors@.len() as int) =~= colors@);
    a
}

/// Whether two assignments are equal.
fn same_assignments(a: &Vec<usize>, b: &Vec<usize>) -> (r: bool)
    ensures r == (a@ == b@),
{
    if a.len() != b.len() {
        return false;
    }
    let mut i: usize = 0;
    while i < a.len()
        invariant
            i <= a@.len(),
            a@.len() == b@.len(),
            forall|t: int| 0 <= t < i ==> a@[t] == b@[t],
        decreases a@.len() - i,
    {
        if a[i] != b[i] {
            return false;
        }
        i += 1;
    }
    assert(a@ =~= b@);
    true
}

proof fn lemma_cluster_bounds(colors: Seq<Rgb>, weights: Seq<u64>, asg: Seq<usize>, j: int, n: nat)
    requires n <= colors.len(), n <= weights.len(), n <= asg.len(),
    ensures
        0 <= cluster_weight(weights, asg, j, n) <= n * 0x1_0000_0000_0000_0000,
        0 <= cluster_chan(colors, weights, asg, j, 0, n) <= 255 * cluster_weight(weights, asg, j, n),
        0 <= cluster_chan(colors, weights, asg, j, 1, n) <= 255 * cluster_weight(weights, asg, j, n),
        0 <= cluster_chan(colors, weights, asg, j, 2, n) <= 255 * cluster_weight(weights, asg, j, n),
    decreases n,
{
    if n > 0 {
        lemma_cluster_bounds(colors, weights, asg, j, (n - 1) as nat);
        let c = colors[n - 1];
        let w = weights[n - 1] as int;
        assert(0 <= c.0 * w <= 255 * w && 0 <= c.1 * w <= 255 * w && 0 <= c.2 * w <= 255 * w) by (nonlinear_arith)
            requires 0 <= c.0 <= 255, 0 <= c.1 <= 255, 0 <= c.2 <= 255, 0 <= w;
    }
}

/// Update step over all clusters.
fn update_centroids(colors: &Vec<Rgb>, weights: &Vec<u64>, asg: &Vec<usize>, cens: &Vec<Centroid>) -> (out: Vec<Centroid>)
    requires
        colors@.len() <= 0x100_0000,
        weights@.len() == colors@.len(),
        asg@.len() == colors@.len(),
        forall|i: int| 0 <= i < asg@.len() ==> #[trigger] asg@[i] < cens@.len(),
        centroids_in_range(cens@),
    ensures
        out@ == update_spec(colors@, weights@, asg@, cens@),
        centroids_in_range(out@),
{
    let k = cens.len();
    let n = colors.len();
    let mut sums: Vec<(u128, u128, u128, u128)> = Vec::new();
    while sums.len() < k
        invariant
            sums@.len() <= k,
            forall|j: int| 0 <= j < sums@.len() ==> #[trigger] sums@[j] == (0u128, 0u128, 0u128, 0u128),
        decreases k - sums@.len(),
    {
        sums.push((0u128, 0u128, 0u128, 0u128));
    }
    let mut i: usize = 0;
    while i < n
        invariant
            n == colors@.len(), n <= 0x100_0000,
            weights@.len() == n, asg@.len() == n,
            k == cens@.len(),
            forall|t: int| 0 <= t < asg@.len() ==> #[trigger] asg@[t] < cens@.len(),
            i <= n,
            sums@.len() == k,
            forall|j: int| 0 <= j < k ==> {
                &&& (#[trigger] sums@[j]).0 == cluster_chan(colors@, weights@, asg@, j, 0, i as nat)
                &&& sums@[j].1 == cluster_chan(colors@, weights@, asg@, j, 1, i as nat)
                &&& sums@[j].2 == cluster_chan(colors@, weights@, asg@, j, 2, i as nat)
                &&& sums@[j].3 == cluster_weight(weights@, asg@, j, i as nat)
            },
        decreases n - i,
    {
        let j = asg[i];
        let c = colors[i];
        let w = weights[i];
        let old = sums[j];
        proof {
            lemma_cluster_bounds(colors@, weights@, asg@, j as int, i as nat);
            assert(i * 0x1_0000_0000_0000_0000 <= 0x100_0000 * 0x1_0000_0000_0000_0000);
            assert((c.0 as int) * (w as int) <= 255 * 0x1_0000_0000_0000_0000) by (nonlinear_arith)
                requires c.0 <= 255, w < 0x1_0000_0000_0000_0000;
            assert((c.1 as int) * (w as int) <= 255 * 0x1_0000_0000_0000_0000) by (nonlinear_arith)
                requires c.1 <= 255, w < 0x1_0000_0000_0000_0000;
            assert((c.2 as int) * (w as int) <= 255 * 0x1_0000_0000_0000_0000) by (nonlinear_arith)
                requires c.2 <= 255, w < 0x1_0000_0000_0000_0000;
            assert(0 <= (c.0 as int) * (w as int) && 0 <= (c.1 as int) * (w as int) && 0 <= (c.2 as int) * (w as int))
                by (nonlinear_arith);
        }
        let next = (
            old.0 + (c.0 as u128) * (w as u128),
            old.1 + (c.1 as u128) * (w as u128),
            old.2 + (c.2 as u128) * (w as u128),
            old.3 + (w as u128),
        );
        let ghost prev = sums@;
        sums.set(j, next);
        i += 1;
        proof {
            assert forall|jj: int| 0 <= jj < k implies {
                &&& (#[trigger] sums@[jj]).0 == cluster_chan(colors@, weights@, asg@, jj, 0, i as nat)
                &&& sums@[jj].1 == cluster_chan(colors@, weights@, asg@, jj, 1, i as nat)
                &&& sums@[jj].2 == cluster_chan(colors@, weights@, asg@, jj, 2, i as nat)
                &&& sums@[jj].3 == cluster_weight(weights@, asg@, jj, i as nat)
            } by {
                assert(prev[jj].0 == cluster_chan(colors@, weights@, asg@, jj, 0, (i - 1) as nat));
            }
        }
    }
    let mut out: Vec<Centroid> = Vec::new();
    let mut j: usize = 0;
    while j < k
        invariant
            n == colors@.len(), n <= 0x100_0000,
            weights@.len() == n, asg@.len() == n,
            k == cens@.len(),
            centroids_in_range(cens@),
            sums@.len() == k,
            forall|jj: int| 0 <= jj < k ==> {
                &&& (#[trigger] sums@[jj]).0 == cluster_chan(colors@, weights@, asg@, jj, 0, n as nat)
                &&& sums@[jj].1 == cluster_chan(colors@, weights@, asg@, jj, 1, n as nat)
                &&& sums@[jj].2 == cluster_chan(colors@, weights@, asg@, jj, 2, n as nat)
                &&& sums@[jj].3 == cluster_weight(weights@, asg@, jj, n as nat)
            },
            j <= k,
            out@ == update_spec(colors@, weights@, asg@, cens@).take(j as int),
            centroids_in_range(out@),
        decreases k - j,
    {
        let sm = sums[j];
        let w = sm.3;
        if w > 0 {
            proof {
                lemma_cluster_bounds(colors@, weights@, asg@, j as int, n as nat);
                assert(n * 0x1_0000_0000_0000_0000 <= 0x100_0000 * 0x1_0000_0000_0000_0000);
                lemma_fp_mean_range(sm.0 as int, w as int);
                lemma_fp_mean_range(sm.1 as int, w as int);
                lemma_fp_mean_range(sm.2 as int, w as int);
            }
            let m: Centroid = (
                ((sm.0 * 65536) / w) as u64,
                ((sm.1 * 65536) / w) as u64,
                ((sm.2 * 65536) / w) as u64,
            );
            out.push(m);
        } else {
            out.push(cens[j]);
        }
        j += 1;
        assert(out@ =~= update_spec(colors@, weights@, asg@, cens@).take(j as int));
    }
    assert(update_spec(colors@, weights@, asg@, cens@).take(k as int) =~= update_spec(colors@, weights@, asg@, cens@));
    out
}

proof fn lemma_fp_mean_range(sum: int, w: int)
    requires 0 < w, 0 <= sum <= 255 * w, w <= 0x100_0000 * 0x1_0000_0000_0000_0000,
    ensures
        sum * 65536 <= 0x1_0000_0000_0000_0000_0000_0000_0000,
        0 <= sum * 65536 / w <= 255 * 65536,
{
    assert(sum * 65536 <= w * 16711680) by (nonlinear_arith) requires 0 <= sum <= 255 * w;
    vstd::arithmetic::div_mod::lemma_div_is_ordered(sum * 65536, w * 16711680, w);
    vstd::arithmetic::div_mod::lemma_div_multiples_vanish(16711680, w);
    vstd::arithmetic::div_mod::lemma_div_pos_is_pos(sum * 65536, w);
}

fn fp_round_exec(v: u64) -> (r: u8)
    requires v <= 255 * 65536,
    ensures r == fp_round(v),
{
    let q = (v + 32768) / 65536;
    if q > 255 { 255 } else { q as u8 }
}

/// The entries of the centroids that some color is assigned to.
fn kept_entries_exec(cens: &Vec<Centroid>, asg: &Vec<usize>) -> (e: Vec<PaletteEntry>)
    requires
        centroids_in_range(cens@),
        forall|i: int| 0 <= i < asg@.len() ==> #[trigger] asg@[i] < cens@.len(),
    ensures e@ == kept_entries(cens@, asg@, cens@.len() as nat),
{
    let k = cens.len();
    let mut members: Vec<bool> = vec![false; k];
    let mut i: usize = 0;
    while i < asg.len()
        invariant
            k == cens@.len(),
            members@.len() == k,
            i <= asg@.len(),
            forall|t: int| 0 <= t < asg@.len() ==> #[trigger] asg@[t] < cens@.len(),
            forall|j: int| 0 <= j < k ==> (#[trigger] members@[j] <==> asg@.take(i as int).contains(j as usize)),
        decreases asg@.len() - i,
    {
        let j = asg[i];
        let ghost prev = members@;
        members.set(j, true);
        i += 1;
        proof {
            assert forall|jj: int| 0 <= jj < k implies (#[trigger] members@[jj] <==> asg@.take(i as int).contains(jj as usize)) by {
                assert(prev[jj] <==> asg@.take(i - 1).contains(jj as usize));
                let pre = asg@.take(i - 1);
                let cur = asg@.take(i as int);
                assert(cur =~= pre.push(j));
                if jj == j as int {
                    assert(cur[i - 1] == jj as usize);
                }
                if pre.contains(jj as usize) {
                    let t = choose|t: int| 0 <= t < pre.len() && pre[t] == jj as usize;
                    assert(cur[t] == jj as usize);
                }
                if cur.contains(jj as usize) && !pre.contains(jj as usize) {
                    let t = choose|t: int| 0 <= t < cur.len() && cur[t] == jj as usize;
                    if t < pre.len() {
                        assert(pre[t] == jj as usize);
                    }
                }
            }
        }
    }
    assert(asg@.take(asg@.len() as int) =~= asg@);
    let mut e: Vec<PaletteEntry> = Vec::new();
    let mut j: usize = 0;
    while j < k
        invariant
            k == cens@.len(),
            members@.len() == k,
            centroids_in_range(cens@),
            forall|jj: int| 0 <= jj < k ==> (#[trigger] members@[jj] <==> asg@.contains(jj as usize)),
            j <= k,
            e@ == kept_entries(cens@, asg@, j as nat),
        decreases k - j,
    {
        if members[j] {
            let m = cens[j];
            e.push(PaletteEntry { r: fp_round_exec(m.0), g: fp_round_exec(m.1), b: fp_round_exec(m.2), a: 255 });
        }
        j += 1;
    }
    e
}

/// The palette entries as fixed-point centroids.
fn initial_centroids_exec(entries: &Vec<PaletteEntry>) -> (c: Vec<Centroid>)
    ensures
        c@ == initial_centroids(entries@),
        centroids_in_range(c@),
{
    let mut c: Vec<Centroid> = Vec::new();
    let mut i: usize = 0;
    while i < entries.len()
        invariant
            i <= entries@.len(),
            c@ == initial_centroids(entries@.take(i as int)),
            centroids_in_range(c@),
        decreases entries@.len() - i,
    {
        let e = entries[i];
        c.push(((e.r as u64) * 65536, (e.g as u64) * 65536, (e.b as u64) * 65536));
        i += 1;
        assert(c@ =~= initial_centroids(entries@.take(i as int)));
    }
    assert(entries@.take(entries@.len() as int) =~= entries@);
    c
}

/// k-means (Lloyd) quantization: the distinct opaque colors of `rgba`, each
/// weighted by its pixel count and taken in increasing `0xRRGGBB` order,
/// are clustered starting from the median-cut palette; each round assigns
/// every color to its nearest centroid (the first on ties) and moves every
/// cluster with members to their weighted mean, for at most
/// `MAX_KMEANS_ITERATIONS` rounds or until a round leaves the assignments
/// unchanged. Centroids are kept in fixed point (1/65536); those with
/// members, rounded, form the palette. With at most `max_colors` distinct
/// colors, those colors are the palette. Rejects data that is not whole RGBA
/// pixels, `max_colors` outside `1..=256`, and images with no opaque pixel.
pub fn quantize_kmeans(rgba: &[u8], max_colors: usize) -> (r: Result<Palette, CafeError>)
    ensures
        match r {
            Ok(p) => kmeans_spec(rgba@, max_colors as nat) == Ok::<Seq<PaletteEntry>, CafeError>(p.entries@)
                && !p.has_alpha && p.entries@.len() > 0,
            Err(e) => kmeans_spec(rgba@, max_colors as nat) == Err::<Seq<PaletteEntry>, CafeError>(e),
        },
{
    if rgba.len() % 4 != 0 {
        return Err(CafeError::UnsupportedFeature("RGBA data length is not a multiple of 4", None));
    }
    if max_colors == 0 || max_colors > 256 {
        return Err(CafeError::UnsupportedFeature("max_colors must be between 1 and 256", Some(max_colors as u64)));
    }
    let colors = match collect_opaque_colors(rgba) {
        Ok(c) => c,
        Err(e) => return Err(e),
    };
    proof {
        lemma_opaque_colors_below_len(rgba@, 0x100_0000);
    }
    if colors.len() <= max_colors {
        return Ok(palette_from_unique_colors(&colors));
    }
    let weights = color_weights_exec(rgba, &colors);
    let init_palette = match quantize_median_cut(rgba, max_colors) {
        Ok(p) => p,
        Err(e) => return Err(e),
    };
    let init = initial_centroids_exec(&init_palette.entries);
    let ghost asg0 = Seq::new(colors@.len(), |i: int| 0usize);
    let ghost target = kmeans_rounds(colors@, weights@, init@, asg0, MAX_KMEANS_ITERATIONS as nat);
    let mut asg: Vec<usize> = Vec::new();
    while asg.len() < colors.len()
        invariant
            asg@.len() <= colors@.len(),
            forall|t: int| 0 <= t < asg@.len() ==> #[trigger] asg@[t] == 0usize,
        decreases colors@.len() - asg@.len(),
    {
        asg.push(0);
    }
    assert(asg@ =~= asg0);
    let mut cens = init;
    let mut rounds: usize = MAX_KMEANS_ITERATIONS;
    loop
        invariant_except_break
            kmeans_rounds(colors@, weights@, cens@, asg@, rounds as nat) == target,
        invariant
            colors@.len() <= 0x100_0000,
            weights@.len() == colors@.len(),
            asg@.len() == colors@.len(),
            1 <= cens@.len(),
            centroids_in_range(cens@),
            forall|t: int| 0 <= t < asg@.len() ==> #[trigger] asg@[t] < cens@.len(),
        ensures
            target == (cens@, asg@),
            centroids_in_range(cens@),
            forall|t: int| 0 <= t < asg@.len() ==> #[trigger] asg@[t] < cens@.len(),
        decreases rounds,
    {
        if rounds == 0 {
            break;
        }
        let new_asg = assign_all(&colors, &cens);
        let unchanged = same_assignments(&new_asg, &asg);
        let new_cens = update_centroids(&colors, &weights, &new_asg, &cens);
        cens = new_cens;
        asg = new_asg;
        if unchanged {
            break;
        }
        rounds = rounds - 1;
    }
    proof {
        assert(asg@.contains(asg@[0]));
        lemma_kept_nonempty(cens@, asg@, cens@.len() as nat, asg@[0] as int);
    }
    let entries = kept_entries_exec(&cens, &asg);
    let mut palette = Palette::new(false);
    palette.entries = entries;
    Ok(palette)
}

// ---------------------------------------------------------------------------
// Palette size
// ---------------------------------------------------------------------------

proof fn lemma_kept_nonempty(cens: Seq<Centroid>, asg: Seq<usize>, k: nat, j: int)
    requires 0 <= j < k, asg.contains(j as usize),
    ensures kept_entries(cens, asg, k).len() > 0,
    decreases k,
{
    if !asg.contains((k - 1) as usize) {
        lemma_kept_nonempty(cens, asg, (k - 1) as nat, j);
    }
}

proof fn lemma_median_cut_buckets_len(bk: Seq<Seq<Rgb>>, max: nat, fuel: nat)
    requires bk.len() <= max,
    ensures median_cut_buckets(bk, max, fuel).len() <= max,
    decreases fuel,
{
    if !(fuel == 0 || !(bk.len() < max && any_splittable(bk))) {
        let j = choose|j: int| 0 <= j < bk.len() && (#[trigger] bk[j]).len() > 1;
        lemma_widest_some(bk, bk.len() as nat, j);
        lemma_widest_splittable(bk, bk.len() as nat);
        assert(median_cut_step(bk).len() <= bk.len() + 1);
        lemma_median_cut_buckets_len(median_cut_step(bk), max, (fuel - 1) as nat);
    }
}

proof fn lemma_kmeans_rounds_len(colors: Seq<Rgb>, weights: Seq<u64>, cens: Seq<Centroid>, asg: Seq<usize>, rounds: nat)
    ensures kmeans_rounds(colors, weights, cens, asg, rounds).0.len() == cens.len(),
    decreases rounds,
{
    if rounds > 0 {
        let asg2 = assign_spec(colors, cens);
        let cens2 = update_spec(colors, weights, asg2, cens);
        lemma_kmeans_rounds_len(colors, weights, cens2, asg2, (rounds - 1) as nat);
    }
}

proof fn lemma_kept_entries_len(cens: Seq<Centroid>, asg: Seq<usize>, k: nat)
    ensures kept_entries(cens, asg, k).len() <= k,
    decreases k,
{
    if k > 0 {
        lemma_kept_entries_len(cens, asg, (k - 1) as nat);
    }
}

/// Median-cut and k-means palettes never have more than `max_colors`
/// entries, and every entry is opaque.
pub proof fn lemma_quantized_palette_size(rgba: Seq<u8>, max_colors: nat)
    ensures
        median_cut_spec(rgba, max_colors) matches Ok(e) ==> e.len() <= max_colors
            && forall|i: int| 0 <= i < e.len() ==> (#[trigger] e[i]).a == 255,
        kmeans_spec(rgba, max_colors) matches Ok(e) ==> e.len() <= max_colors
            && forall|i: int| 0 <= i < e.len() ==> (#[trigger] e[i]).a == 255,
{
    let colors = opaque_colors(rgba);
    if !(rgba.len() % 4 != 0 || max_colors == 0 || max_colors > 256 || colors.len() == 0) && colors.len() > max_colors {
        lemma_median_cut_buckets_len(seq![colors], max_colors, max_colors);
        let init = initial_centroids(median_cut_entries(colors, max_colors));
        let asg0 = Seq::new(colors.len(), |i: int| 0usize);
        let fin = kmeans_rounds(colors, color_weights(rgba, colors), init, asg0, MAX_KMEANS_ITERATIONS as nat);
        lemma_kmeans_rounds_len(colors, color_weights(rgba, colors), init, asg0, MAX_KMEANS_ITERATIONS as nat);
        lemma_kept_entries_len(fin.0, fin.1, fin.0.len());
        lemma_kept_entries_opaque(fin.0, fin.1, fin.0.len());
    }
}

proof fn lemma_kept_entries_opaque(cens: Seq<Centroid>, asg: Seq<usize>, k: nat)
    ensures forall|i: int| 0 <= i < kept_entries(cens, asg, k).len() ==> (#[trigger] kept_entries(cens, asg, k)[i]).a == 255,
    decreases k,
{
    if k > 0 {
        lemma_kept_entries_opaque(cens, asg, (k - 1) as nat);
        let prev = kept_entries(cens, asg, (k - 1) as nat);
        assert forall|i: int| 0 <= i < kept_entries(cens, asg, k).len() implies (#[trigger] kept_entries(cens, asg, k)[i]).a == 255 by {
            if i < prev.len() {
                assert(prev[i].a == 255);
            }
        }
    }
}


// ---------------------------------------------------------------------------
// Palette colors stay within the image's colors
// ---------------------------------------------------------------------------

/// Each channel of `c` lies between that of `lo` and that of `hi`.
pub open spec fn in_box(c: Rgb, lo: Rgb, hi: Rgb) -> bool {
    &&& lo.0 <= c.0 <= hi.0
    &&& lo.1 <= c.1 <= hi.1
    &&& lo.2 <= c.2 <= hi.2
}

/// Every color of `s` lies in the box.
pub open spec fn all_in_box(s: Seq<Rgb>, lo: Rgb, hi: Rgb) -> bool {
    forall|i: int| 0 <= i < s.len() ==> in_box(#[trigger] s[i], lo, hi)
}

/// The color channels of a palette entry lie in the box.
pub open spec fn entry_in_box(e: PaletteEntry, lo: Rgb, hi: Rgb) -> bool {
    in_box((e.r, e.g, e.b), lo, hi)
}

proof fn lemma_key_class_in_box(s: Seq<Rgb>, axis: int, v: int, lo: Rgb, hi: Rgb)
    requires all_in_box(s, lo, hi),
    ensures all_in_box(key_class(s, axis, v), lo, hi),
    decreases s.len(),
{
    if s.len() > 0 {
        let p = s.drop_last();
        assert(all_in_box(p, lo, hi)) by {
            assert forall|i: int| 0 <= i < p.len() implies in_box(#[trigger] p[i], lo, hi) by {
                assert(p[i] == s[i]);
            }
        }
        lemma_key_class_in_box(p, axis, v, lo, hi);
        assert(in_box(s[s.len() - 1], lo, hi));
    }
}

proof fn lemma_sorted_below_in_box(s: Seq<Rgb>, axis: int, k: nat, lo: Rgb, hi: Rgb)
    requires all_in_box(s, lo, hi),
    ensures all_in_box(sorted_below(s, axis, k), lo, hi),
    decreases k,
{
    if k > 0 {
        lemma_sorted_below_in_box(s, axis, (k - 1) as nat, lo, hi);
        lemma_key_class_in_box(s, axis, k - 1, lo, hi);
        let a = sorted_below(s, axis, (k - 1) as nat);
        let b = key_class(s, axis, k - 1);
        assert forall|i: int| 0 <= i < (a + b).len() implies in_box(#[trigger] (a + b)[i], lo, hi) by {
            if i < a.len() {
                assert((a + b)[i] == a[i]);
            } else {
                assert((a + b)[i] == b[i - a.len()]);
            }
        }
    }
}

proof fn lemma_split_in_box(s: Seq<Rgb>, lo: Rgb, hi: Rgb)
    requires all_in_box(s, lo, hi),
    ensures all_in_box(split_spec(s).0, lo, hi), all_in_box(split_spec(s).1, lo, hi),
{
    let t = sort_by_channel(s, longest_axis(s));
    lemma_sorted_below_in_box(s, longest_axis(s), 256, lo, hi);
    let mid = s.len() / 2;
    lemma_sort_len(s, longest_axis(s));
    assert forall|i: int| 0 <= i < t.take(mid as int).len() implies in_box(#[trigger] t.take(mid as int)[i], lo, hi) by {
        assert(t.take(mid as int)[i] == t[i]);
    }
    assert forall|i: int| 0 <= i < t.skip(mid as int).len() implies in_box(#[trigger] t.skip(mid as int)[i], lo, hi) by {
        assert(t.skip(mid as int)[i] == t[i + mid]);
    }
}

/// Every bucket is non-empty and holds colors in the box.
pub open spec fn buckets_in_box(bk: Seq<Seq<Rgb>>, lo: Rgb, hi: Rgb) -> bool {
    forall|i: int| 0 <= i < bk.len() ==> (#[trigger] bk[i]).len() > 0 && all_in_box(bk[i], lo, hi)
}

proof fn lemma_step_in_box(bk: Seq<Seq<Rgb>>, lo: Rgb, hi: Rgb)
    requires buckets_in_box(bk, lo, hi), any_splittable(bk),
    ensures buckets_in_box(median_cut_step(bk), lo, hi),
{
    let j = choose|j: int| 0 <= j < bk.len() && (#[trigger] bk[j]).len() > 1;
    lemma_widest_some(bk, bk.len() as nat, j);
    lemma_widest_splittable(bk, bk.len() as nat);
    let i = widest_bucket_below(bk, bk.len())->0;
    let (b1, b2) = split_spec(bk[i]);
    lemma_split_in_box(bk[i], lo, hi);
    let rest = bk.remove(i);
    assert(buckets_in_box(rest, lo, hi)) by {
        assert forall|k: int| 0 <= k < rest.len() implies (#[trigger] rest[k]).len() > 0 && all_in_box(rest[k], lo, hi) by {
            if k < i {
                assert(rest[k] == bk[k]);
            } else {
                assert(rest[k] == bk[k + 1]);
            }
        }
    }
    let r1 = if b1.len() > 0 { rest.push(b1) } else { rest };
    assert(buckets_in_box(r1, lo, hi)) by {
        assert forall|k: int| 0 <= k < r1.len() implies (#[trigger] r1[k]).len() > 0 && all_in_box(r1[k], lo, hi) by {
            if k < rest.len() {
                assert(r1[k] == rest[k]);
            }
        }
    }
    let r2 = if b2.len() > 0 { r1.push(b2) } else { r1 };
    assert forall|k: int| 0 <= k < r2.len() implies (#[trigger] r2[k]).len() > 0 && all_in_box(r2[k], lo, hi) by {
        if k < r1.len() {
            assert(r2[k] == r1[k]);
        }
    }
}

proof fn lemma_buckets_in_box(bk: Seq<Seq<Rgb>>, max: nat, fuel: nat, lo: Rgb, hi: Rgb)
    requires buckets_in_box(bk, lo, hi),
    ensures buckets_in_box(median_cut_buckets(bk, max, fuel), lo, hi),
    decreases fuel,
{
    if !(fuel == 0 || !(bk.len() < max && any_splittable(bk))) {
        lemma_step_in_box(bk, lo, hi);
        lemma_buckets_in_box(median_cut_step(bk), max, (fuel - 1) as nat, lo, hi);
    }
}

proof fn lemma_channel_sum_in_box(s: Seq<Rgb>, axis: int, lo: Rgb, hi: Rgb)
    requires all_in_box(s, lo, hi), 0 <= axis <= 2,
    ensures channel(lo, axis) * s.len() <= channel_sum(s, axis) <= channel(hi, axis) * s.len(),
    decreases s.len(),
{
    if s.len() > 0 {
        let p = s.drop_last();
        assert(all_in_box(p, lo, hi)) by {
            assert forall|i: int| 0 <= i < p.len() implies in_box(#[trigger] p[i], lo, hi) by {
                assert(p[i] == s[i]);
            }
        }
        lemma_channel_sum_in_box(p, axis, lo, hi);
        assert(in_box(s[s.len() - 1], lo, hi));
        assert(channel(lo, axis) * p.len() + channel(lo, axis) == channel(lo, axis) * s.len()) by (nonlinear_arith)
            requires p.len() + 1 == s.len();
        assert(channel(hi, axis) * p.len() + channel(hi, axis) == channel(hi, axis) * s.len()) by (nonlinear_arith)
            requires p.len() + 1 == s.len();
    }
}

/// The mean of `n` values each between `a` and `b` lies between them.
proof fn lemma_mean_between(sum: int, n: int, a: int, b: int)
    requires n > 0, a * n <= sum <= b * n,
    ensures a <= sum / n <= b,
{
    vstd::arithmetic::div_mod::lemma_div_is_ordered(a * n, sum, n);
    vstd::arithmetic::div_mod::lemma_div_is_ordered(sum, b * n, n);
    vstd::arithmetic::div_mod::lemma_div_multiples_vanish(a, n);
    vstd::arithmetic::div_mod::lemma_div_multiples_vanish(b, n);
    assert(a * n == n * a && b * n == n * b) by (nonlinear_arith);
}

proof fn lemma_bucket_mean_in_box(b: Seq<Rgb>, lo: Rgb, hi: Rgb)
    requires b.len() > 0, all_in_box(b, lo, hi),
    ensures entry_in_box(bucket_mean(b), lo, hi),
{
    let n = b.len() as int;
    lemma_channel_sum_in_box(b, 0, lo, hi);
    lemma_channel_sum_in_box(b, 1, lo, hi);
    lemma_channel_sum_in_box(b, 2, lo, hi);
    lemma_mean_between(channel_sum(b, 0), n, lo.0 as int, hi.0 as int);
    lemma_mean_between(channel_sum(b, 1), n, lo.1 as int, hi.1 as int);
    lemma_mean_between(channel_sum(b, 2), n, lo.2 as int, hi.2 as int);
}

/// Median-cut entries lie in any box holding all the colors.
proof fn lemma_median_cut_entries_in_box(colors: Seq<Rgb>, max_colors: nat, lo: Rgb, hi: Rgb)
    requires all_in_box(colors, lo, hi), colors.len() > 0,
    ensures forall|i: int| 0 <= i < median_cut_entries(colors, max_colors).len()
        ==> entry_in_box(#[trigger] median_cut_entries(colors, max_colors)[i], lo, hi),
{
    if colors.len() > max_colors {
        let bk = median_cut_buckets(seq![colors], max_colors, max_colors);
        assert(buckets_in_box(seq![colors], lo, hi));
        lemma_buckets_in_box(seq![colors], max_colors, max_colors, lo, hi);
        assert forall|i: int| 0 <= i < median_cut_entries(colors, max_colors).len()
            implies entry_in_box(#[trigger] median_cut_entries(colors, max_colors)[i], lo, hi) by {
            lemma_bucket_mean_in_box(bk[i], lo, hi);
        }
    } else {
        assert forall|i: int| 0 <= i < median_cut_entries(colors, max_colors).len()
            implies entry_in_box(#[trigger] median_cut_entries(colors, max_colors)[i], lo, hi) by {
            assert(in_box(colors[i], lo, hi));
        }
    }
}

/// A fixed-point centroid whose channels lie in the box (times 65536).
pub open spec fn centroid_in_box(m: Centroid, lo: Rgb, hi: Rgb) -> bool {
    &&& lo.0 * 65536 <= m.0 <= hi.0 * 65536
    &&& lo.1 * 65536 <= m.1 <= hi.1 * 65536
    &&& lo.2 * 65536 <= m.2 <= hi.2 * 65536
}

pub open spec fn centroids_in_box(cens: Seq<Centroid>, lo: Rgb, hi: Rgb) -> bool {
    forall|j: int| 0 <= j < cens.len() ==> centroid_in_box(#[trigger] cens[j], lo, hi)
}

proof fn lemma_cluster_in_box(colors: Seq<Rgb>, weights: Seq<u64>, asg: Seq<usize>, j: int, axis: int, n: nat, lo: Rgb, hi: Rgb)
    requires n <= colors.len(), n <= weights.len(), n <= asg.len(), all_in_box(colors, lo, hi), 0 <= axis <= 2,
    ensures
        channel(lo, axis) * cluster_weight(weights, asg, j, n) <= cluster_chan(colors, weights, asg, j, axis, n)
            <= channel(hi, axis) * cluster_weight(weights, asg, j, n),
    decreases n,
{
    if n > 0 {
        lemma_cluster_in_box(colors, weights, asg, j, axis, (n - 1) as nat, lo, hi);
        let c = colors[n - 1];
        assert(in_box(c, lo, hi));
        let w = weights[n - 1] as int;
        let l = channel(lo, axis) as int;
        let h = channel(hi, axis) as int;
        let v = channel(c, axis) as int;
        assert(l * w <= v * w <= h * w) by (nonlinear_arith) requires l <= v <= h, 0 <= w;
        let cw = cluster_weight(weights, asg, j, (n - 1) as nat);
        assert(l * cw + l * w == l * (cw + w) && h * cw + h * w == h * (cw + w)) by (nonlinear_arith);
    }
}

proof fn lemma_update_in_box(colors: Seq<Rgb>, weights: Seq<u64>, asg: Seq<usize>, cens: Seq<Centroid>, lo: Rgb, hi: Rgb)
    requires
        centroids_in_box(cens, lo, hi),
        all_in_box(colors, lo, hi),
        weights.len() == colors.len(),
        asg.len() == colors.len(),
        colors.len() <= 0x100_0000,
    ensures centroids_in_box(update_spec(colors, weights, asg, cens), lo, hi),
{
    let n = colors.len();
    let up = update_spec(colors, weights, asg, cens);
    assert forall|j: int| 0 <= j < up.len() implies centroid_in_box(#[trigger] up[j], lo, hi) by {
        let w = cluster_weight(weights, asg, j, n);
        if w > 0 {
            lemma_cluster_bounds(colors, weights, asg, j, n);
            assert forall|axis: int| 0 <= axis <= 2 implies ({
                let s = #[trigger] cluster_chan(colors, weights, asg, j, axis, n);
                channel(lo, axis) * 65536 <= fp_mean(s, w) <= channel(hi, axis) * 65536
            }) by {
                let s = cluster_chan(colors, weights, asg, j, axis, n);
                lemma_cluster_in_box(colors, weights, asg, j, axis, n, lo, hi);
                let l = channel(lo, axis) as int;
                let h = channel(hi, axis) as int;
                assert((l * 65536) * w <= s * 65536 <= (h * 65536) * w) by (nonlinear_arith)
                    requires l * w <= s <= h * w, w > 0;
                lemma_mean_between(s * 65536, w, l * 65536, h * 65536);
                assert(0 <= s <= 255 * w) by {
                    if axis == 0 {} else if axis == 1 {} else {}
                }
                assert(w <= 0x100_0000 * 0x1_0000_0000_0000_0000) by (nonlinear_arith)
                    requires w <= n * 0x1_0000_0000_0000_0000, n <= 0x100_0000;
                lemma_fp_mean_range(s, w);
            }
            assert(channel(lo, 0) == lo.0 && channel(lo, 1) == lo.1 && channel(lo, 2) == lo.2);
            assert(channel(hi, 0) == hi.0 && channel(hi, 1) == hi.1 && channel(hi, 2) == hi.2);
        } else {
            assert(up[j] == cens[j]);
        }
    }
}

proof fn lemma_rounds_in_box(colors: Seq<Rgb>, weights: Seq<u64>, cens: Seq<Centroid>, asg: Seq<usize>, rounds: nat, lo: Rgb, hi: Rgb)
    requires
        centroids_in_box(cens, lo, hi),
        all_in_box(colors, lo, hi),
        weights.len() == colors.len(),
        colors.len() <= 0x100_0000,
    ensures centroids_in_box(kmeans_rounds(colors, weights, cens, asg, rounds).0, lo, hi),
    decreases rounds,
{
    if rounds > 0 {
        let asg2 = assign_spec(colors, cens);
        lemma_update_in_box(colors, weights, asg2, cens, lo, hi);
        let cens2 = update_spec(colors, weights, asg2, cens);
        lemma_rounds_in_box(colors, weights, cens2, asg2, (rounds - 1) as nat, lo, hi);
    }
}

proof fn lemma_round_in_box(v: u64, l: u8, h: u8)
    requires l * 65536 <= v <= h * 65536,
    ensures l <= fp_round(v) <= h,
{
    let q = (v + 32768) / 65536;
    vstd::arithmetic::div_mod::lemma_fundamental_div_mod((v + 32768) as int, 65536);
    assert(v + 32768 == 65536 * q + (v + 32768) % 65536);
    assert(l <= q <= h);
}

proof fn lemma_kept_in_box(cens: Seq<Centroid>, asg: Seq<usize>, k: nat, lo: Rgb, hi: Rgb)
    requires centroids_in_box(cens, lo, hi), k <= cens.len(),
    ensures forall|i: int| 0 <= i < kept_entries(cens, asg, k).len() ==> entry_in_box(#[trigger] kept_entries(cens, asg, k)[i], lo, hi),
    decreases k,
{
    if k > 0 {
        lemma_kept_in_box(cens, asg, (k - 1) as nat, lo, hi);
        let m = cens[k - 1];
        assert(centroid_in_box(m, lo, hi));
        lemma_round_in_box(m.0, lo.0, hi.0);
        lemma_round_in_box(m.1, lo.1, hi.1);
        lemma_round_in_box(m.2, lo.2, hi.2);
        let prev = kept_entries(cens, asg, (k - 1) as nat);
        assert forall|i: int| 0 <= i < kept_entries(cens, asg, k).len() implies entry_in_box(#[trigger] kept_entries(cens, asg, k)[i], lo, hi) by {
            if i < prev.len() {
                assert(entry_in_box(prev[i], lo, hi));
            }
        }
    }
}

/// Quantizers keep to the image's colors: when every distinct opaque color
/// of `rgba` lies within the channel ranges `lo..=hi`, so does every entry
/// of the median-cut and of the k-means palette.
pub proof fn lemma_palette_within_colors(rgba: Seq<u8>, max_colors: nat, lo: Rgb, hi: Rgb)
    requires all_in_box(opaque_colors(rgba), lo, hi),
    ensures
        median_cut_spec(rgba, max_colors) matches Ok(e) ==> forall|i: int| 0 <= i < e.len() ==> entry_in_box(#[trigger] e[i], lo, hi),
        kmeans_spec(rgba, max_colors) matches Ok(e) ==> forall|i: int| 0 <= i < e.len() ==> entry_in_box(#[trigger] e[i], lo, hi),
{
    let colors = opaque_colors(rgba);
    if !(rgba.len() % 4 != 0 || max_colors == 0 || max_colors > 256 || colors.len() == 0) {
        lemma_median_cut_entries_in_box(colors, max_colors, lo, hi);
        if colors.len() > max_colors {
            let entries = median_cut_entries(colors, max_colors);
            let init = initial_centroids(entries);
            assert(centroids_in_box(init, lo, hi)) by {
                assert forall|j: int| 0 <= j < init.len() implies centroid_in_box(#[trigger] init[j], lo, hi) by {
                    assert(entry_in_box(entries[j], lo, hi));
                }
            }
            lemma_opaque_colors_below_len(rgba, 0x100_0000);
            let weights = color_weights(rgba, colors);
            let asg0 = Seq::new(colors.len(), |i: int| 0usize);
            lemma_rounds_in_box(colors, weights, init, asg0, MAX_KMEANS_ITERATIONS as nat, lo, hi);
            let fin = kmeans_rounds(colors, weights, init, asg0, MAX_KMEANS_ITERATIONS as nat);
            lemma_kmeans_rounds_len(colors, weights, init, asg0, MAX_KMEANS_ITERATIONS as nat);
            lemma_kept_in_box(fin.0, fin.1, fin.0.len(), lo, hi);
        } else {
            assert(kmeans_spec(rgba, max_colors) == Ok::<Seq<PaletteEntry>, CafeError>(median_cut_entries(colors, max_colors)));
        }
    }
}

} // verus!
