//! Indexed color: turning RGBA pixels into palette indices (building the
//! palette or using a fixed one), and indices back into RGBA pixels.

use vstd::prelude::*;

use crate::error::CafeError;
use crate::palette::{distance_squared_spec, redmean_distance_spec, sq_diff, Palette, PaletteEntry};
use crate::quantize::{kmeans_spec, median_cut_spec, quantize_kmeans, quantize_median_cut};

verus! {

/// The palette entry an index stands for; opaque black when the index is
/// past the end of the palette.
pub open spec fn entry_or_black(entries: Seq<PaletteEntry>, idx: u8) -> PaletteEntry {
    if (idx as int) < entries.len() { entries[idx as int] } else { PaletteEntry { r: 0, g: 0, b: 0, a: 255 } }
}

/// Channel `c` (0: R, 1: G, 2: B, 3: A) of an entry.
pub open spec fn entry_channel(e: PaletteEntry, c: int) -> u8 {
    if c == 0 { e.r } else if c == 1 { e.g } else if c == 2 { e.b } else { e.a }
}

/// The RGBA pixels of a list of indices.
pub open spec fn dequantize_spec(indices: Seq<u8>, entries: Seq<PaletteEntry>) -> Seq<u8> {
    Seq::new(indices.len() * 4, |k: int| entry_channel(entry_or_black(entries, indices[k / 4]), k % 4))
}

/// The RGBA pixels of `indices` in `palette` (4 bytes per index; an index
/// past the end of the palette gives opaque black).
pub fn dequantize_from_palette(indices: &[u8], palette: &Palette, _width: u32, _height: u32) -> (out: Vec<u8>)
    requires indices@.len() * 4 <= usize::MAX,
    ensures out@ == dequantize_spec(indices@, palette.entries@),
{
    let mut out: Vec<u8> = Vec::new();
    let mut i: usize = 0;
    while i < indices.len()
        invariant
            i <= indices@.len(),
            out@ == dequantize_spec(indices@.take(i as int), palette.entries@),
        decreases indices@.len() - i,
    {
        let idx = indices[i];
        let e = if (idx as usize) < palette.entries.len() {
            palette.entries[idx as usize]
        } else {
            PaletteEntry { r: 0, g: 0, b: 0, a: 255 }
        };
        out.push(e.r);
        out.push(e.g);
        out.push(e.b);
        out.push(e.a);
        i += 1;
        proof {
            let ent = palette.entries@;
            let t = indices@.take(i as int);
            assert forall|k: int| 0 <= k < (i as int) * 4 implies
                #[trigger] out@[k] == entry_channel(entry_or_black(ent, t[k / 4]), k % 4) by {
                if k < (i - 1) * 4 {
                    assert(indices@.take(i - 1)[k / 4] == t[k / 4]);
                } else {
                    assert(k / 4 == i - 1);
                }
            }
            assert(out@ =~= dequantize_spec(t, ent));
        }
    }
    assert(indices@.take(indices@.len() as int) =~= indices@);
    out
}

// ---------------------------------------------------------------------------
// Building a palette while mapping
// ---------------------------------------------------------------------------

/// How a palette is built from the pixels.
#[derive(Clone, Copy, Debug, PartialEq, Eq, Structural)]
pub enum PaletteAlgorithm {
    /// First colors met, matched by squared RGBA distance.
    NearestNeighbor,
    /// Median-cut palette, pixels matched by squared RGB distance.
    MedianCut,
    /// First colors met, matched by the "redmean" distance.
    NearestNeighborWeighted,
    /// k-means palette, pixels matched by squared RGB distance.
    KMeans,
}

/// Pixel `p` of `rgba` as an entry.
pub open spec fn pixel_at(rgba: Seq<u8>, p: int) -> PaletteEntry {
    PaletteEntry { r: rgba[4 * p], g: rgba[4 * p + 1], b: rgba[4 * p + 2], a: rgba[4 * p + 3] }
}

/// The distance the nearest-neighbor builder matches by.
pub open spec fn nn_dist(px: PaletteEntry, e: PaletteEntry, weighted: bool) -> int {
    if weighted { redmean_distance_spec(px, e) } else { distance_squared_spec(px, e) }
}

/// Among entries `0..k`, the first nearest to `px` and its distance
/// (`(0, u32::MAX)` for none).
pub open spec fn closest_below(entries: Seq<PaletteEntry>, px: PaletteEntry, weighted: bool, k: nat) -> (nat, int)
    decreases k,
{
    if k == 0 {
        (0, u32::MAX as int)
    } else {
        let (bi, bd) = closest_below(entries, px, weighted, (k - 1) as nat);
        let d = nn_dist(px, entries[k - 1], weighted);
        if d < bd { ((k - 1) as nat, d) } else { (bi, bd) }
    }
}

/// One pixel through the builder: a color farther than zero from every
/// entry joins the palette while there is room; the pixel's index is its
/// entry's (cut to 8 bits).
pub open spec fn nn_step(st: (Seq<u8>, Seq<PaletteEntry>), px: PaletteEntry, max: u32, weighted: bool) -> (Seq<u8>, Seq<PaletteEntry>) {
    let (bi, bd) = closest_below(st.1, px, weighted, st.1.len());
    if bd > 0 && st.1.len() < max {
        (st.0.push(st.1.len() as u8), st.1.push(px))
    } else {
        (st.0.push(bi as u8), st.1)
    }
}

/// Indices and palette after the first `n` pixels.
pub open spec fn nn_fold(rgba: Seq<u8>, max: u32, weighted: bool, n: nat) -> (Seq<u8>, Seq<PaletteEntry>)
    decreases n,
{
    if n == 0 { (Seq::empty(), Seq::empty()) } else { nn_step(nn_fold(rgba, max, weighted, (n - 1) as nat), pixel_at(rgba, n - 1), max, weighted) }
}

proof fn lemma_nn_fold_len(rgba: Seq<u8>, max: u32, weighted: bool, n: nat)
    ensures nn_fold(rgba, max, weighted, n).1.len() <= max, nn_fold(rgba, max, weighted, n).0.len() == n,
    decreases n,
{
    if n > 0 {
        lemma_nn_fold_len(rgba, max, weighted, (n - 1) as nat);
    }
}

/// Every way of building a palette gives one index per whole pixel.
pub proof fn lemma_one_index_per_pixel(rgba: Seq<u8>, max: u32, alg: PaletteAlgorithm)
    ensures quantize_to_palette_spec(rgba, max, alg).0.len() == rgba.len() / 4,
{
    lemma_nn_fold_len(rgba, max, false, rgba.len() / 4);
    lemma_nn_fold_len(rgba, max, true, rgba.len() / 4);
}

proof fn lemma_closest_bound(entries: Seq<PaletteEntry>, px: PaletteEntry, weighted: bool, k: nat)
    requires k <= entries.len(),
    ensures
        closest_below(entries, px, weighted, k).0 < k || (k == 0 && closest_below(entries, px, weighted, k).0 == 0),
        0 <= closest_below(entries, px, weighted, k).1 <= u32::MAX,
    decreases k,
{
    if k > 0 {
        lemma_closest_bound(entries, px, weighted, (k - 1) as nat);
        lemma_dist_bound(px, entries[k - 1], weighted);
    }
}

proof fn lemma_dist_bound(px: PaletteEntry, e: PaletteEntry, weighted: bool)
    ensures 0 <= nn_dist(px, e, weighted) < u32::MAX,
{
    assert(0 <= sq_diff(px.r, e.r) <= 65025 && 0 <= sq_diff(px.g, e.g) <= 65025) by (nonlinear_arith);
    assert(0 <= sq_diff(px.b, e.b) <= 65025 && 0 <= sq_diff(px.a, e.a) <= 65025) by (nonlinear_arith);
    let rmean = (px.r + e.r) / 2;
    assert(0 <= (512 + rmean) * sq_diff(px.r, e.r) <= 767 * 65025) by (nonlinear_arith)
        requires 0 <= rmean <= 255, 0 <= sq_diff(px.r, e.r) <= 65025;
    assert(0 <= (767 - rmean) * sq_diff(px.b, e.b) <= 767 * 65025) by (nonlinear_arith)
        requires 0 <= rmean <= 255, 0 <= sq_diff(px.b, e.b) <= 65025;
}

fn closest_entry(entries: &Vec<PaletteEntry>, px: PaletteEntry, weighted: bool) -> (r: (usize, u32))
    ensures
        r.0 == closest_below(entries@, px, weighted, entries@.len()).0,
        r.1 == closest_below(entries@, px, weighted, entries@.len()).1,
{
    let mut bi: usize = 0;
    let mut bd: u32 = u32::MAX;
    let mut i: usize = 0;
    while i < entries.len()
        invariant
            i <= entries@.len(),
            bi == closest_below(entries@, px, weighted, i as nat).0,
            bd == closest_below(entries@, px, weighted, i as nat).1,
        decreases entries@.len() - i,
    {
        let e = entries[i];
        let d = if weighted { px.redmean_distance(&e) } else { px.distance_squared(&e) };
        if d < bd {
            bi = i;
            bd = d;
        }
        i += 1;
    }
    (bi, bd)
}

impl Palette {
    /// The index of the entry nearest to `color` by squared RGBA distance
    /// (the first on ties); 0 for an empty palette.
    pub fn find_closest(&self, color: &PaletteEntry) -> (r: usize)
        ensures r == closest_below(self.entries@, *color, false, self.entries@.len()).0,
    {
        closest_entry(&self.entries, *color, false).0
    }
}

fn quantize_nn(rgba: &[u8], max_colors: u32, weighted: bool) -> (r: (Vec<u8>, Palette))
    ensures
        r.0@ == nn_fold(rgba@, max_colors, weighted, rgba@.len() / 4).0,
        r.1.entries@ == nn_fold(rgba@, max_colors, weighted, rgba@.len() / 4).1,
        r.1.has_alpha,
{
    let mut entries: Vec<PaletteEntry> = Vec::new();
    let mut indices: Vec<u8> = Vec::new();
    let n = rgba.len() / 4;
    proof {
        vstd::arithmetic::div_mod::lemma_fundamental_div_mod(rgba@.len() as int, 4);
    }
    let rl = rgba.len();
    let mut p: usize = 0;
    while p < n
        invariant
            n == rgba@.len() / 4, 4 * n <= rgba@.len(), rl == rgba@.len(),
            p <= n,
            (indices@, entries@) == nn_fold(rgba@, max_colors, weighted, p as nat),
            entries@.len() <= max_colors,
        decreases n - p,
    {
        let px = PaletteEntry { r: rgba[4 * p], g: rgba[4 * p + 1], b: rgba[4 * p + 2], a: rgba[4 * p + 3] };
        let (bi, bd) = closest_entry(&entries, px, weighted);
        proof {
            lemma_nn_fold_len(rgba@, max_colors, weighted, (p + 1) as nat);
        }
        if bd > 0 && (entries.len() as u64) < (max_colors as u64) {
            let idx: u8 = #[verifier::truncate] (entries.len() as u8);
            indices.push(idx);
            entries.push(px);
        } else {
            let idx: u8 = #[verifier::truncate] (bi as u8);
            indices.push(idx);
        }
        p += 1;
    }
    (indices, Palette { entries, has_alpha: true })
}

/// Greedy palette building: each pixel takes its nearest entry (squared
/// RGBA distance, the first on ties); a pixel whose color is not in the
/// palette yet is added while there are fewer than `max_colors` entries.
/// Returns one index per whole pixel and the palette (with alpha).
pub fn quantize_nearest_neighbor(rgba: &[u8], max_colors: u32) -> (r: (Vec<u8>, Palette))
    ensures
        r.0@ == nn_fold(rgba@, max_colors, false, rgba@.len() / 4).0,
        r.1.entries@ == nn_fold(rgba@, max_colors, false, rgba@.len() / 4).1,
        r.1.has_alpha,
{
    quantize_nn(rgba, max_colors, false)
}

/// As `quantize_nearest_neighbor`, matching by the "redmean" distance.
pub fn quantize_nearest_neighbor_weighted(rgba: &[u8], max_colors: u32) -> (r: (Vec<u8>, Palette))
    ensures
        r.0@ == nn_fold(rgba@, max_colors, true, rgba@.len() / 4).0,
        r.1.entries@ == nn_fold(rgba@, max_colors, true, rgba@.len() / 4).1,
        r.1.has_alpha,
{
    quantize_nn(rgba, max_colors, true)
}

// ---------------------------------------------------------------------------
// Mapping to a fixed palette
// ---------------------------------------------------------------------------

/// Squared RGB distance (alpha ignored).
pub open spec fn rgb_dist(px: PaletteEntry, e: PaletteEntry) -> int {
    sq_diff(px.r, e.r) + sq_diff(px.g, e.g) + sq_diff(px.b, e.b)
}

/// Among entries `0..k`, the first nearest to `px` by RGB distance.
pub open spec fn closest_rgb_below(entries: Seq<PaletteEntry>, px: PaletteEntry, k: nat) -> (nat, int)
    decreases k,
{
    if k == 0 {
        (0, u32::MAX as int)
    } else {
        let (bi, bd) = closest_rgb_below(entries, px, (k - 1) as nat);
        let d = rgb_dist(px, entries[k - 1]);
        if d < bd { ((k - 1) as nat, d) } else { (bi, bd) }
    }
}

/// The index (cut to 8 bits) of each whole pixel's nearest entry.
pub open spec fn fixed_map_spec(rgba: Seq<u8>, entries: Seq<PaletteEntry>) -> Seq<u8> {
    Seq::new(rgba.len() / 4, |p: int| closest_rgb_below(entries, pixel_at(rgba, p), entries.len()).0 as u8)
}

fn closest_rgb_entry(entries: &Vec<PaletteEntry>, px: PaletteEntry) -> (r: usize)
    ensures r == closest_rgb_below(entries@, px, entries@.len()).0,
{
    let mut bi: usize = 0;
    let mut bd: u32 = u32::MAX;
    let mut i: usize = 0;
    while i < entries.len()
        invariant
            i <= entries@.len(),
            bi == closest_rgb_below(entries@, px, i as nat).0,
            bd == closest_rgb_below(entries@, px, i as nat).1,
        decreases entries@.len() - i,
    {
        let e = entries[i];
        let d = px.rgb_distance_squared(&e);
        if d < bd {
            bi = i;
            bd = d;
        }
        i += 1;
    }
    bi
}

/// Maps each whole pixel to its nearest palette entry by RGB distance (the
/// first on ties).
pub fn map_pixels_to_fixed_palette(rgba: &[u8], palette: &Palette) -> (r: Vec<u8>)
    ensures r@ == fixed_map_spec(rgba@, palette.entries@),
{
    let n = rgba.len() / 4;
    proof {
        vstd::arithmetic::div_mod::lemma_fundamental_div_mod(rgba@.len() as int, 4);
    }
    let rl = rgba.len();
    let mut out: Vec<u8> = Vec::new();
    let mut p: usize = 0;
    while p < n
        invariant
            n == rgba@.len() / 4, 4 * n <= rgba@.len(), rl == rgba@.len(),
            p <= n,
            out@ == fixed_map_spec(rgba@, palette.entries@).take(p as int),
        decreases n - p,
    {
        let px = PaletteEntry { r: rgba[4 * p], g: rgba[4 * p + 1], b: rgba[4 * p + 2], a: rgba[4 * p + 3] };
        let bi = closest_rgb_entry(&palette.entries, px);
        let idx: u8 = #[verifier::truncate] (bi as u8);
        out.push(idx);
        p += 1;
        assert(out@ =~= fixed_map_spec(rgba@, palette.entries@).take(p as int));
    }
    assert(fixed_map_spec(rgba@, palette.entries@).take(n as int) =~= fixed_map_spec(rgba@, palette.entries@));
    out
}

/// The pixels with alpha forced to 255 (a trailing partial pixel of three
/// bytes counts as a pixel).
pub open spec fn rgb_only_spec(rgba: Seq<u8>) -> Seq<u8> {
    Seq::new(((rgba.len() + 3) / 4 * 4) as nat, |k: int| if k % 4 == 3 { 255u8 } else { rgba[k] })
}

fn rgb_only(rgba: &[u8]) -> (r: Vec<u8>)
    requires rgba@.len() % 4 == 0 || rgba@.len() % 4 == 3,
    ensures r@ == rgb_only_spec(rgba@),
{
    let mut out: Vec<u8> = Vec::new();
    let len = rgba.len();
    let full = len / 4 * 4;
    let mut i: usize = 0;
    while i < full
        invariant
            i <= full, i % 4 == 0, full % 4 == 0, full <= len, len == rgba@.len(),
            out@ == rgb_only_spec(rgba@).take(i as int),
        decreases full - i,
    {
        out.push(rgba[i]);
        out.push(rgba[i + 1]);
        out.push(rgba[i + 2]);
        out.push(255);
        i += 4;
        assert(out@ =~= rgb_only_spec(rgba@).take(i as int));
    }
    if full < len {
        out.push(rgba[full]);
        out.push(rgba[full + 1]);
        out.push(rgba[full + 2]);
        out.push(255);
    }
    assert(out@ =~= rgb_only_spec(rgba@));
    out
}

/// What the median-cut mapping gives: the median-cut palette of the pixels
/// (alpha ignored) and the nearest entry of each pixel; greedy building
/// when median cut fails.
pub open spec fn median_cut_map_spec(rgba: Seq<u8>, max: u32) -> (Seq<u8>, Seq<PaletteEntry>, bool) {
    match median_cut_spec(rgb_only_spec(rgba), max as nat) {
        Ok(entries) => (fixed_map_spec(rgba, entries), entries, false),
        Err(_) => (nn_fold(rgba, max, false, rgba.len() / 4).0, nn_fold(rgba, max, false, rgba.len() / 4).1, true),
    }
}

/// What the k-means mapping gives (as the median-cut one, with k-means).
pub open spec fn kmeans_map_spec(rgba: Seq<u8>, max: u32) -> (Seq<u8>, Seq<PaletteEntry>, bool) {
    match kmeans_spec(rgb_only_spec(rgba), max as nat) {
        Ok(entries) => (fixed_map_spec(rgba, entries), entries, false),
        Err(_) => (nn_fold(rgba, max, false, rgba.len() / 4).0, nn_fold(rgba, max, false, rgba.len() / 4).1, true),
    }
}

/// Median-cut palette of the pixels (alpha ignored), each pixel mapped to
/// its nearest entry; greedy building when median cut fails.
pub fn quantize_median_cut_wrapper(rgba: &[u8], max_colors: u32) -> (r: (Vec<u8>, Palette))
    requires rgba@.len() % 4 == 0 || rgba@.len() % 4 == 3,
    ensures ({
        let (ix, e, a) = median_cut_map_spec(rgba@, max_colors);
        r.0@ == ix && r.1.entries@ == e && r.1.has_alpha == a
    }),
{
    let rgb = rgb_only(rgba);
    match quantize_median_cut(rgb.as_slice(), max_colors as usize) {
        Ok(palette) => (map_pixels_to_fixed_palette(rgba, &palette), palette),
        Err(_) => quantize_nearest_neighbor(rgba, max_colors),
    }
}

/// k-means palette of the pixels (alpha ignored), each pixel mapped to its
/// nearest entry; greedy building when k-means fails.
pub fn quantize_kmeans_wrapper(rgba: &[u8], max_colors: u32) -> (r: (Vec<u8>, Palette))
    requires rgba@.len() % 4 == 0 || rgba@.len() % 4 == 3,
    ensures ({
        let (ix, e, a) = kmeans_map_spec(rgba@, max_colors);
        r.0@ == ix && r.1.entries@ == e && r.1.has_alpha == a
    }),
{
    let rgb = rgb_only(rgba);
    match quantize_kmeans(rgb.as_slice(), max_colors as usize) {
        Ok(palette) => (map_pixels_to_fixed_palette(rgba, &palette), palette),
        Err(_) => quantize_nearest_neighbor(rgba, max_colors),
    }
}

/// What `quantize_to_palette` gives: indices, entries, whether the palette
/// has alpha.
pub open spec fn quantize_to_palette_spec(rgba: Seq<u8>, max: u32, alg: PaletteAlgorithm) -> (Seq<u8>, Seq<PaletteEntry>, bool) {
    match alg {
        PaletteAlgorithm::NearestNeighbor => (nn_fold(rgba, max, false, rgba.len() / 4).0, nn_fold(rgba, max, false, rgba.len() / 4).1, true),
        PaletteAlgorithm::MedianCut => median_cut_map_spec(rgba, max),
        PaletteAlgorithm::NearestNeighborWeighted => (nn_fold(rgba, max, true, rgba.len() / 4).0, nn_fold(rgba, max, true, rgba.len() / 4).1, true),
        PaletteAlgorithm::KMeans => kmeans_map_spec(rgba, max),
    }
}

/// Builds a palette of at most `max_colors` entries with `algorithm` and
/// maps the pixels to it.
pub fn quantize_to_palette(rgba: &[u8], _width: u32, max_colors: u32, algorithm: PaletteAlgorithm) -> (r: (Vec<u8>, Palette))
    requires rgba@.len() % 4 == 0 || rgba@.len() % 4 == 3,
    ensures ({
        let (ix, e, a) = quantize_to_palette_spec(rgba@, max_colors, algorithm);
        r.0@ == ix && r.1.entries@ == e && r.1.has_alpha == a
    }),
{
    match algorithm {
        PaletteAlgorithm::NearestNeighbor => quantize_nearest_neighbor(rgba, max_colors),
        PaletteAlgorithm::MedianCut => quantize_median_cut_wrapper(rgba, max_colors),
        PaletteAlgorithm::NearestNeighborWeighted => quantize_nearest_neighbor_weighted(rgba, max_colors),
        PaletteAlgorithm::KMeans => quantize_kmeans_wrapper(rgba, max_colors),
    }
}

} // verus!
