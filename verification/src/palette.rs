//! Palette types of indexed-color images.

use vstd::prelude::*;

verus! {

/// One palette color.
#[derive(Clone, Copy, Debug, PartialEq, Eq, Structural)]
pub struct PaletteEntry {
    pub r: u8,
    pub g: u8,
    pub b: u8,
    pub a: u8,
}

/// A palette: its colors in index order, and whether entries carry alpha
/// when written to a `PLTE` chunk.
#[derive(Clone, Debug)]
pub struct Palette {
    pub entries: Vec<PaletteEntry>,
    pub has_alpha: bool,
}

pub open spec fn sq_diff(x: u8, y: u8) -> int {
    (x - y) * (x - y)
}

/// Squared Euclidean distance over the four channels.
pub open spec fn distance_squared_spec(p: PaletteEntry, q: PaletteEntry) -> int {
    sq_diff(p.r, q.r) + sq_diff(p.g, q.g) + sq_diff(p.b, q.b) + sq_diff(p.a, q.a)
}

/// The "redmean" weighted RGB distance: red and blue differences weighted by
/// the mean red level (`512 + rmean`, `767 - rmean`), green by 1024.
pub open spec fn redmean_distance_spec(p: PaletteEntry, q: PaletteEntry) -> int {
    let rmean = (p.r + q.r) / 2;
    (512 + rmean) * sq_diff(p.r, q.r) + 1024 * sq_diff(p.g, q.g) + (767 - rmean) * sq_diff(p.b, q.b)
}

fn sq_diff_exec(x: u8, y: u8) -> (r: u32)
    ensures r == sq_diff(x, y), r <= 65025,
{
    let d: u32 = if x >= y { (x - y) as u32 } else { (y - x) as u32 };
    assert(d * d <= 65025) by (nonlinear_arith) requires d <= 255;
    assert(d * d == (x - y) * (x - y)) by (nonlinear_arith) requires d == x - y || d == y - x;
    d * d
}

impl PaletteEntry {
    /// Squared Euclidean distance to `other` over R, G, B and A.
    pub fn distance_squared(&self, other: &PaletteEntry) -> (r: u32)
        ensures r == distance_squared_spec(*self, *other),
    {
        sq_diff_exec(self.r, other.r) + sq_diff_exec(self.g, other.g) + sq_diff_exec(self.b, other.b)
            + sq_diff_exec(self.a, other.a)
    }

    /// Perceptually weighted ("redmean") RGB distance to `other`.
    pub fn redmean_distance(&self, other: &PaletteEntry) -> (r: u32)
        ensures r == redmean_distance_spec(*self, *other),
    {
        let rmean: u32 = (self.r as u32 + other.r as u32) / 2;
        let dr = sq_diff_exec(self.r, other.r);
        let dg = sq_diff_exec(self.g, other.g);
        let db = sq_diff_exec(self.b, other.b);
        assert((512 + rmean) * dr <= 767 * 65025) by (nonlinear_arith) requires rmean <= 255, dr <= 65025;
        assert((767 - rmean) * db <= 767 * 65025) by (nonlinear_arith) requires rmean <= 255, db <= 65025;
        (512 + rmean) * dr + 1024 * dg + (767 - rmean) * db
    }

    /// Squared Euclidean distance to `other` over R, G and B.
    pub fn rgb_distance_squared(&self, other: &PaletteEntry) -> (r: u32)
        ensures r == sq_diff(self.r, other.r) + sq_diff(self.g, other.g) + sq_diff(self.b, other.b),
    {
        sq_diff_exec(self.r, other.r) + sq_diff_exec(self.g, other.g) + sq_diff_exec(self.b, other.b)
    }

    /// The entry as `[r, g, b, a]`.
    pub fn to_rgba(&self) -> (r: [u8; 4])
        ensures r@ == seq![self.r, self.g, self.b, self.a],
    {
        let out = [self.r, self.g, self.b, self.a];
        assert(out@ =~= seq![self.r, self.g, self.b, self.a]);
        out
    }
}

/// Bits per index needed for a palette of `n` entries (1, 2, 4 or 8).
pub open spec fn palette_bit_depth_spec(n: nat) -> u8 {
    if n <= 2 { 1 } else if n <= 4 { 2 } else if n <= 16 { 4 } else { 8 }
}

impl Palette {
    /// An empty palette.
    pub fn new(has_alpha: bool) -> (p: Palette)
        ensures p.entries@.len() == 0, p.has_alpha == has_alpha,
    {
        Palette { entries: Vec::new(), has_alpha }
    }

    /// The smallest index bit depth (1, 2, 4 or 8) that addresses every entry.
    pub fn bit_depth(&self) -> (d: u8)
        ensures d == palette_bit_depth_spec(self.entries@.len()),
    {
        let n = self.entries.len();
        if n <= 2 { 1 } else if n <= 4 { 2 } else if n <= 16 { 4 } else { 8 }
    }
}

} // verus!
