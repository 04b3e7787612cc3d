//! Interlacing of 8-bit RGBA images: Adam7 (seven progressive passes, each
//! holding only pixels no earlier pass holds) and even/odd (even rows, then
//! odd rows).

use vstd::prelude::*;
use vstd::arithmetic::div_mod::{lemma_fundamental_div_mod, lemma_fundamental_div_mod_converse, lemma_mod_bound};

use crate::constants::{ADAM7_NUM_PASSES, BPP, EVEN_ODD_NUM_PASSES};
use crate::error::CafeError;

verus! {

proof fn lemma_row_index(i: int, y: int, rb: int)
    requires rb > 0, y * rb <= i < y * rb + rb,
    ensures i / rb == y, i % rb == i - y * rb,
{
    lemma_fundamental_div_mod_converse(i, rb, y, i - y * rb);
}

/// `r < len / rb` exactly when row `r` of `rb` bytes lies within `len` bytes.
proof fn lemma_whole_rows(len: int, r: int, rb: int)
    requires rb > 0, len >= 0, r >= 0,
    ensures
        (r < len / rb) == ((r + 1) * rb <= len),
        (r + 1) * rb == r * rb + rb,
        0 <= r * rb,
{
    lemma_fundamental_div_mod(len, rb);
    lemma_mod_bound(len, rb);
    let q = len / rb;
    let m = len % rb;
    assert(((r + 1) * rb <= len) == (r + 1 <= q)) by (nonlinear_arith)
        requires rb > 0, len == rb * q + m, 0 <= m, m < rb, r >= 0;
    assert((r + 1) * rb == r * rb + rb) by (nonlinear_arith);
    assert(0 <= r * rb) by (nonlinear_arith) requires r >= 0, rb > 0;
}

proof fn lemma_row_bounds(y: int, h: int, rb: int)
    requires 0 <= y < h, rb >= 0,
    ensures 0 <= y * rb, y * rb + rb <= h * rb, (y + 1) * rb == y * rb + rb,
{
    assert(0 <= y * rb) by (nonlinear_arith) requires 0 <= y, rb >= 0;
    assert(y * rb + rb <= h * rb) by (nonlinear_arith) requires y < h, rb >= 0;
    assert((y + 1) * rb == y * rb + rb) by (nonlinear_arith);
}

// ---------------------------------------------------------------------------
// Even/odd
// ---------------------------------------------------------------------------

/// Rows `y, y + 2, y + 4, ...` below `h` of `raw`, each `rb` bytes long; a
/// row that `raw` does not hold in full is left out.
pub open spec fn even_odd_rows(raw: Seq<u8>, rb: nat, h: nat, y: nat) -> Seq<u8>
    decreases h + 1 - y,
{
    if y >= h {
        Seq::empty()
    } else {
        let row = if (y + 1) * rb <= raw.len() { raw.subrange((y * rb) as int, ((y + 1) * rb) as int) } else { Seq::empty() };
        row + even_odd_rows(raw, rb, h, y + 2)
    }
}

/// Pass `pass` (0: even rows, 1: odd rows) of a `width` x `height` RGBA image.
pub open spec fn even_odd_pass_spec(raw: Seq<u8>, width: nat, height: nat, pass: nat) -> Seq<u8> {
    if pass >= EVEN_ODD_NUM_PASSES { Seq::empty() } else { even_odd_rows(raw, width * 4, height, pass) }
}

/// Extracts pass `pass` of even/odd interlacing: the even rows for pass 0,
/// the odd rows for pass 1, nothing for any other pass. Rows that `raw` does
/// not hold in full are skipped.
pub fn extract_even_odd_pass(raw: &[u8], width: u32, height: u32, pass: usize) -> (out: Vec<u8>)
    ensures out@ == even_odd_pass_spec(raw@, width as nat, height as nat, pass as nat),
{
    if pass >= EVEN_ODD_NUM_PASSES {
        return Vec::new();
    }
    let ghost rb = width as nat * 4;
    let row_size: u64 = (width as u64) * 4;
    let len = raw.len();
    let mut pass_data: Vec<u8> = Vec::new();
    let mut y: u64 = pass as u64;
    while y < height as u64
        invariant
            row_size == rb,
            len == raw@.len(),
            pass < 2,
            y >= pass,
            y <= height + 1,
            even_odd_rows(raw@, rb, height as nat, pass as nat)
                == pass_data@ + even_odd_rows(raw@, rb, height as nat, y as nat),
        decreases height + 2 - y,
    {
        let ghost before = pass_data@;
        let row_start = y.checked_mul(row_size);
        let fits = match row_start {
            Some(s) => s <= len as u64 && row_size <= len as u64 - s,
            None => false,
        };
        proof {
            assert(y * rb + rb == (y + 1) * rb) by (nonlinear_arith);
        }
        if fits {
            let s = row_start.unwrap() as usize;
            let e = s + row_size as usize;
            let row = &raw[s..e];
            crate::bytes::append_bytes(&mut pass_data, row);
            assert(row@ == raw@.subrange(y * rb, (y + 1) * rb));
        }
        assert(before + even_odd_rows(raw@, rb, height as nat, y as nat)
            == pass_data@ + even_odd_rows(raw@, rb, height as nat, y as nat + 2));
        y = y + 2;
    }
    assert(pass_data@ + even_odd_rows(raw@, rb, height as nat, y as nat) =~= pass_data@);
    pass_data
}

/// Both even/odd passes of `raw`.
pub fn apply_even_odd_interlace(raw: &[u8], width: u32, height: u32) -> (passes: [Vec<u8>; EVEN_ODD_NUM_PASSES])
    ensures
        passes@[0]@ == even_odd_pass_spec(raw@, width as nat, height as nat, 0),
        passes@[1]@ == even_odd_pass_spec(raw@, width as nat, height as nat, 1),
{
    let even = extract_even_odd_pass(raw, width, height, 0);
    let odd = extract_even_odd_pass(raw, width, height, 1);
    [even, odd]
}

/// Row `y` of the image rebuilt from even/odd passes: row `y / 2` of pass
/// `y % 2` when that pass holds it in full, zeros otherwise.
pub open spec fn even_odd_image(p0: Seq<u8>, p1: Seq<u8>, rb: nat, h: nat) -> Seq<u8> {
    Seq::new(h * rb, |i: int| {
        let y = i / (rb as int);
        let r = y / 2;
        let p = if y % 2 == 0 { p0 } else { p1 };
        if (r + 1) * rb <= p.len() { p[r * rb + i % (rb as int)] } else { 0u8 }
    })
}

/// What rebuilding a `width` x `height` RGBA image from even/odd passes of
/// lengths `p0.len()` and `p1.len()` yields: the data must hold exactly
/// `width * height * 4` bytes in all.
pub open spec fn reconstruct_even_odd_spec(p0: Seq<u8>, p1: Seq<u8>, width: nat, height: nat) -> Result<Seq<u8>, CafeError> {
    if width * height == 0 || p0.len() + p1.len() != width * height * 4 || width * height * 4 > usize::MAX {
        Err(CafeError::TruncatedFile("even/odd passes do not hold the image's bytes"))
    } else {
        Ok(even_odd_image(p0, p1, width * 4, height))
    }
}

/// Checks that passes of lengths `l0..` hold exactly the bytes of a
/// `width` x `height` RGBA image and returns that byte count.
fn interlaced_total(width: u32, height: u32, available: u128) -> (r: Option<usize>)
    ensures
        match r {
            Some(n) => width * height > 0 && available == width * height * 4 && n == width * height * 4
                && n <= usize::MAX,
            None => width * height == 0 || available != width * height * 4 || width * height * 4 > usize::MAX,
        },
{
    assert((width as u128) * (height as u128) * 4 <= u128::MAX) by (nonlinear_arith)
        requires width <= u32::MAX, height <= u32::MAX;
    let total_pixels: u128 = (width as u128) * (height as u128);
    if total_pixels == 0 {
        return None;
    }
    let expected = total_pixels * 4;
    if available != expected {
        return None;
    }
    if expected > usize::MAX as u128 {
        return None;
    }
    Some(expected as usize)
}

/// Rebuilds a `width` x `height` RGBA image from its two even/odd passes.
/// Rejects dimensions of zero pixels, and passes whose lengths do not add up
/// to exactly `width * height * 4` bytes.
pub fn reconstruct_even_odd(passes: &[Vec<u8>; EVEN_ODD_NUM_PASSES], width: u32, height: u32) -> (r: Result<Vec<u8>, CafeError>)
    ensures
        match r {
            Ok(v) => reconstruct_even_odd_spec(passes@[0]@, passes@[1]@, width as nat, height as nat) == Ok::<Seq<u8>, CafeError>(v@),
            Err(e) => reconstruct_even_odd_spec(passes@[0]@, passes@[1]@, width as nat, height as nat) == Err::<Seq<u8>, CafeError>(e),
        },
{
    let p0 = &passes[0];
    let p1 = &passes[1];
    let available: u128 = p0.len() as u128 + p1.len() as u128;
    let total = match interlaced_total(width, height, available) {
        Some(n) => n,
        None => return Err(CafeError::TruncatedFile("even/odd passes do not hold the image's bytes")),
    };
    let ghost rb = width as nat * 4;
    let ghost spec = even_odd_image(p0@, p1@, rb, height as nat);
    proof {
        assert(width * height * 4 == height * (width * 4)) by (nonlinear_arith);
        assert(width * 4 <= height * (width * 4)) by (nonlinear_arith) requires height >= 1;
    }
    let row_size: usize = width as usize * 4;
    let mut result: Vec<u8> = Vec::with_capacity(total);
    let mut y: usize = 0;
    while y < height as usize
        invariant
            row_size == rb,
            rb > 0,
            spec == even_odd_image(p0@, p1@, rb, height as nat),
            spec.len() == height * rb,
            total == height * rb,
            total <= usize::MAX,
            y <= height,
            result@.len() == y * rb,
            forall|i: int| 0 <= i < result@.len() ==> #[trigger] result@[i] == spec[i],
        decreases height - y,
    {
        proof {
            lemma_row_bounds(y as int, height as int, rb as int);
        }
        let r = y / 2;
        let p = if y % 2 == 0 { p0 } else { p1 };
        let start = y * row_size;
        let ghost before = result@;
        // rows are copied whole or not at all
        let fits = r < p.len() / row_size;
        proof {
            lemma_whole_rows(p@.len() as int, r as int, rb as int);
        }
        if fits {
            let row = &p.as_slice()[r * row_size..r * row_size + row_size];
            crate::bytes::append_bytes(&mut result, row);
            proof {
                assert forall|i: int| before.len() <= i < result@.len() implies #[trigger] result@[i] == spec[i] by {
                    lemma_row_index(i, y as int, rb as int);
                    assert(y % 2 == 0 ==> p@ == p0@);
                    assert(y % 2 != 0 ==> p@ == p1@);
                }
            }
        } else {
            let mut k: usize = 0;
            while k < row_size
                invariant
                    k <= row_size,
                    row_size == rb,
                    rb > 0,
                    before.len() == y * rb,
                    result@.len() == before.len() + k,
                    forall|i: int| 0 <= i < before.len() ==> #[trigger] result@[i] == before[i],
                    forall|i: int| before.len() <= i < result@.len() ==> #[trigger] result@[i] == 0u8,
                decreases row_size - k,
            {
                result.push(0u8);
                k += 1;
            }
            proof {
                assert forall|i: int| before.len() <= i < result@.len() implies #[trigger] result@[i] == spec[i] by {
                    lemma_row_index(i, y as int, rb as int);
                    assert(y % 2 == 0 ==> p@ == p0@);
                    assert(y % 2 != 0 ==> p@ == p1@);
                }
            }
        }
        y += 1;
    }
    assert(result@ =~= spec);
    Ok(result)
}

/// Number of rows `y, y + 2, ...` below `h`.
pub open spec fn even_odd_count(y: nat, h: nat) -> nat
    decreases h + 1 - y,
{
    if y >= h { 0 } else { 1 + even_odd_count(y + 2, h) }
}

proof fn lemma_even_odd_count(y: nat, h: nat, r: nat)
    ensures
        y <= h ==> even_odd_count(y, h) + even_odd_count(y + 1, h) == h - y,
        (r < even_odd_count(y, h)) == (y + 2 * r < h),
    decreases h + 1 - y,
{
    if y < h {
        lemma_even_odd_count(y + 1, h, r);
        if r > 0 {
            lemma_even_odd_count(y + 2, h, (r - 1) as nat);
        } else {
            lemma_even_odd_count(y + 2, h, 0);
        }
    }
}

/// With every row present, the rows `y, y + 2, ...` are laid end to end.
proof fn lemma_even_odd_rows(raw: Seq<u8>, rb: nat, h: nat, y: nat)
    requires h * rb <= raw.len(), rb > 0,
    ensures
        even_odd_rows(raw, rb, h, y).len() == even_odd_count(y, h) * rb,
        forall|r: int, c: int| 0 <= r < even_odd_count(y, h) && 0 <= c < rb ==>
            #[trigger] even_odd_rows(raw, rb, h, y)[r * rb + c] == raw[(y + 2 * r) * rb + c],
    decreases h + 1 - y,
{
    if y < h {
        lemma_even_odd_rows(raw, rb, h, y + 2);
        lemma_row_bounds(y as int, h as int, rb as int);
        let row = raw.subrange((y * rb) as int, ((y + 1) * rb) as int);
        let rest = even_odd_rows(raw, rb, h, y + 2);
        assert(even_odd_rows(raw, rb, h, y) == row + rest);
        assert((1 + even_odd_count(y + 2, h)) * rb == rb + even_odd_count(y + 2, h) * rb) by (nonlinear_arith);
        assert forall|r: int, c: int| 0 <= r < even_odd_count(y, h) && 0 <= c < rb implies
            #[trigger] even_odd_rows(raw, rb, h, y)[r * rb + c] == raw[(y + 2 * r) * rb + c] by {
            if r == 0 {
                assert(r * rb + c == c) by (nonlinear_arith) requires r == 0;
                assert((y + 2 * r) * rb + c == y * rb + c) by (nonlinear_arith) requires r == 0;
            } else {
                let r1 = r - 1;
                assert(r * rb + c == rb + (r1 * rb + c)) by (nonlinear_arith) requires r1 == r - 1;
                assert((y + 2 * r) * rb + c == (y + 2 + 2 * r1) * rb + c) by (nonlinear_arith) requires r1 == r - 1;
                assert(r1 * rb + c < even_odd_count(y + 2, h) * rb) by (nonlinear_arith)
                    requires r1 < even_odd_count(y + 2, h), c < rb, 0 <= r1, 0 <= c;
                assert(0 <= r1 * rb) by (nonlinear_arith) requires 0 <= r1;
            }
        }
    }
}

/// Even/odd round trip: the two passes of a `width` x `height` RGBA image
/// rebuild exactly that image.
pub proof fn lemma_even_odd_roundtrip(raw: Seq<u8>, width: nat, height: nat)
    requires
        raw.len() == width * height * 4,
        width * height > 0,
        width * height * 4 <= usize::MAX,
    ensures
        reconstruct_even_odd_spec(
            even_odd_pass_spec(raw, width, height, 0),
            even_odd_pass_spec(raw, width, height, 1),
            width, height,
        ) == Ok::<Seq<u8>, CafeError>(raw),
{
    let rb = width * 4;
    let h = height;
    assert(width * height * 4 == h * rb) by (nonlinear_arith) requires rb == width * 4, h == height;
    assert(rb > 0) by (nonlinear_arith) requires width * height > 0, rb == width * 4;
    let p0 = even_odd_pass_spec(raw, width, height, 0);
    let p1 = even_odd_pass_spec(raw, width, height, 1);
    lemma_even_odd_rows(raw, rb, h, 0);
    lemma_even_odd_rows(raw, rb, h, 1);
    lemma_even_odd_count(0, h, 0);
    assert(p0.len() + p1.len() == h * rb) by (nonlinear_arith)
        requires p0.len() == even_odd_count(0, h) * rb, p1.len() == even_odd_count(1, h) * rb,
            even_odd_count(0, h) + even_odd_count(1, h) == h;
    let img = even_odd_image(p0, p1, rb, h);
    assert forall|i: int| 0 <= i < raw.len() implies #[trigger] img[i] == raw[i] by {
        let y = i / (rb as int);
        let c = i % (rb as int);
        lemma_fundamental_div_mod(i, rb as int);
        lemma_mod_bound(i, rb as int);
        let r = y / 2;
        let p = y % 2;
        lemma_fundamental_div_mod(y, 2);
        lemma_mod_bound(y, 2);
        assert(0 <= y < h) by (nonlinear_arith)
            requires i == rb * y + c, 0 <= c < rb, 0 <= i < h * rb, rb > 0;
        assert(r >= 0) by (nonlinear_arith) requires y == 2 * r + p, 0 <= p < 2, y >= 0;
        lemma_even_odd_count(p as nat, h, r as nat);
        assert((r + 1) * rb <= even_odd_count(p as nat, h) * rb) by (nonlinear_arith)
            requires r + 1 <= even_odd_count(p as nat, h), rb > 0;
        assert((p + 2 * r) * rb + c == i) by (nonlinear_arith) requires y == 2 * r + p, i == rb * y + c;
    }
    assert(img =~= raw);
}

// ---------------------------------------------------------------------------
// Adam7
// ---------------------------------------------------------------------------

/// `(x_step, y_step, x_offset, y_offset)` of Adam7 pass `pass`.
pub open spec fn adam7_params(pass: int) -> (int, int, int, int) {
    if pass == 0 { (8, 8, 0, 0) }
    else if pass == 1 { (8, 8, 4, 0) }
    else if pass == 2 { (4, 8, 2, 0) }
    else if pass == 3 { (4, 4, 2, 2) }
    else if pass == 4 { (2, 4, 1, 2) }
    else if pass == 5 { (2, 2, 1, 1) }
    else { (1, 1, 0, 0) }
}

/// Pixel `(x, y)` lies on the grid that pass `pass` scans.
pub open spec fn adam7_on_grid(pass: int, x: int, y: int) -> bool {
    let (xs, ys, xo, yo) = adam7_params(pass);
    x >= xo && (x - xo) % xs == 0 && y >= yo && (y - yo) % ys == 0
}

/// The first pass whose grid holds pixel `(x, y)`; the last pass holds every
/// pixel.
pub open spec fn adam7_first_pass(x: int, y: int) -> int {
    if adam7_on_grid(0, x, y) { 0 }
    else if adam7_on_grid(1, x, y) { 1 }
    else if adam7_on_grid(2, x, y) { 2 }
    else if adam7_on_grid(3, x, y) { 3 }
    else if adam7_on_grid(4, x, y) { 4 }
    else if adam7_on_grid(5, x, y) { 5 }
    else { 6 }
}

/// The pass that carries pixel `idx` of an image `w` pixels wide.
pub open spec fn adam7_pass_of(w: nat, idx: int) -> int {
    adam7_first_pass(idx % (w as int), idx / (w as int))
}

/// `(x_step, y_step, x_offset, y_offset)` of Adam7 pass `pass`.
pub fn adam7_pass_params(pass: usize) -> (r: (u32, u32, u32, u32))
    requires pass < ADAM7_NUM_PASSES,
    ensures (r.0 as int, r.1 as int, r.2 as int, r.3 as int) == adam7_params(pass as int),
{
    match pass {
        0 => (8, 8, 0, 0),
        1 => (8, 8, 4, 0),
        2 => (4, 8, 2, 0),
        3 => (4, 4, 2, 2),
        4 => (2, 4, 1, 2),
        5 => (2, 2, 1, 1),
        _ => (1, 1, 0, 0),
    }
}

fn on_grid(pass: usize, x: usize, y: usize) -> (r: bool)
    requires pass < ADAM7_NUM_PASSES,
    ensures r == adam7_on_grid(pass as int, x as int, y as int),
{
    let (xs, ys, xo, yo) = adam7_pass_params(pass);
    let (xs, ys, xo, yo) = (xs as usize, ys as usize, xo as usize, yo as usize);
    x >= xo && (x - xo) % xs == 0 && y >= yo && (y - yo) % ys == 0
}

fn first_pass(x: usize, y: usize) -> (r: usize)
    ensures r == adam7_first_pass(x as int, y as int), r < ADAM7_NUM_PASSES,
{
    let mut p: usize = 0;
    while p < 6
        invariant
            p <= 6,
            forall|q: int| 0 <= q < p ==> !adam7_on_grid(q, x as int, y as int),
        decreases 6 - p,
    {
        if on_grid(p, x, y) {
            return p;
        }
        p += 1;
    }
    6
}

/// Pixel `idx` as it goes into pass `pass`: its four bytes if the pass
/// carries it and `raw` holds them, nothing otherwise.
pub open spec fn adam7_piece(raw: Seq<u8>, w: nat, pass: int, idx: int) -> Seq<u8> {
    if adam7_pass_of(w, idx) == pass && 4 * idx + 4 <= raw.len() {
        raw.subrange(4 * idx, 4 * idx + 4)
    } else {
        Seq::empty()
    }
}

/// The pieces of pixels `0..k` for pass `pass`, in order.
pub open spec fn adam7_pieces(raw: Seq<u8>, w: nat, pass: int, k: nat) -> Seq<u8>
    decreases k,
{
    if k == 0 { Seq::empty() } else { adam7_pieces(raw, w, pass, (k - 1) as nat) + adam7_piece(raw, w, pass, k - 1) }
}

/// Pass `pass` of a `width` x `height` RGBA image: the pixels the pass
/// carries, in row-major order. Empty for an out-of-range pass, a zero-pixel
/// image or one whose pixel count does not fit in `usize`.
pub open spec fn adam7_pass_spec(raw: Seq<u8>, width: nat, height: nat, pass: nat) -> Seq<u8> {
    if pass >= ADAM7_NUM_PASSES || width * height == 0 || width * height > usize::MAX {
        Seq::empty()
    } else {
        adam7_pieces(raw, width, pass as int, width * height)
    }
}

proof fn lemma_pixel_index(x: int, y: int, w: int, h: int)
    requires 0 <= x < w, 0 <= y < h,
    ensures
        (y * w + x) % w == x,
        (y * w + x) / w == y,
        0 <= y * w + x < w * h,
        y * w + x + 1 == if x + 1 < w { y * w + (x + 1) } else { (y + 1) * w },
{
    lemma_fundamental_div_mod_converse(y * w + x, w, y, x);
    assert(0 <= y * w + x < w * h) by (nonlinear_arith) requires 0 <= x < w, 0 <= y < h;
    assert((y + 1) * w == y * w + w) by (nonlinear_arith);
}

/// Extracts Adam7 pass `pass` (0 to 6) of a `width` x `height` RGBA image:
/// the pixels of the pass's grid that no earlier pass holds, in row-major
/// order. Pixels `raw` does not hold are skipped.
pub fn extract_adam7_pass(raw: &[u8], width: u32, height: u32, pass: usize) -> (out: Vec<u8>)
    ensures out@ == adam7_pass_spec(raw@, width as nat, height as nat, pass as nat),
{
    if pass >= ADAM7_NUM_PASSES {
        return Vec::new();
    }
    assert((width as u64) * (height as u64) <= u64::MAX) by (nonlinear_arith)
        requires width <= u32::MAX, height <= u32::MAX;
    let pixel_count: u64 = (width as u64) * (height as u64);
    if pixel_count == 0 || pixel_count > usize::MAX as u64 {
        return Vec::new();
    }
    assert(width > 0) by (nonlinear_arith)
        requires pixel_count == width * height, pixel_count != 0;
    let w = width as usize;
    let h = height as usize;
    let len = raw.len();
    let whole_pixels = len / BPP;
    let mut pass_data: Vec<u8> = Vec::new();
    let mut y: usize = 0;
    while y < h
        invariant
            w == width, h == height, w * h <= usize::MAX, w > 0,
            pass < ADAM7_NUM_PASSES,
            whole_pixels == raw@.len() / 4,
            len == raw@.len(),
            y <= h,
            pass_data@ == adam7_pieces(raw@, w as nat, pass as int, (y * w) as nat),
        decreases h - y,
    {
        let mut x: usize = 0;
        while x < w
            invariant
                w == width, h == height, w * h <= usize::MAX, w > 0,
                pass < ADAM7_NUM_PASSES,
                whole_pixels == raw@.len() / 4,
                len == raw@.len(),
                y < h,
                x <= w,
                pass_data@ == adam7_pieces(raw@, w as nat, pass as int, (y * w + x) as nat),
            decreases w - x,
        {
            proof {
                lemma_pixel_index(x as int, y as int, w as int, h as int);
            }
            let idx = y * w + x;
            if first_pass(x, y) == pass && idx < whole_pixels {
                proof {
                    lemma_fundamental_div_mod(raw@.len() as int, 4);
                    lemma_mod_bound(raw@.len() as int, 4);
                }
                let start = idx * BPP;
                crate::bytes::append_bytes(&mut pass_data, &raw[start..start + BPP]);
            } else {
                proof {
                    lemma_fundamental_div_mod(raw@.len() as int, 4);
                    lemma_mod_bound(raw@.len() as int, 4);
                }
            }
            assert(pass_data@ =~= adam7_pieces(raw@, w as nat, pass as int, (idx + 1) as nat));
            x += 1;
        }
        proof {
            assert((y + 1) * w == y * w + w) by (nonlinear_arith);
        }
        y += 1;
    }
    assert(h * w == w * h) by (nonlinear_arith);
    pass_data
}

/// All seven Adam7 passes of `raw`.
pub fn apply_adam7_interlace(raw: &[u8], width: u32, height: u32) -> (passes: [Vec<u8>; ADAM7_NUM_PASSES])
    ensures
        forall|p: int| 0 <= p < 7 ==> #[trigger] passes@[p]@ == adam7_pass_spec(raw@, width as nat, height as nat, p as nat),
{
    let p0 = extract_adam7_pass(raw, width, height, 0);
    let p1 = extract_adam7_pass(raw, width, height, 1);
    let p2 = extract_adam7_pass(raw, width, height, 2);
    let p3 = extract_adam7_pass(raw, width, height, 3);
    let p4 = extract_adam7_pass(raw, width, height, 4);
    let p5 = extract_adam7_pass(raw, width, height, 5);
    let p6 = extract_adam7_pass(raw, width, height, 6);
    let passes = [p0, p1, p2, p3, p4, p5, p6];
    assert(passes@[0]@ == adam7_pass_spec(raw@, width as nat, height as nat, 0));
    assert(passes@[6]@ == adam7_pass_spec(raw@, width as nat, height as nat, 6));
    passes
}

/// The pass contents as byte sequences.
pub open spec fn pass_views(passes: Seq<Vec<u8>>) -> Seq<Seq<u8>> {
    passes.map_values(|v: Vec<u8>| v@)
}

/// Total length of the seven Adam7 passes.
pub open spec fn adam7_total_len(passes: Seq<Seq<u8>>) -> nat {
    passes[0].len() + passes[1].len() + passes[2].len() + passes[3].len()
        + passes[4].len() + passes[5].len() + passes[6].len()
}

/// Rebuilding state: image bytes, which pixels are set, and how many bytes
/// of the current pass have been used.
pub type Adam7State = (Seq<u8>, Seq<bool>, nat);

/// One pixel `idx` of pass `pass` during rebuilding: a pixel on the pass's
/// grid that is not yet set takes the pass's next four bytes, if it has them.
pub open spec fn adam7_fill_step(st: Adam7State, pd: Seq<u8>, w: nat, pass: int, idx: int) -> Adam7State {
    let (res, filled, off) = st;
    if adam7_on_grid(pass, idx % (w as int), idx / (w as int)) && !filled[idx] && off + 4 <= pd.len() {
        (
            Seq::new(res.len(), |i: int| if 4 * idx <= i < 4 * idx + 4 { pd[off + (i - 4 * idx)] } else { res[i] }),
            filled.update(idx, true),
            off + 4,
        )
    } else {
        st
    }
}

/// The state after pixels `0..k` of pass `pass`.
pub open spec fn adam7_fill_pass(st: Adam7State, pd: Seq<u8>, w: nat, pass: int, k: nat) -> Adam7State
    decreases k,
{
    if k == 0 { st } else { adam7_fill_step(adam7_fill_pass(st, pd, w, pass, (k - 1) as nat), pd, w, pass, k - 1) }
}

/// Image bytes and set pixels after passes `0..q` over `n` pixels, starting
/// from a zeroed image.
pub open spec fn adam7_fill(passes: Seq<Seq<u8>>, w: nat, n: nat, q: nat) -> (Seq<u8>, Seq<bool>)
    decreases q,
{
    if q == 0 {
        (Seq::new(4 * n, |i: int| 0u8), Seq::new(n, |i: int| false))
    } else {
        let (r, f) = adam7_fill(passes, w, n, (q - 1) as nat);
        let st = adam7_fill_pass((r, f, 0), passes[q - 1], w, q - 1, n);
        (st.0, st.1)
    }
}

/// What rebuilding a `width` x `height` RGBA image from its seven Adam7
/// passes yields: the passes must hold exactly `width * height * 4` bytes.
pub open spec fn reconstruct_adam7_spec(passes: Seq<Seq<u8>>, width: nat, height: nat) -> Result<Seq<u8>, CafeError> {
    if width * height == 0 || adam7_total_len(passes) != width * height * 4 || width * height * 4 > usize::MAX {
        Err(CafeError::TruncatedFile("Adam7 passes do not hold the image's bytes"))
    } else {
        Ok(adam7_fill(passes, width, width * height, 7).0)
    }
}

/// Rebuilds a `width` x `height` RGBA image from its seven Adam7 passes,
/// placing each pass's pixels on the pass's grid positions not set by an
/// earlier pass. Rejects dimensions of zero pixels, and passes whose lengths
/// do not add up to exactly `width * height * 4` bytes.
pub fn reconstruct_adam7(passes: &[Vec<u8>; ADAM7_NUM_PASSES], width: u32, height: u32) -> (r: Result<Vec<u8>, CafeError>)
    ensures
        match r {
            Ok(v) => reconstruct_adam7_spec(pass_views(passes@), width as nat, height as nat) == Ok::<Seq<u8>, CafeError>(v@),
            Err(e) => reconstruct_adam7_spec(pass_views(passes@), width as nat, height as nat) == Err::<Seq<u8>, CafeError>(e),
        },
{
    let ghost views = pass_views(passes@);
    let mut available: u128 = 0;
    let mut q: usize = 0;
    while q < ADAM7_NUM_PASSES
        invariant
            q <= 7,
            views == pass_views(passes@),
            passes@.len() == 7,
            available == (if q > 0 { views[0].len() } else { 0 }) + (if q > 1 { views[1].len() } else { 0 })
                + (if q > 2 { views[2].len() } else { 0 }) + (if q > 3 { views[3].len() } else { 0 })
                + (if q > 4 { views[4].len() } else { 0 }) + (if q > 5 { views[5].len() } else { 0 })
                + (if q > 6 { views[6].len() } else { 0 }),
            available <= q * 0xffff_ffff_ffff_ffff,
        decreases 7 - q,
    {
        available = available + passes[q].len() as u128;
        q += 1;
    }
    let total = match interlaced_total(width, height, available) {
        Some(n) => n,
        None => return Err(CafeError::TruncatedFile("Adam7 passes do not hold the image's bytes")),
    };
    let n = total / BPP;
    let w = width as usize;
    let h = height as usize;
    proof {
        assert(w * h * 4 == 4 * (w * h)) by (nonlinear_arith);
        assert(w > 0) by (nonlinear_arith) requires w * h > 0;
    }
    let mut result: Vec<u8> = vec![0u8; total];
    let mut filled: Vec<bool> = vec![false; n];
    assert(result@ =~= adam7_fill(views, w as nat, n as nat, 0).0);
    assert(filled@ =~= adam7_fill(views, w as nat, n as nat, 0).1);
    let mut pass: usize = 0;
    while pass < ADAM7_NUM_PASSES
        invariant
            pass <= 7,
            views == pass_views(passes@),
            passes@.len() == 7,
            w == width, h == height, n == w * h, w > 0, total == 4 * n, n <= usize::MAX,
            (result@, filled@) == adam7_fill(views, w as nat, n as nat, pass as nat),
            result@.len() == 4 * n,
            filled@.len() == n,
        decreases 7 - pass,
    {
        let pd = &passes[pass];
        assert(pd@ == views[pass as int]);
        let ghost start: Adam7State = (result@, filled@, 0nat);
        let mut off: usize = 0;
        let mut y: usize = 0;
        while y < h
            invariant
                pass < 7,
                pd@ == views[pass as int],
                w == width, h == height, n == w * h, w > 0, total == 4 * n, n <= usize::MAX,
                y <= h,
                (result@, filled@, off as nat) == adam7_fill_pass(start, pd@, w as nat, pass as int, (y * w) as nat),
                result@.len() == 4 * n,
                filled@.len() == n,
            decreases h - y,
        {
            let mut x: usize = 0;
            while x < w
                invariant
                    pass < 7,
                    pd@ == views[pass as int],
                    w == width, h == height, n == w * h, w > 0, total == 4 * n, n <= usize::MAX,
                    y < h,
                    x <= w,
                    (result@, filled@, off as nat) == adam7_fill_pass(start, pd@, w as nat, pass as int, (y * w + x) as nat),
                    result@.len() == 4 * n,
                    filled@.len() == n,
                decreases w - x,
            {
                proof {
                    lemma_pixel_index(x as int, y as int, w as int, h as int);
                }
                let idx = y * w + x;
                let ghost before: Adam7State = (result@, filled@, off as nat);
                if on_grid(pass, x, y) && !filled[idx] && pd.len() >= BPP && off <= pd.len() - BPP {
                    let p = idx * BPP;
                    result[p] = pd[off];
                    result[p + 1] = pd[off + 1];
                    result[p + 2] = pd[off + 2];
                    result[p + 3] = pd[off + 3];
                    filled[idx] = true;
                    off = off + BPP;
                    assert(result@ =~= adam7_fill_step(before, pd@, w as nat, pass as int, idx as int).0);
                    assert(filled@ =~= adam7_fill_step(before, pd@, w as nat, pass as int, idx as int).1);
                }
                x += 1;
            }
            proof {
                assert((y + 1) * w == y * w + w) by (nonlinear_arith);
            }
            y += 1;
        }
        proof {
            assert(h * w == n) by (nonlinear_arith) requires n == w * h;
        }
        pass += 1;
    }
    Ok(result)
}

/// Pass width and height that Adam7 pass `pass` covers in a `width` x
/// `height` image: the number of grid columns and rows inside the image.
pub open spec fn adam7_pass_dims_spec(width: nat, height: nat, pass: nat) -> (nat, nat) {
    if pass >= ADAM7_NUM_PASSES {
        (0, 0)
    } else {
        let (xs, ys, xo, yo) = adam7_params(pass as int);
        let pw = if width > xo { ((width - xo + xs - 1) / xs) as nat } else { 0 };
        let ph = if height > yo { ((height - yo + ys - 1) / ys) as nat } else { 0 };
        (pw, ph)
    }
}

fn div_ceil_u32(d: u32, s: u32) -> (r: u32)
    requires s > 0,
    ensures r == (d + s - 1) / (s as int),
{
    let q = d / s;
    let m = d % s;
    proof {
        lemma_fundamental_div_mod(d as int, s as int);
        lemma_mod_bound(d as int, s as int);
        assert((q + 1) * s == s * q + s) by (nonlinear_arith);
        assert(q * s == s * q) by (nonlinear_arith);
        if m == 0 {
            lemma_fundamental_div_mod_converse(d + s - 1, s as int, q as int, s - 1);
        } else {
            lemma_fundamental_div_mod_converse(d + s - 1, s as int, q + 1, m - 1);
        }
        assert(q * s <= d) by (nonlinear_arith) requires d == s * q + m, m >= 0;
        assert(q < u32::MAX || m == 0) by (nonlinear_arith) requires d == s * q + m, 0 <= m < s, d <= u32::MAX, s >= 1;
    }
    if m != 0 { q + 1 } else { q }
}

/// Number of columns and rows Adam7 pass `pass` covers in a `width` x
/// `height` image; `(0, 0)` for a pass out of range.
pub fn adam7_pass_dimensions(width: u32, height: u32, pass: usize) -> (r: (u32, u32))
    ensures (r.0 as nat, r.1 as nat) == adam7_pass_dims_spec(width as nat, height as nat, pass as nat),
{
    if pass >= ADAM7_NUM_PASSES {
        return (0, 0);
    }
    let (xs, ys, xo, yo) = adam7_pass_params(pass);
    let pass_width = if width > xo { div_ceil_u32(width - xo, xs) } else { 0 };
    let pass_height = if height > yo { div_ceil_u32(height - yo, ys) } else { 0 };
    (pass_width, pass_height)
}

/// Number of pixels Adam7 pass `pass` covers in a `width` x `height` image.
pub fn adam7_pass_pixel_count(width: u32, height: u32, pass: usize) -> (r: u32)
    requires
        adam7_pass_dims_spec(width as nat, height as nat, pass as nat).0
            * adam7_pass_dims_spec(width as nat, height as nat, pass as nat).1 <= u32::MAX,
    ensures
        r == adam7_pass_dims_spec(width as nat, height as nat, pass as nat).0
            * adam7_pass_dims_spec(width as nat, height as nat, pass as nat).1,
{
    let (w, h) = adam7_pass_dimensions(width, height, pass);
    w * h
}

/// Number of pixels among `0..k` that pass `pass` carries.
pub open spec fn adam7_count(w: nat, pass: int, k: nat) -> nat
    decreases k,
{
    if k == 0 {
        0
    } else {
        adam7_count(w, pass, (k - 1) as nat) + if adam7_pass_of(w, k - 1) == pass { 1nat } else { 0nat }
    }
}

proof fn lemma_first_pass_on_grid(w: nat, idx: int)
    requires w > 0, idx >= 0,
    ensures
        0 <= adam7_pass_of(w, idx) < 7,
        adam7_on_grid(adam7_pass_of(w, idx), idx % (w as int), idx / (w as int)),
        forall|p: int| 0 <= p < 7 && #[trigger] adam7_on_grid(p, idx % (w as int), idx / (w as int))
            ==> adam7_pass_of(w, idx) <= p,
{
    let x = idx % (w as int);
    let y = idx / (w as int);
    lemma_mod_bound(idx, w as int);
    lemma_fundamental_div_mod(idx, w as int);
    assert(y >= 0) by (nonlinear_arith) requires idx == w * y + x, 0 <= x < w, idx >= 0;
    lemma_mod_bound(x, 1);
    lemma_mod_bound(y, 1);
}

proof fn lemma_count_mono(w: nat, pass: int, i: nat, k: nat)
    requires i <= k,
    ensures
        adam7_count(w, pass, i) <= adam7_count(w, pass, k),
        i < k && adam7_pass_of(w, i as int) == pass ==> adam7_count(w, pass, i) + 1 <= adam7_count(w, pass, k),
    decreases k - i,
{
    if i < k {
        lemma_count_mono(w, pass, i, (k - 1) as nat);
        if i < k - 1 {
            lemma_count_mono(w, pass, i + 1, (k - 1) as nat);
        }
    }
}

proof fn lemma_count_sum(w: nat, k: nat)
    requires w > 0,
    ensures
        adam7_count(w, 0, k) + adam7_count(w, 1, k) + adam7_count(w, 2, k) + adam7_count(w, 3, k)
            + adam7_count(w, 4, k) + adam7_count(w, 5, k) + adam7_count(w, 6, k) == k,
    decreases k,
{
    if k > 0 {
        lemma_count_sum(w, (k - 1) as nat);
        lemma_first_pass_on_grid(w, k - 1);
    }
}

/// With every pixel present, pass `pass` holds its pixels' bytes in order.
proof fn lemma_adam7_pieces(raw: Seq<u8>, w: nat, pass: int, k: nat)
    requires 4 * k <= raw.len(),
    ensures
        adam7_pieces(raw, w, pass, k).len() == 4 * adam7_count(w, pass, k),
        forall|i: int, j: int| 0 <= i < k && 0 <= j < 4 && adam7_pass_of(w, i) == pass ==>
            #[trigger] adam7_pieces(raw, w, pass, k)[4 * adam7_count(w, pass, i as nat) + j] == raw[4 * i + j],
    decreases k,
{
    if k > 0 {
        let k1 = (k - 1) as nat;
        lemma_adam7_pieces(raw, w, pass, k1);
        let prev = adam7_pieces(raw, w, pass, k1);
        assert forall|i: int, j: int| 0 <= i < k && 0 <= j < 4 && adam7_pass_of(w, i) == pass implies
            #[trigger] adam7_pieces(raw, w, pass, k)[4 * adam7_count(w, pass, i as nat) + j] == raw[4 * i + j] by {
            if i < k1 {
                lemma_count_mono(w, pass, i as nat, k1);
                assert(prev[4 * adam7_count(w, pass, i as nat) + j] == raw[4 * i + j]);
            }
        }
    }
}

/// Rebuilding state at the start of pass `pass`, with earlier passes done right.
pub open spec fn adam7_state_ok(res: Seq<u8>, filled: Seq<bool>, raw: Seq<u8>, w: nat, n: nat, set_before: spec_fn(int) -> bool) -> bool {
    &&& res.len() == 4 * n
    &&& filled.len() == n
    &&& forall|i: int| 0 <= i < n ==> #[trigger] filled[i] == set_before(i)
    &&& forall|i: int| 0 <= i < n && #[trigger] filled[i] ==> pixel_bytes(res, i) == pixel_bytes(raw, i)
}

/// The four bytes of pixel `i`.
pub open spec fn pixel_bytes(s: Seq<u8>, i: int) -> Seq<u8> {
    s.subrange(4 * i, 4 * i + 4)
}

proof fn lemma_adam7_fill_pass(raw: Seq<u8>, w: nat, n: nat, pass: int, st: Adam7State, k: nat)
    requires
        w > 0, 0 <= pass < 7, k <= n, raw.len() == 4 * n,
        st.2 == 0,
        adam7_state_ok(st.0, st.1, raw, w, n, |i: int| adam7_pass_of(w, i) < pass),
    ensures
        ({
            let r = adam7_fill_pass(st, adam7_pieces(raw, w, pass, n), w, pass, k);
            &&& r.2 == 4 * adam7_count(w, pass, k)
            &&& adam7_state_ok(r.0, r.1, raw, w, n,
                    |i: int| adam7_pass_of(w, i) < pass || (adam7_pass_of(w, i) == pass && i < k))
        }),
    decreases k,
{
    let pd = adam7_pieces(raw, w, pass, n);
    lemma_adam7_pieces(raw, w, pass, n);
    if k > 0 {
        let k1 = (k - 1) as nat;
        lemma_adam7_fill_pass(raw, w, n, pass, st, k1);
        let prev = adam7_fill_pass(st, pd, w, pass, k1);
        let (res, filled, off) = prev;
        let idx = k - 1;
        lemma_first_pass_on_grid(w, idx);
        lemma_count_mono(w, pass, idx as nat, n);
        let next = adam7_fill_step(prev, pd, w, pass, idx);
        assert(filled[idx] == (adam7_pass_of(w, idx) < pass));
        if adam7_on_grid(pass, idx % (w as int), idx / (w as int)) && !filled[idx] && off + 4 <= pd.len() {
            assert(adam7_pass_of(w, idx) == pass);
            assert forall|i: int| 0 <= i < n && #[trigger] next.1[i] implies pixel_bytes(next.0, i) == pixel_bytes(raw, i) by {
                if i == idx {
                    assert forall|j: int| 0 <= j < 4 implies #[trigger] pixel_bytes(next.0, i)[j] == pixel_bytes(raw, i)[j] by {
                        assert(pd[4 * adam7_count(w, pass, idx as nat) + j] == raw[4 * idx + j]);
                    }
                    assert(pixel_bytes(next.0, i) =~= pixel_bytes(raw, i));
                } else {
                    assert(filled[i]);
                    assert(pixel_bytes(next.0, i) =~= pixel_bytes(res, i));
                }
            }
        } else {
            assert(adam7_pass_of(w, idx) != pass);
        }
    }
}

proof fn lemma_adam7_fill(raw: Seq<u8>, w: nat, n: nat, q: nat)
    requires w > 0, q <= 7, raw.len() == 4 * n,
    ensures
        ({
            let r = adam7_fill(Seq::new(7, |p: int| adam7_pieces(raw, w, p, n)), w, n, q);
            adam7_state_ok(r.0, r.1, raw, w, n, |i: int| adam7_pass_of(w, i) < q)
        }),
    decreases q,
{
    let passes = Seq::new(7, |p: int| adam7_pieces(raw, w, p, n));
    if q > 0 {
        let q1 = (q - 1) as nat;
        lemma_adam7_fill(raw, w, n, q1);
        let (r, f) = adam7_fill(passes, w, n, q1);
        lemma_adam7_fill_pass(raw, w, n, q1 as int, (r, f, 0), n);
        let st = adam7_fill_pass((r, f, 0), passes[q1 as int], w, q1 as int, n);
        assert forall|i: int| 0 <= i < n implies #[trigger] st.1[i] == (adam7_pass_of(w, i) < q) by {}
    }
}

/// Adam7 round trip: the seven passes of a `width` x `height` RGBA image
/// rebuild exactly that image.
pub proof fn lemma_adam7_roundtrip(raw: Seq<u8>, width: nat, height: nat)
    requires
        raw.len() == width * height * 4,
        width * height > 0,
        width * height * 4 <= usize::MAX,
    ensures
        reconstruct_adam7_spec(Seq::new(7, |p: int| adam7_pass_spec(raw, width, height, p as nat)), width, height)
            == Ok::<Seq<u8>, CafeError>(raw),
{
    let n = width * height;
    assert(width > 0) by (nonlinear_arith) requires width * height > 0;
    assert(width * height * 4 == 4 * n);
    let passes = Seq::new(7, |p: int| adam7_pass_spec(raw, width, height, p as nat));
    let pieces = Seq::new(7, |p: int| adam7_pieces(raw, width, p, n));
    assert(passes =~= pieces);
    lemma_adam7_pieces(raw, width, 0, n);
    lemma_adam7_pieces(raw, width, 1, n);
    lemma_adam7_pieces(raw, width, 2, n);
    lemma_adam7_pieces(raw, width, 3, n);
    lemma_adam7_pieces(raw, width, 4, n);
    lemma_adam7_pieces(raw, width, 5, n);
    lemma_adam7_pieces(raw, width, 6, n);
    lemma_count_sum(width, n);
    assert(adam7_total_len(passes) == 4 * n);
    lemma_adam7_fill(raw, width, n, 7);
    let r = adam7_fill(pieces, width, n, 7);
    assert forall|i: int| 0 <= i < raw.len() implies #[trigger] r.0[i] == raw[i] by {
        let p = i / 4;
        let j = i % 4;
        lemma_fundamental_div_mod(i, 4);
        lemma_mod_bound(i, 4);
        lemma_first_pass_on_grid(width, p);
        assert(r.1[p]);
        assert(pixel_bytes(r.0, p)[j] == pixel_bytes(raw, p)[j]);
    }
    assert(r.0 =~= raw);
}

} // verus!
