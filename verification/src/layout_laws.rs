//! Where the layout transforms put each byte, stated position by position:
//! the byte shuffle stores byte plane `j` of every pixel together, a Morton
//! code puts `x` on the even bits and `y` on the odd bits, even/odd
//! interlacing gives the even rows to pass 0 and the odd rows to pass 1,
//! and a palette's index depth is the smallest that addresses every entry.

use vstd::prelude::*;
use crate::interlace::{even_odd_pass_spec, even_odd_rows};
use crate::palette::palette_bit_depth_spec;
use crate::shuffle::shuffle_spec;
use crate::zorder::{morton_spec, pow2};

verus! {

// ---------------------------------------------------------------------------
// Byte shuffle
// ---------------------------------------------------------------------------

/// The byte shuffle stores the planes one after another: byte `j` of pixel
/// `p` lands at `j * pixels + p`.
pub proof fn lemma_shuffle_planes(raw: Seq<u8>, bpp: nat, pixels: nat)
    requires raw.len() == pixels * bpp,
    ensures
        shuffle_spec(raw, bpp, pixels).len() == raw.len(),
        forall|p: int, j: int| 0 <= p < pixels && 0 <= j < bpp ==>
            #[trigger] shuffle_spec(raw, bpp, pixels)[j * pixels + p] == raw[p * bpp + j],
{
    assert forall|p: int, j: int| 0 <= p < pixels && 0 <= j < bpp implies
        #[trigger] shuffle_spec(raw, bpp, pixels)[j * pixels + p] == raw[p * bpp + j] by {
        let i = j * pixels + p;
        assert(0 <= i < pixels * bpp) by (nonlinear_arith)
            requires i == j * pixels + p, 0 <= p < pixels, 0 <= j < bpp;
        vstd::arithmetic::div_mod::lemma_fundamental_div_mod_converse(i, pixels as int, j, p);
    }
}

// ---------------------------------------------------------------------------
// Morton order
// ---------------------------------------------------------------------------

/// A Morton code interleaves its coordinates: it is the code of `(x, 0)`
/// (the bits of `x` spread to the even positions) plus twice the code of
/// `(y, 0)` (the bits of `y` spread the same way, shifted to the odd ones).
pub proof fn lemma_morton_interleaves(x: nat, y: nat)
    ensures morton_spec(x, y) == morton_spec(x, 0) + 2 * morton_spec(y, 0),
    decreases x + y,
{
    if !(x == 0 && y == 0) {
        lemma_morton_interleaves(x / 2, y / 2);
        assert(morton_spec(x, y) == (x % 2) + 2 * (y % 2) + 4 * morton_spec(x / 2, y / 2));
        if x > 0 {
            assert(morton_spec(x, 0) == (x % 2) + 4 * morton_spec(x / 2, 0));
        }
        if y > 0 {
            assert(morton_spec(y, 0) == (y % 2) + 4 * morton_spec(y / 2, 0));
        }
    }
}

// ---------------------------------------------------------------------------
// Even/odd interlacing
// ---------------------------------------------------------------------------

proof fn lemma_rows_from(raw: Seq<u8>, rb: nat, h: nat, y: nat)
    requires raw.len() == h * rb,
    ensures
        y <= h ==> even_odd_rows(raw, rb, h, y).len() == ((h - y + 1) / 2) * rb,
        forall|r: int, k: int| 0 <= r && y + 2 * r < h && 0 <= k < rb ==>
            #[trigger] even_odd_rows(raw, rb, h, y)[r * rb + k] == raw[(y + 2 * r) * rb + k],
    decreases h + 1 - y,
{
    let t = even_odd_rows(raw, rb, h, y);
    if y < h {
        assert((y + 1) * rb <= h * rb) by (nonlinear_arith) requires y + 1 <= h;
        assert((y + 1) * rb == y * rb + rb) by (nonlinear_arith);
        let row = raw.subrange((y * rb) as int, ((y + 1) * rb) as int);
        lemma_rows_from(raw, rb, h, y + 2);
        let rest = even_odd_rows(raw, rb, h, y + 2);
        assert(t == row + rest);
        assert(t.len() == rb + rest.len());
        if y + 2 <= h {
            let n: int = h - (y + 2) + 1;
            vstd::arithmetic::div_mod::lemma_fundamental_div_mod(n, 2);
            vstd::arithmetic::div_mod::lemma_fundamental_div_mod(n + 2, 2);
            assert((h - y + 1) / 2 == 1 + (h - (y + 2) + 1) / 2);
            assert(((h - y + 1) / 2) * rb == rb + ((h - (y + 2) + 1) / 2) * rb) by (nonlinear_arith)
                requires (h - y + 1) / 2 == 1 + (h - (y + 2) + 1) / 2;
            assert(t.len() == ((h - y + 1) / 2) * rb);
        } else {
            assert(rest.len() == 0);
            assert(h - y + 1 == 2);
            assert((h - y + 1) / 2 == 1);
            assert(t.len() == ((h - y + 1) / 2) * rb);
        }
        assert forall|r: int, k: int| 0 <= r && y + 2 * r < h && 0 <= k < rb implies
            #[trigger] t[r * rb + k] == raw[(y + 2 * r) * rb + k] by {
            if r == 0 {
                assert(t[k] == row[k]);
            } else {
                assert(r * rb + k == rb + ((r - 1) * rb + k)) by (nonlinear_arith);
                assert(y + 2 + 2 * (r - 1) == y + 2 * r);
                assert((r - 1) * rb + k < rest.len()) by (nonlinear_arith)
                    requires rest.len() == ((h - (y + 2) + 1) / 2) * rb, y + 2 * r < h, 0 <= k < rb, r >= 1;
                assert(t[r * rb + k] == rest[(r - 1) * rb + k]);
            }
        }
    } else if y == h {
        assert(t.len() == 0);
        assert((h - y + 1) / 2 == 0);
        assert(((h - y + 1) / 2) * rb == 0);
    }
}

/// Even/odd interlacing of a `width` x `height` RGBA image gives pass 0 the
/// even rows and pass 1 the odd rows, in order: byte `k` of row `r` of pass
/// `pass` is byte `k` of image row `2r + pass`, and the pass holds exactly
/// those rows.
pub proof fn lemma_even_odd_rows_split(raw: Seq<u8>, width: nat, height: nat, pass: nat)
    requires raw.len() == width * height * 4, pass <= 1,
    ensures ({
        let rb = width * 4;
        let t = even_odd_pass_spec(raw, width, height, pass);
        &&& pass <= height ==> t.len() == ((height - pass + 1) / 2) * rb
        &&& forall|r: int, k: int| 0 <= r && pass + 2 * r < height && 0 <= k < rb ==>
            #[trigger] t[r * rb + k] == raw[(pass + 2 * r) * rb + k]
    }),
{
    assert(width * height * 4 == height * (width * 4)) by (nonlinear_arith);
    lemma_rows_from(raw, width * 4, height, pass);
}

// ---------------------------------------------------------------------------
// Palette index depth
// ---------------------------------------------------------------------------

/// A palette of `n` entries (at most 256) is indexed at the smallest of the
/// depths 1, 2, 4 and 8 whose `2^d` values address every entry.
pub proof fn lemma_palette_depth_minimal(n: nat)
    requires n <= 256,
    ensures ({
        let d = palette_bit_depth_spec(n);
        &&& d == 1 || d == 2 || d == 4 || d == 8
        &&& n <= pow2(d as nat)
        &&& d > 1 ==> n > pow2(1)
        &&& d > 2 ==> n > pow2(2)
        &&& d > 4 ==> n > pow2(4)
    }),
{
    reveal_with_fuel(pow2, 9);
}

} // verus!
