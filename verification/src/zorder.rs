//! Morton (Z-order) codes and the order in which an `iDIM` tiling visits
//! its tiles.

use vstd::prelude::*;

use crate::ancillary::{iDim, row_major_order};
use crate::error::CafeError;

verus! {

/// The Morton code of `(x, y)`: the bits of `x` and `y` interleaved, bit
/// `i` of `x` going to bit `2i` and bit `i` of `y` to bit `2i + 1`.
pub open spec fn morton_spec(x: nat, y: nat) -> nat
    decreases x + y,
{
    if x == 0 && y == 0 {
        0
    } else {
        (x % 2) + 2 * (y % 2) + 4 * morton_spec(x / 2, y / 2)
    }
}

/// The `x` of the point with Morton code `c` (the bits of even rank).
pub open spec fn morton_x(c: nat) -> nat
    decreases c,
{
    if c == 0 { 0 } else { (c % 2) + 2 * morton_x(c / 4) }
}

/// The `y` of the point with Morton code `c` (the bits of odd rank).
pub open spec fn morton_y(c: nat) -> nat
    decreases c,
{
    if c == 0 { 0 } else { ((c / 2) % 2) + 2 * morton_y(c / 4) }
}

/// `2^k`.
pub open spec fn pow2(k: nat) -> nat
    decreases k,
{
    if k == 0 { 1 } else { 2 * pow2((k - 1) as nat) }
}

proof fn lemma_pow2_pos(k: nat)
    ensures pow2(k) >= 1,
    decreases k,
{
    if k > 0 {
        lemma_pow2_pos((k - 1) as nat);
    }
}

proof fn lemma_morton_bound(x: nat, y: nat, k: nat)
    requires x < pow2(k), y < pow2(k),
    ensures morton_spec(x, y) < pow2(k) * pow2(k),
    decreases k,
{
    lemma_pow2_pos(k);
    assert(pow2(k) * pow2(k) >= 1) by (nonlinear_arith) requires pow2(k) >= 1;
    if !(x == 0 && y == 0) {
        assert(k > 0);
        lemma_morton_bound(x / 2, y / 2, (k - 1) as nat);
        let p = pow2((k - 1) as nat);
        let m = morton_spec(x / 2, y / 2);
        assert(m + 1 <= p * p);
        assert((x % 2) + 2 * (y % 2) + 4 * m < 4 * (p * p)) by (nonlinear_arith)
            requires x % 2 <= 1, y % 2 <= 1, m + 1 <= p * p;
        assert(pow2(k) * pow2(k) == 4 * (p * p)) by (nonlinear_arith) requires pow2(k) == 2 * p;
    }
}

proof fn lemma_pow2_32()
    ensures
        pow2(0) == 1,
        pow2(32) == 0x1_0000_0000,
        pow2(32) * pow2(32) == 0x1_0000_0000_0000_0000,
{
    reveal_with_fuel(pow2, 33);
}

/// The Morton code of `(x, y)`.
pub fn morton_code(x: u32, y: u32) -> (c: u64)
    ensures c == morton_spec(x as nat, y as nat),
{
    proof {
        lemma_pow2_32();
        lemma_morton_bound(x as nat, y as nat, 32);
    }
    let mut code: u128 = 0;
    let mut mult: u128 = 1;
    let mut a: u32 = x;
    let mut b: u32 = y;
    let ghost mut k: nat = 0;
    while a > 0 || b > 0
        invariant
            morton_spec(x as nat, y as nat) == code + mult * morton_spec(a as nat, b as nat),
            morton_spec(x as nat, y as nat) < 0x1_0000_0000 * 0x1_0000_0000,
            mult == pow2(k) * pow2(k),
            a < pow2((32 - k) as nat), b < pow2((32 - k) as nat),
            k <= 32,
            pow2(0) == 1,
            pow2(32) == 0x1_0000_0000,
        decreases a + b,
    {
        let ghost m = morton_spec(a as nat, b as nat);
        let ghost m2 = morton_spec((a / 2) as nat, (b / 2) as nat);
        assert(k < 32) by {
            if k >= 32 {
                assert(pow2(0) == 1);
            }
        }
        proof {
            assert(m == (a % 2) + 2 * (b % 2) + 4 * m2);
            assert(mult * m == mult * ((a % 2) + 2 * (b % 2)) + (4 * mult) * m2) by (nonlinear_arith)
                requires m == (a % 2) + 2 * (b % 2) + 4 * m2;
            assert(0 <= mult * ((a % 2) + 2 * (b % 2)) <= mult * m) by (nonlinear_arith)
                requires m == (a % 2) + 2 * (b % 2) + 4 * m2, 0 <= mult, 0 <= m2, 0 <= a % 2, 0 <= b % 2;
            assert(pow2((32 - k) as nat) == 2 * pow2((32 - k - 1) as nat));
            assert(pow2((k + 1) as nat) == 2 * pow2(k));
            assert(4 * mult == pow2((k + 1) as nat) * pow2((k + 1) as nat)) by (nonlinear_arith)
                requires mult == pow2(k) * pow2(k), pow2((k + 1) as nat) == 2 * pow2(k);
            assert(0 <= mult * m) by (nonlinear_arith) requires 0 <= mult, 0 <= m;
            lemma_pow2_le(k + 1, 32);
            assert(pow2((k + 1) as nat) * pow2((k + 1) as nat) <= 0x1_0000_0000 * 0x1_0000_0000) by (nonlinear_arith)
                requires pow2((k + 1) as nat) <= 0x1_0000_0000;
        }
        let digit: u128 = (a % 2) as u128 + 2 * (b % 2) as u128;
        proof {
            assert(digit * mult == mult * ((a % 2) + 2 * (b % 2))) by (nonlinear_arith)
                requires digit == (a % 2) + 2 * (b % 2);
            assert(code + digit * mult <= morton_spec(x as nat, y as nat));
        }
        code = code + digit * mult;
        mult = mult * 4;
        a = a / 2;
        b = b / 2;
        proof {
            k = k + 1;
        }
    }
    proof {
        assert(morton_spec(a as nat, b as nat) == 0);
        assert(mult * morton_spec(a as nat, b as nat) == 0) by (nonlinear_arith)
            requires morton_spec(a as nat, b as nat) == 0;
    }
    code as u64
}

proof fn lemma_pow2_le(i: nat, j: nat)
    requires i <= j,
    ensures pow2(i) <= pow2(j),
    decreases j,
{
    if i < j {
        lemma_pow2_le(i, (j - 1) as nat);
    }
}

/// The point `(x, y)` whose Morton code is `code`.
pub fn morton_decode(code: u64) -> (r: (u32, u32))
    ensures r.0 == morton_x(code as nat), r.1 == morton_y(code as nat),
{
    let mut c: u64 = code;
    let mut x: u64 = 0;
    let mut y: u64 = 0;
    let mut mult: u64 = 1;
    let ghost mut k: nat = 0;
    proof {
        lemma_pow2_32();
    }
    while c > 0
        invariant
            morton_x(code as nat) == x + mult * morton_x(c as nat),
            morton_y(code as nat) == y + mult * morton_y(c as nat),
            mult == pow2(k),
            k <= 32,
            c < pow2((32 - k) as nat) * pow2((32 - k) as nat),
            x < mult, y < mult,
            pow2(0) == 1,
            pow2(32) == 0x1_0000_0000,
        decreases c,
    {
        proof {
            if k >= 32 {
                assert(pow2((32 - k) as nat) == 1);
                assert(pow2((32 - k) as nat) * pow2((32 - k) as nat) == 1) by (nonlinear_arith)
                    requires pow2((32 - k) as nat) == 1;
            }
            assert(k < 32);
            let p = pow2((32 - k - 1) as nat);
            assert(pow2((32 - k) as nat) == 2 * p);
            assert(c / 4 < p * p) by (nonlinear_arith) requires c < (2 * p) * (2 * p);
            assert(pow2((k + 1) as nat) == 2 * pow2(k));
            lemma_pow2_le(k + 1, 32);
            assert(mult * morton_x(c as nat) == mult * (c % 2) + (2 * mult) * morton_x((c / 4) as nat)) by (nonlinear_arith)
                requires morton_x(c as nat) == (c % 2) + 2 * morton_x((c / 4) as nat);
            assert(mult * morton_y(c as nat) == mult * ((c / 2) % 2) + (2 * mult) * morton_y((c / 4) as nat)) by (nonlinear_arith)
                requires morton_y(c as nat) == ((c / 2) % 2) + 2 * morton_y((c / 4) as nat);
            assert(x + mult * (c % 2) < 2 * mult) by (nonlinear_arith) requires x < mult, c % 2 <= 1;
            assert(y + mult * ((c / 2) % 2) < 2 * mult) by (nonlinear_arith) requires y < mult, (c / 2) % 2 <= 1;
        }
        x = x + mult * (c % 2);
        y = y + mult * ((c / 2) % 2);
        c = c / 4;
        mult = mult * 2;
        proof {
            k = k + 1;
        }
    }
    proof {
        lemma_pow2_le(k, 32);
        assert(morton_x(c as nat) == 0 && morton_y(c as nat) == 0);
        assert(mult * morton_x(c as nat) == 0 && mult * morton_y(c as nat) == 0) by (nonlinear_arith)
            requires morton_x(c as nat) == 0, morton_y(c as nat) == 0;
    }
    (x as u32, y as u32)
}

/// Morton decoding undoes Morton coding.
pub proof fn lemma_morton_roundtrip(x: nat, y: nat)
    ensures
        morton_x(morton_spec(x, y)) == x,
        morton_y(morton_spec(x, y)) == y,
    decreases x + y,
{
    if !(x == 0 && y == 0) {
        lemma_morton_roundtrip(x / 2, y / 2);
        let m = morton_spec(x / 2, y / 2);
        let c = morton_spec(x, y);
        let d = (x % 2) + 2 * (y % 2);
        assert(c == d + 4 * m);
        vstd::arithmetic::div_mod::lemma_fundamental_div_mod_converse(c as int, 4, m as int, d as int);
        vstd::arithmetic::div_mod::lemma_fundamental_div_mod_converse(c as int, 2, (2 * m + (y % 2)) as int, (x % 2) as int);
        vstd::arithmetic::div_mod::lemma_fundamental_div_mod_converse((2 * m + (y % 2)) as int, 2, m as int, (y % 2) as int);
        assert(c != 0);
    }
}

// ---------------------------------------------------------------------------
// Tile visiting order
// ---------------------------------------------------------------------------

/// The tiles of a `tiles_x` by `tiles_y` grid inside the `2^k`-sided square
/// block at `(x0, y0)`, in Z order: the block's four quadrants in the order
/// top-left, top-right, bottom-left, bottom-right, each in Z order.
pub open spec fn zorder_block(x0: nat, y0: nat, k: nat, tiles_x: nat, tiles_y: nat) -> Seq<(u16, u16)>
    decreases k,
{
    if x0 >= tiles_x || y0 >= tiles_y {
        Seq::empty()
    } else if k == 0 {
        seq![(x0 as u16, y0 as u16)]
    } else {
        let h = pow2((k - 1) as nat);
        zorder_block(x0, y0, (k - 1) as nat, tiles_x, tiles_y)
            + zorder_block(x0 + h, y0, (k - 1) as nat, tiles_x, tiles_y)
            + zorder_block(x0, y0 + h, (k - 1) as nat, tiles_x, tiles_y)
            + zorder_block(x0 + h, y0 + h, (k - 1) as nat, tiles_x, tiles_y)
    }
}

/// The tiles of a grid in Z order (the grid fits in a `2^16`-sided square).
pub open spec fn zorder_order(tiles_x: nat, tiles_y: nat) -> Seq<(u16, u16)> {
    zorder_block(0, 0, 16, tiles_x, tiles_y)
}

fn push_zorder_block(out: &mut Vec<(u16, u16)>, x0: u32, y0: u32, k: u32, tiles_x: u16, tiles_y: u16)
    requires
        k <= 16,
        x0 + pow2(k as nat) <= 0x2_0000,
        y0 + pow2(k as nat) <= 0x2_0000,
    ensures
        final(out)@ == old(out)@ + zorder_block(x0 as nat, y0 as nat, k as nat, tiles_x as nat, tiles_y as nat),
    decreases k,
{
    if x0 >= tiles_x as u32 || y0 >= tiles_y as u32 {
        assert(old(out)@ + Seq::empty() =~= old(out)@);
        return;
    }
    if k == 0 {
        out.push((x0 as u16, y0 as u16));
        return;
    }
    proof {
        reveal_with_fuel(pow2, 17);
        lemma_pow2_le((k - 1) as nat, 15);
    }
    let h: u32 = 1u32 << (k - 1);
    proof {
        assert(h == pow2((k - 1) as nat)) by {
            lemma_shl_pow2((k - 1) as u32);
        }
    }
    let ghost before = out@;
    push_zorder_block(out, x0, y0, k - 1, tiles_x, tiles_y);
    push_zorder_block(out, x0 + h, y0, k - 1, tiles_x, tiles_y);
    push_zorder_block(out, x0, y0 + h, k - 1, tiles_x, tiles_y);
    push_zorder_block(out, x0 + h, y0 + h, k - 1, tiles_x, tiles_y);
    proof {
        let km = (k - 1) as nat;
        let (tx, ty) = (tiles_x as nat, tiles_y as nat);
        let (a, b, xh, yh) = (x0 as nat, y0 as nat, (x0 + h) as nat, (y0 + h) as nat);
        assert(out@ =~= before + (zorder_block(a, b, km, tx, ty)
            + zorder_block(xh, b, km, tx, ty)
            + zorder_block(a, yh, km, tx, ty)
            + zorder_block(xh, yh, km, tx, ty)));
    }
}

proof fn lemma_shl_pow2(j: u32)
    requires j < 16,
    ensures (1u32 << j) == pow2(j as nat),
{
    reveal_with_fuel(pow2, 17);
    assert(1u32 << 0u32 == 1) by (bit_vector);
    assert(1u32 << 1u32 == 2) by (bit_vector);
    assert(1u32 << 2u32 == 4) by (bit_vector);
    assert(1u32 << 3u32 == 8) by (bit_vector);
    assert(1u32 << 4u32 == 16) by (bit_vector);
    assert(1u32 << 5u32 == 32) by (bit_vector);
    assert(1u32 << 6u32 == 64) by (bit_vector);
    assert(1u32 << 7u32 == 128) by (bit_vector);
    assert(1u32 << 8u32 == 256) by (bit_vector);
    assert(1u32 << 9u32 == 512) by (bit_vector);
    assert(1u32 << 10u32 == 1024) by (bit_vector);
    assert(1u32 << 11u32 == 2048) by (bit_vector);
    assert(1u32 << 12u32 == 4096) by (bit_vector);
    assert(1u32 << 13u32 == 8192) by (bit_vector);
    assert(1u32 << 14u32 == 16384) by (bit_vector);
    assert(1u32 << 15u32 == 32768) by (bit_vector);
}

/// The order in which a tiling's tiles are visited.
pub open spec fn tile_order_spec(d: iDim) -> Result<Seq<(u16, u16)>, CafeError> {
    if d.scan_order == 0 {
        Ok(row_major_order(d.tiles_x as nat, d.tiles_y as nat))
    } else if d.scan_order == 1 {
        Ok(zorder_order(d.tiles_x as nat, d.tiles_y as nat))
    } else {
        Err(CafeError::UnsupportedFeature("Unknown scan order", Some(d.scan_order as u64)))
    }
}

impl iDim {
    /// The tile positions `(tx, ty)` in visiting order: row-major for scan
    /// order 0, Z order (increasing Morton code) for scan order 1;
    /// `UnsupportedFeature` for any other scan order.
    pub fn tile_order(&self) -> (r: Result<Vec<(u16, u16)>, CafeError>)
        ensures
            match r {
                Ok(v) => tile_order_spec(*self) == Ok::<Seq<(u16, u16)>, CafeError>(v@),
                Err(e) => tile_order_spec(*self) == Err::<Seq<(u16, u16)>, CafeError>(e),
            },
    {
        if self.scan_order == 0 {
            Ok(self.tile_order_row_major())
        } else if self.scan_order == 1 {
            let mut out: Vec<(u16, u16)> = Vec::new();
            proof {
                reveal_with_fuel(pow2, 17);
            }
            push_zorder_block(&mut out, 0, 0, 16, self.tiles_x, self.tiles_y);
            assert(out@ =~= zorder_order(self.tiles_x as nat, self.tiles_y as nat));
            Ok(out)
        } else {
            Err(CafeError::UnsupportedFeature("Unknown scan order", Some(self.scan_order as u64)))
        }
    }
}

} // verus!
