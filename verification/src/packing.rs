//! Sub-byte sample packing: rows of 1-, 2- or 4-bit samples stored most
//! significant bits first, `8 / bit_depth` samples per byte, the last byte
//! padded with zero bits.

use vstd::prelude::*;
use vstd::arithmetic::div_mod::{lemma_fundamental_div_mod, lemma_fundamental_div_mod_converse, lemma_mod_bound};

verus! {

/// Bit depths that pack several samples into a byte.
pub open spec fn sub_byte_depth(bd: int) -> bool {
    bd == 1 || bd == 2 || bd == 4
}

/// Samples per byte at bit depth `bd`.
pub open spec fn per_byte(bd: int) -> int {
    if bd == 1 { 8 } else if bd == 2 { 4 } else { 2 }
}

/// Largest sample value at bit depth `bd`.
pub open spec fn sample_mask(bd: int) -> u8 {
    if bd == 1 { 1 } else if bd == 2 { 3 } else { 15 }
}

/// Bit position (from the least significant bit) of slot `s` of a byte.
pub open spec fn slot_shift(bd: int, s: int) -> u8 {
    if bd == 1 { (7 - s) as u8 } else if bd == 2 { (6 - 2 * s) as u8 } else { (4 - 4 * s) as u8 }
}

/// Number of bytes holding `n` samples of `bd` bits: `ceil(n * bd / 8)`.
pub open spec fn packed_len(n: nat, bd: nat) -> nat {
    ((n * bd + 7) / 8) as nat
}

/// Sample `i` of `vals`, or zero past the first `n`.
pub open spec fn slot_value(vals: Seq<u8>, n: nat, i: int) -> u8 {
    if 0 <= i < n { vals[i] } else { 0 }
}

/// Byte `j` of the packing, from its first `s` slots.
pub open spec fn packed_byte_upto(vals: Seq<u8>, n: nat, bd: int, j: int, s: nat) -> u8
    decreases s,
{
    if s == 0 {
        0
    } else {
        packed_byte_upto(vals, n, bd, j, (s - 1) as nat)
            | (slot_value(vals, n, j * per_byte(bd) + s - 1) << slot_shift(bd, s - 1))
    }
}

/// Byte `j` of the packing of the first `n` samples of `vals`.
pub open spec fn packed_byte(vals: Seq<u8>, n: nat, bd: int, j: int) -> u8 {
    packed_byte_upto(vals, n, bd, j, per_byte(bd) as nat)
}

/// The first `n` samples of `vals` packed at `bd` bits each.
pub open spec fn pack_spec(vals: Seq<u8>, n: nat, bd: int) -> Seq<u8> {
    Seq::new(packed_len(n, bd as nat), |j: int| packed_byte(vals, n, bd, j))
}

/// Sample `i` of a packed row.
pub open spec fn packed_sample(packed: Seq<u8>, bd: int, i: int) -> u8 {
    (packed[i / per_byte(bd)] >> slot_shift(bd, i % per_byte(bd))) & sample_mask(bd)
}

/// The first `n` samples of a packed row, one per byte.
pub open spec fn unpack_spec(packed: Seq<u8>, n: nat, bd: int) -> Seq<u8> {
    Seq::new(n, |i: int| packed_sample(packed, bd, i))
}

/// Every one of the first `n` samples fits in `bd` bits.
pub open spec fn samples_fit(vals: Seq<u8>, n: nat, bd: int) -> bool {
    forall|i: int| 0 <= i < n ==> #[trigger] vals[i] <= sample_mask(bd)
}

proof fn lemma_packed_len(n: nat, bd: nat)
    requires sub_byte_depth(bd as int),
    ensures
        packed_len(n, bd) * per_byte(bd as int) >= n,
        n > 0 ==> (n - 1) / per_byte(bd as int) < packed_len(n, bd),
        packed_len(n, bd) == (n + per_byte(bd as int) - 1) / per_byte(bd as int),
{
    let pb = per_byte(bd as int);
    if bd == 1 {
        assert(pb == 8);
    } else if bd == 2 {
        assert(pb == 4);
        assert(packed_len(n, bd) == (2 * n + 7) / 8);
        lemma_fundamental_div_mod((n + 3) as int, 4);
        lemma_mod_bound((n + 3) as int, 4);
        lemma_fundamental_div_mod((2 * n + 7) as int, 8);
        lemma_mod_bound((2 * n + 7) as int, 8);
    } else {
        assert(pb == 2);
        lemma_fundamental_div_mod((n + 1) as int, 2);
        lemma_mod_bound((n + 1) as int, 2);
        lemma_fundamental_div_mod((4 * n + 7) as int, 8);
        lemma_mod_bound((4 * n + 7) as int, 8);
    }
    lemma_fundamental_div_mod((n + pb - 1) as int, pb);
    lemma_mod_bound((n + pb - 1) as int, pb);
    if n > 0 {
        lemma_fundamental_div_mod((n - 1) as int, pb);
        lemma_mod_bound((n - 1) as int, pb);
    }
}

/// Extracting a slot of a packed byte gives back the sample stored there.
proof fn lemma_extract_slot(vals: Seq<u8>, n: nat, bd: int, j: int, s: int)
    requires
        sub_byte_depth(bd), 0 <= s < per_byte(bd), j >= 0,
        forall|k: int| 0 <= k < per_byte(bd) ==> #[trigger] slot_value(vals, n, j * per_byte(bd) + k) <= sample_mask(bd),
    ensures
        (packed_byte(vals, n, bd, j) >> slot_shift(bd, s)) & sample_mask(bd) == slot_value(vals, n, j * per_byte(bd) + s),
{
    let pb = per_byte(bd);
    let b = j * pb;
    if bd == 1 {
        assert(pb == 8);
        reveal_with_fuel(packed_byte_upto, 9);
        let v0 = slot_value(vals, n, b);
        let v1 = slot_value(vals, n, b + 1);
        let v2 = slot_value(vals, n, b + 2);
        let v3 = slot_value(vals, n, b + 3);
        let v4 = slot_value(vals, n, b + 4);
        let v5 = slot_value(vals, n, b + 5);
        let v6 = slot_value(vals, n, b + 6);
        let v7 = slot_value(vals, n, b + 7);
        assert(slot_value(vals, n, b + 0) == v0);
        let x = packed_byte(vals, n, bd, j);
        assert(x == (((((((0u8 | (v0 << 7u8)) | (v1 << 6u8)) | (v2 << 5u8)) | (v3 << 4u8)) | (v4 << 3u8)) | (v5 << 2u8)) | (v6 << 1u8)) | (v7 << 0u8));
        assert(v0 <= 1 && v1 <= 1 && v2 <= 1 && v3 <= 1 && v4 <= 1 && v5 <= 1 && v6 <= 1 && v7 <= 1);
        let sh = slot_shift(bd, s);
        assert(sh == 7 - s);
        assert(
            (x >> 7u8) & 1 == v0 && (x >> 6u8) & 1 == v1 && (x >> 5u8) & 1 == v2 && (x >> 4u8) & 1 == v3
                && (x >> 3u8) & 1 == v4 && (x >> 2u8) & 1 == v5 && (x >> 1u8) & 1 == v6 && (x >> 0u8) & 1 == v7
        ) by (bit_vector)
            requires
                x == (((((((0u8 | (v0 << 7u8)) | (v1 << 6u8)) | (v2 << 5u8)) | (v3 << 4u8)) | (v4 << 3u8)) | (v5 << 2u8)) | (v6 << 1u8)) | (v7 << 0u8),
                v0 <= 1, v1 <= 1, v2 <= 1, v3 <= 1, v4 <= 1, v5 <= 1, v6 <= 1, v7 <= 1;
    } else if bd == 2 {
        assert(pb == 4);
        reveal_with_fuel(packed_byte_upto, 5);
        let v0 = slot_value(vals, n, b);
        let v1 = slot_value(vals, n, b + 1);
        let v2 = slot_value(vals, n, b + 2);
        let v3 = slot_value(vals, n, b + 3);
        assert(slot_value(vals, n, b + 0) == v0);
        let x = packed_byte(vals, n, bd, j);
        assert(x == (((0u8 | (v0 << 6u8)) | (v1 << 4u8)) | (v2 << 2u8)) | (v3 << 0u8));
        assert(v0 <= 3 && v1 <= 3 && v2 <= 3 && v3 <= 3);
        assert((x >> 6u8) & 3 == v0 && (x >> 4u8) & 3 == v1 && (x >> 2u8) & 3 == v2 && (x >> 0u8) & 3 == v3) by (bit_vector)
            requires
                x == (((0u8 | (v0 << 6u8)) | (v1 << 4u8)) | (v2 << 2u8)) | (v3 << 0u8),
                v0 <= 3, v1 <= 3, v2 <= 3, v3 <= 3;
    } else {
        assert(pb == 2);
        reveal_with_fuel(packed_byte_upto, 3);
        let v0 = slot_value(vals, n, b);
        let v1 = slot_value(vals, n, b + 1);
        assert(slot_value(vals, n, b + 0) == v0);
        let x = packed_byte(vals, n, bd, j);
        assert(x == (0u8 | (v0 << 4u8)) | (v1 << 0u8));
        assert(v0 <= 15 && v1 <= 15);
        assert((x >> 4u8) & 15 == v0 && (x >> 0u8) & 15 == v1) by (bit_vector)
            requires x == (0u8 | (v0 << 4u8)) | (v1 << 0u8), v0 <= 15, v1 <= 15;
    }
}

/// Unpacking a packed row gives back its samples, when they all fit in
/// `bd` bits.
pub proof fn lemma_unpack_pack(vals: Seq<u8>, n: nat, bd: int)
    requires sub_byte_depth(bd), n <= vals.len(), samples_fit(vals, n, bd),
    ensures unpack_spec(pack_spec(vals, n, bd), n, bd) == vals.take(n as int),
{
    let pb = per_byte(bd);
    let p = pack_spec(vals, n, bd);
    lemma_packed_len(n, bd as nat);
    assert forall|i: int| 0 <= i < n implies #[trigger] unpack_spec(p, n, bd)[i] == vals[i] by {
        let j = i / pb;
        let s = i % pb;
        lemma_fundamental_div_mod(i, pb);
        lemma_mod_bound(i, pb);
        assert(j >= 0) by (nonlinear_arith) requires i >= 0, pb > 0, i == pb * j + s, 0 <= s < pb;
        assert(j <= (n - 1) / pb) by {
            vstd::arithmetic::div_mod::lemma_div_is_ordered(i, n - 1, pb);
        }
        assert forall|k: int| 0 <= k < pb implies #[trigger] slot_value(vals, n, j * pb + k) <= sample_mask(bd) by {}
        lemma_extract_slot(vals, n, bd, j, s);
        assert(j * pb + s == i) by (nonlinear_arith) requires i == pb * j + s;
    }
    assert(unpack_spec(p, n, bd) =~= vals.take(n as int));
}

proof fn lemma_byte_base(n: usize, pb: usize, nbytes: usize, j: usize)
    requires pb == 8 || pb == 4 || pb == 2, nbytes == (n + pb - 1) / (pb as int), j < nbytes,
    ensures j * pb < n, j * pb + pb <= nbytes * pb,
{
    lemma_fundamental_div_mod((n + pb - 1) as int, pb as int);
    lemma_mod_bound((n + pb - 1) as int, pb as int);
    assert(j * pb + pb <= nbytes * pb) by (nonlinear_arith) requires j < nbytes, pb > 0;
    assert(j * pb < n) by (nonlinear_arith)
        requires j + 1 <= nbytes, (n + pb - 1) as int == pb * nbytes + (n + pb - 1) as int % pb as int,
            0 <= (n + pb - 1) as int % pb as int, pb > 0;
}

/// Packs the first `n` samples of `vals` at sub-byte depth `bd`; every one
/// of them must fit in `bd` bits.
pub fn pack_row_core(vals: &[u8], n: usize, bd: u8) -> (out: Vec<u8>)
    requires sub_byte_depth(bd as int), n <= vals@.len(), samples_fit(vals@, n as nat, bd as int),
    ensures out@ == pack_spec(vals@, n as nat, bd as int),
{
    let pb: usize = if bd == 1 { 8 } else if bd == 2 { 4 } else { 2 };
    let nbytes: usize = n / pb + if n % pb != 0 { 1 } else { 0 };
    proof {
        lemma_packed_len(n as nat, bd as nat);
        lemma_fundamental_div_mod(n as int, pb as int);
        lemma_mod_bound(n as int, pb as int);
        lemma_fundamental_div_mod((n + pb - 1) as int, pb as int);
        if n % pb != 0 {
            lemma_fundamental_div_mod_converse((n + pb - 1) as int, pb as int, (n / pb + 1) as int, (n % pb - 1) as int);
        } else {
            lemma_fundamental_div_mod_converse((n + pb - 1) as int, pb as int, (n / pb) as int, (pb - 1) as int);
        }
    }
    let mut out: Vec<u8> = Vec::with_capacity(nbytes);
    let mut j: usize = 0;
    while j < nbytes
        invariant
            sub_byte_depth(bd as int),
            pb == per_byte(bd as int),
            nbytes == packed_len(n as nat, bd as nat),
            n <= vals@.len(),
            samples_fit(vals@, n as nat, bd as int),
            j <= nbytes,
            out@ == Seq::new(j as nat, |k: int| packed_byte(vals@, n as nat, bd as int, k)),
        decreases nbytes - j,
    {
        let mut byte: u8 = 0;
        let mut s: usize = 0;
        while s < pb
            invariant
                sub_byte_depth(bd as int),
                pb == per_byte(bd as int),
                nbytes == packed_len(n as nat, bd as nat),
                n <= vals@.len(),
                samples_fit(vals@, n as nat, bd as int),
                j < nbytes,
                s <= pb,
                byte == packed_byte_upto(vals@, n as nat, bd as int, j as int, s as nat),
            decreases pb - s,
        {
            proof {
                lemma_byte_base(n, pb, nbytes, j);
            }
            let base = j * pb;
            let v: u8 = if s < n - base { vals[base + s] } else { 0 };
            let shift: u8 = if bd == 1 { (7 - s) as u8 } else if bd == 2 { (6 - 2 * s) as u8 } else { (4 - 4 * s) as u8 };
            proof {
                let vv = v;
                let sh = shift;
                assert(vv <= sample_mask(bd as int));
                assert(sh <= 8 - bd);
            }
            byte = byte | (v << shift);
            s += 1;
        }
        out.push(byte);
        j += 1;
        assert(out@ =~= Seq::new(j as nat, |k: int| packed_byte(vals@, n as nat, bd as int, k)));
    }
    out
}

/// The first `n` samples of a packed row at sub-byte depth `bd`; `packed`
/// must hold them.
pub fn unpack_row_core(packed: &[u8], n: usize, bd: u8) -> (out: Vec<u8>)
    requires sub_byte_depth(bd as int), packed_len(n as nat, bd as nat) <= packed@.len(),
    ensures out@ == unpack_spec(packed@, n as nat, bd as int),
{
    let pb: usize = if bd == 1 { 8 } else if bd == 2 { 4 } else { 2 };
    let mask: u8 = if bd == 1 { 1 } else if bd == 2 { 3 } else { 15 };
    let mut out: Vec<u8> = Vec::with_capacity(n);
    let mut i: usize = 0;
    while i < n
        invariant
            sub_byte_depth(bd as int),
            pb == per_byte(bd as int),
            mask == sample_mask(bd as int),
            packed_len(n as nat, bd as nat) <= packed@.len(),
            i <= n,
            out@ == Seq::new(i as nat, |k: int| packed_sample(packed@, bd as int, k)),
        decreases n - i,
    {
        proof {
            lemma_packed_len(n as nat, bd as nat);
            vstd::arithmetic::div_mod::lemma_div_is_ordered(i as int, n - 1, pb as int);
            lemma_mod_bound(i as int, pb as int);
        }
        let byte_idx = i / pb;
        let slot = i % pb;
        let shift: u8 = if bd == 1 { (7 - slot) as u8 } else if bd == 2 { (6 - 2 * slot) as u8 } else { (4 - 4 * slot) as u8 };
        out.push((packed[byte_idx] >> shift) & mask);
        i += 1;
        assert(out@ =~= Seq::new(i as nat, |k: int| packed_sample(packed@, bd as int, k)));
    }
    out
}

} // verus!
