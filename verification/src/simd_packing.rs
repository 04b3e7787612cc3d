//! Packing rows of 1-, 2- and 4-bit samples into bytes and back.

use vstd::prelude::*;

use crate::error::CafeError;
use crate::packing::{pack_row_core, pack_spec, packed_len, samples_fit, unpack_row_core, unpack_spec};

verus! {

/// Samples reduced to one bit each: nonzero becomes 1.
pub open spec fn one_bit_samples(s: Seq<u8>) -> Seq<u8> {
    s.map_values(|v: u8| if v != 0 { 1u8 } else { 0u8 })
}

/// What packing `width` samples of `samples` at `bd` bits (2 or 4) yields:
/// every sample present must fit, and all `width` must be present.
pub open spec fn pack_samples_spec(samples: Seq<u8>, width: nat, bd: int) -> Result<Seq<u8>, CafeError> {
    if width == 0 {
        Ok(Seq::empty())
    } else if !samples_fit(samples, if samples.len() < width { samples.len() } else { width }, bd) {
        Err(CafeError::UnsupportedFeature("sample value exceeds what the bit depth holds", None))
    } else if samples.len() < width {
        Err(CafeError::TruncatedFile("fewer samples than the row width"))
    } else {
        Ok(pack_spec(samples, width, bd))
    }
}

/// What unpacking `width` samples of `bd` bits from `packed` yields.
pub open spec fn unpack_samples_spec(packed: Seq<u8>, width: nat, bd: int) -> Result<Seq<u8>, CafeError> {
    if width == 0 {
        Ok(Seq::empty())
    } else if packed_len(width, bd as nat) > packed.len() {
        Err(CafeError::TruncatedFile("packed data shorter than the row"))
    } else {
        Ok(unpack_spec(packed, width, bd))
    }
}

/// First index below `n` whose sample does not fit in `bd` bits, if any.
fn first_misfit(samples: &[u8], n: usize, bd: u8) -> (r: bool)
    requires n <= samples@.len(), bd == 1 || bd == 2 || bd == 4,
    ensures r == !samples_fit(samples@, n as nat, bd as int),
{
    let mask: u8 = if bd == 1 { 1 } else if bd == 2 { 3 } else { 15 };
    let mut i: usize = 0;
    while i < n
        invariant
            i <= n, n <= samples@.len(),
            mask == crate::packing::sample_mask(bd as int),
            samples_fit(samples@, i as nat, bd as int),
        decreases n - i,
    {
        if samples[i] > mask {
            return true;
        }
        i += 1;
    }
    false
}

fn pack_checked(samples: &[u8], width: usize, bd: u8) -> (r: Result<Vec<u8>, CafeError>)
    requires bd == 2 || bd == 4,
    ensures
        match r {
            Ok(v) => pack_samples_spec(samples@, width as nat, bd as int) == Ok::<Seq<u8>, CafeError>(v@),
            Err(e) => pack_samples_spec(samples@, width as nat, bd as int) == Err::<Seq<u8>, CafeError>(e),
        },
{
    if width == 0 {
        return Ok(Vec::new());
    }
    let present = if samples.len() < width { samples.len() } else { width };
    if first_misfit(samples, present, bd) {
        return Err(CafeError::UnsupportedFeature("sample value exceeds what the bit depth holds", None));
    }
    if samples.len() < width {
        return Err(CafeError::TruncatedFile("fewer samples than the row width"));
    }
    Ok(pack_row_core(samples, width, bd))
}

/// Packs `width` 1-bit samples, eight per byte, most significant bit first;
/// any nonzero sample counts as 1. Fails with `TruncatedFile` when `samples`
/// holds fewer than `width` samples.
pub fn pack_1bit_samples(samples: &[u8], width: usize) -> (r: Result<Vec<u8>, CafeError>)
    ensures
        width == 0 ==> (r matches Ok(v) && v@.len() == 0),
        width > 0 && samples@.len() < width ==> r == Err::<Vec<u8>, CafeError>(CafeError::TruncatedFile("fewer samples than the row width")),
        width > 0 && samples@.len() >= width ==> (r matches Ok(v)
            && v@ == pack_spec(one_bit_samples(samples@), width as nat, 1)),
{
    if width == 0 {
        return Ok(Vec::new());
    }
    if samples.len() < width {
        return Err(CafeError::TruncatedFile("fewer samples than the row width"));
    }
    let mut bits: Vec<u8> = Vec::with_capacity(width);
    let mut i: usize = 0;
    while i < width
        invariant
            i <= width, width <= samples@.len(),
            bits@ == one_bit_samples(samples@).take(i as int),
        decreases width - i,
    {
        bits.push(if samples[i] != 0 { 1 } else { 0 });
        i += 1;
        assert(bits@ =~= one_bit_samples(samples@).take(i as int));
    }
    proof {
        let full = one_bit_samples(samples@);
        assert forall|k: int| 0 <= k < width implies #[trigger] bits@[k] <= 1 by {}
        assert forall|k: int| 0 <= k < width implies #[trigger] bits@[k] == full[k] by {}
        assert(pack_spec(bits@, width as nat, 1) =~= pack_spec(full, width as nat, 1)) by {
            assert forall|j: int, s: nat| #![trigger crate::packing::packed_byte_upto(bits@, width as nat, 1, j, s)]
                s <= 8 implies crate::packing::packed_byte_upto(bits@, width as nat, 1, j, s)
                    == crate::packing::packed_byte_upto(full, width as nat, 1, j, s) by {
                lemma_pack_prefix_agree(bits@, full, width as nat, 1, j, s);
            }
        }
    }
    Ok(pack_row_core(bits.as_slice(), width, 1))
}

/// Packing looks only at the first `n` samples.
proof fn lemma_pack_prefix_agree(a: Seq<u8>, b: Seq<u8>, n: nat, bd: int, j: int, s: nat)
    requires n <= a.len(), n <= b.len(), forall|k: int| 0 <= k < n ==> a[k] == b[k],
    ensures crate::packing::packed_byte_upto(a, n, bd, j, s) == crate::packing::packed_byte_upto(b, n, bd, j, s),
    decreases s,
{
    if s > 0 {
        lemma_pack_prefix_agree(a, b, n, bd, j, (s - 1) as nat);
    }
}

/// Packs `width` 2-bit samples, four per byte, most significant bits first.
/// Fails with `UnsupportedFeature` on a sample above 3 and with
/// `TruncatedFile` when `samples` holds fewer than `width` samples.
pub fn pack_2bit_samples(samples: &[u8], width: usize) -> (r: Result<Vec<u8>, CafeError>)
    ensures
        match r {
            Ok(v) => pack_samples_spec(samples@, width as nat, 2) == Ok::<Seq<u8>, CafeError>(v@),
            Err(e) => pack_samples_spec(samples@, width as nat, 2) == Err::<Seq<u8>, CafeError>(e),
        },
{
    pack_checked(samples, width, 2)
}

/// Packs `width` 4-bit samples, two per byte, high nibble first. Fails with
/// `UnsupportedFeature` on a sample above 15 and with `TruncatedFile` when
/// `samples` holds fewer than `width` samples.
pub fn pack_4bit_samples(samples: &[u8], width: usize) -> (r: Result<Vec<u8>, CafeError>)
    ensures
        match r {
            Ok(v) => pack_samples_spec(samples@, width as nat, 4) == Ok::<Seq<u8>, CafeError>(v@),
            Err(e) => pack_samples_spec(samples@, width as nat, 4) == Err::<Seq<u8>, CafeError>(e),
        },
{
    pack_checked(samples, width, 4)
}

fn unpack_checked(packed: &[u8], width: usize, bd: u8) -> (r: Result<Vec<u8>, CafeError>)
    requires bd == 1 || bd == 2 || bd == 4,
    ensures
        match r {
            Ok(v) => unpack_samples_spec(packed@, width as nat, bd as int) == Ok::<Seq<u8>, CafeError>(v@),
            Err(e) => unpack_samples_spec(packed@, width as nat, bd as int) == Err::<Seq<u8>, CafeError>(e),
        },
{
    if width == 0 {
        return Ok(Vec::new());
    }
    let pb: usize = if bd == 1 { 8 } else if bd == 2 { 4 } else { 2 };
    let needed: usize = width / pb + if width % pb != 0 { 1 } else { 0 };
    proof {
        vstd::arithmetic::div_mod::lemma_fundamental_div_mod(width as int, pb as int);
        vstd::arithmetic::div_mod::lemma_mod_bound(width as int, pb as int);
        let n = width as int;
        if bd == 1 {
            assert(packed_len(width as nat, 1) == (n + 7) / 8);
        } else if bd == 2 {
            assert(packed_len(width as nat, 2) == (2 * n + 7) / 8);
            vstd::arithmetic::div_mod::lemma_fundamental_div_mod(2 * n + 7, 8);
            vstd::arithmetic::div_mod::lemma_mod_bound(2 * n + 7, 8);
        } else {
            assert(packed_len(width as nat, 4) == (4 * n + 7) / 8);
            vstd::arithmetic::div_mod::lemma_fundamental_div_mod(4 * n + 7, 8);
            vstd::arithmetic::div_mod::lemma_mod_bound(4 * n + 7, 8);
        }
        vstd::arithmetic::div_mod::lemma_fundamental_div_mod(n + 7, 8);
        vstd::arithmetic::div_mod::lemma_mod_bound(n + 7, 8);
    }
    if packed.len() < needed {
        return Err(CafeError::TruncatedFile("packed data shorter than the row"));
    }
    Ok(unpack_row_core(packed, width, bd))
}

/// Unpacks `width` 1-bit samples (0 or 1 each). Fails with `TruncatedFile`
/// when `packed` holds fewer than `ceil(width / 8)` bytes.
pub fn unpack_1bit_samples(packed: &[u8], width: usize) -> (r: Result<Vec<u8>, CafeError>)
    ensures
        match r {
            Ok(v) => unpack_samples_spec(packed@, width as nat, 1) == Ok::<Seq<u8>, CafeError>(v@),
            Err(e) => unpack_samples_spec(packed@, width as nat, 1) == Err::<Seq<u8>, CafeError>(e),
        },
{
    unpack_checked(packed, width, 1)
}

/// Unpacks `width` 2-bit samples (0 to 3 each). Fails with `TruncatedFile`
/// when `packed` holds fewer than `ceil(width / 4)` bytes.
pub fn unpack_2bit_samples(packed: &[u8], width: usize) -> (r: Result<Vec<u8>, CafeError>)
    ensures
        match r {
            Ok(v) => unpack_samples_spec(packed@, width as nat, 2) == Ok::<Seq<u8>, CafeError>(v@),
            Err(e) => unpack_samples_spec(packed@, width as nat, 2) == Err::<Seq<u8>, CafeError>(e),
        },
{
    unpack_checked(packed, width, 2)
}

/// Unpacks `width` 4-bit samples (0 to 15 each). Fails with `TruncatedFile`
/// when `packed` holds fewer than `ceil(width / 2)` bytes.
pub fn unpack_4bit_samples(packed: &[u8], width: usize) -> (r: Result<Vec<u8>, CafeError>)
    ensures
        match r {
            Ok(v) => unpack_samples_spec(packed@, width as nat, 4) == Ok::<Seq<u8>, CafeError>(v@),
            Err(e) => unpack_samples_spec(packed@, width as nat, 4) == Err::<Seq<u8>, CafeError>(e),
        },
{
    unpack_checked(packed, width, 4)
}

/// Sub-byte round trip: packing then unpacking `width` samples at 1, 2 or
/// 4 bits gives back the samples (1-bit samples read back as 0 or 1).
pub proof fn lemma_packing_roundtrip(samples: Seq<u8>, width: nat, bd: int)
    requires
        bd == 1 || bd == 2 || bd == 4,
        width <= samples.len(),
        bd != 1 ==> pack_samples_spec(samples, width, bd) is Ok,
    ensures
        bd != 1 ==> unpack_samples_spec(pack_samples_spec(samples, width, bd)->Ok_0, width, bd)
            == Ok::<Seq<u8>, CafeError>(samples.take(width as int)),
        bd == 1 ==> unpack_samples_spec(pack_spec(one_bit_samples(samples), width, 1), width, 1)
            == Ok::<Seq<u8>, CafeError>(one_bit_samples(samples).take(width as int)),
{
    if bd == 1 {
        let ones = one_bit_samples(samples);
        assert(samples_fit(ones, width, 1));
        crate::packing::lemma_unpack_pack(ones, width, 1);
        if width == 0 {
            assert(ones.take(0) =~= Seq::<u8>::empty());
        }
    } else if width > 0 {
        crate::packing::lemma_unpack_pack(samples, width, bd);
    } else {
        assert(samples.take(0) =~= Seq::<u8>::empty());
    }
}

} // verus!
