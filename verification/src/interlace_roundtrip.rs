//! What the decoder makes of the `IDAT`s the encoder writes for the
//! interlace passes of an image.

use vstd::prelude::*;

use crate::chunk::chunk_bytes;
use crate::codec::{compress_with_fallback_dict_spec, effective_limit, unpacks_to};
use crate::constants::{CHUNK_IDAT, FLAG_RAW, INTERLACE_ADAM7, INTERLACE_EVEN_ODD, MAX_DECOMPRESSED_CHUNK_SIZE};
use crate::decode::{chunk_step, idat_step, idat_unpack_step, interlaced_step, walk, with_stat, DecView};
use crate::encode::{iend_chunk, idat_unpacks, interlace_passes, pass_idats, pass_payload, passes_unpack};
use crate::interlace::{
    adam7_pass_of, adam7_pass_spec, adam7_pieces, adam7_total_len, even_odd_rows, lemma_adam7_roundtrip, lemma_even_odd_roundtrip,
    reconstruct_adam7_spec, reconstruct_even_odd_spec,
};
use crate::error::CafeError;
use crate::meta_roundtrip::same_meta;
use crate::roundtrip::{lemma_read_at, lemma_valid_types, lemma_walk_end, lemma_walk_step};

verus! {

/// The `IDAT` bytes of passes `0..k`, written without a dictionary.
pub open spec fn pass_idats_of(passes: Seq<Seq<u8>>, level: i32, k: nat) -> Seq<u8> {
    pass_idats(passes, level, None, k)->Ok_0.0
}

/// Bytes the decoder decompresses for passes `0..k`: each pass and its
/// one-byte number.
pub open spec fn pass_total(passes: Seq<Seq<u8>>, k: nat) -> nat
    decreases k,
{
    if k == 0 { 0 } else { pass_total(passes, (k - 1) as nat) + 1 + passes[k - 1].len() }
}

/// The passes a decoder holds after passes `0..k`: those, then empty ones.
pub open spec fn passes_after(passes: Seq<Seq<u8>>, n: nat, k: nat) -> Seq<Seq<u8>> {
    Seq::new(n, |p: int| if p < k { passes[p] } else { Seq::<u8>::empty() })
}

/// The decoder's state holds passes `0..k` of `passes` (as the interlace
/// method's pass list) and nothing else of the image data.
pub open spec fn holds_passes(v: DecView, il: u8, passes: Seq<Seq<u8>>, k: nat) -> bool {
    &&& il == INTERLACE_ADAM7 ==> v.adam7_passes == passes_after(passes, 7, k)
    &&& il == INTERLACE_EVEN_ODD ==> v.even_odd_passes == passes_after(passes, 2, k)
}

/// When the `IDAT`s of passes `0..m` are written, those of passes `0..k+1`
/// are those of `0..k` followed by pass `k`'s chunk, and begin those of
/// `0..m`.
proof fn lemma_pass_idats_step(passes: Seq<Seq<u8>>, level: i32, k: nat, m: nat)
    requires
        k < m,
        pass_idats(passes, level, None, m) is Ok,
    ensures
        pass_idats(passes, level, None, k) is Ok,
        pass_idats(passes, level, None, k + 1) is Ok,
        compress_with_fallback_dict_spec(pass_payload(passes, k as int), level, None) matches Ok((flag, data, _))
            && pass_idats_of(passes, level, k + 1) == pass_idats_of(passes, level, k) + chunk_bytes(CHUNK_IDAT@, flag, data),
        pass_idats_of(passes, level, k + 1).len() <= pass_idats_of(passes, level, m).len(),
        pass_idats_of(passes, level, m).take(pass_idats_of(passes, level, k + 1).len() as int) == pass_idats_of(passes, level, k + 1),
    decreases m,
{
    let m1 = (m - 1) as nat;
    assert(pass_idats(passes, level, None, m1) is Ok);
    assert(seq![(k + 1) as u8] + passes[k as int] == pass_payload(passes, k as int));
    if k + 1 < m {
        lemma_pass_idats_step(passes, level, k, m1);
        let a = pass_idats_of(passes, level, k + 1);
        let b = pass_idats_of(passes, level, m1);
        assert(pass_idats_of(passes, level, m).take(a.len() as int) =~= b.take(a.len() as int));
    } else {
        let a = pass_idats_of(passes, level, m);
        assert(a.take(a.len() as int) =~= a);
    }
}

/// What the decoder's header must say for the pass walk.
pub open spec fn header_for_passes(v: DecView, il: u8, passes: Seq<Seq<u8>>) -> bool {
    &&& v.header.interlace_method_read == il
    &&& (il == INTERLACE_ADAM7 && passes.len() == 7 || il == INTERLACE_EVEN_ODD && passes.len() == 2)
    &&& v.header.decompress_budget matches Some(b) && b >= pass_total(passes, passes.len())
    &&& pass_total(passes, passes.len()) <= u64::MAX
    &&& v.zstd_dictionary is None
    &&& v.idim is None
    &&& v.adam7_passes.len() == 7
    &&& v.even_odd_passes.len() == 2
    &&& forall|q: int| 0 <= q < passes.len() ==> (#[trigger] pass_payload(passes, q)).len() <= MAX_DECOMPRESSED_CHUNK_SIZE
}

proof fn lemma_pass_total_mono(passes: Seq<Seq<u8>>, k: nat, m: nat)
    requires k <= m <= passes.len(),
    ensures pass_total(passes, k) <= pass_total(passes, m),
    decreases m,
{
    if k < m {
        lemma_pass_total_mono(passes, k, (m - 1) as nat);
    }
}

/// The decoder takes the `IDAT` of pass `k` after passes `0..k`.
#[verifier::spinoff_prover]
proof fn lemma_pass_step(v: DecView, il: u8, passes: Seq<Seq<u8>>, level: i32, k: nat)
    requires
        header_for_passes(v, il, passes),
        k < passes.len(),
        compress_with_fallback_dict_spec(pass_payload(passes, k as int), level, None) is Ok,
        idat_unpacks(pass_payload(passes, k as int), level),
        holds_passes(v, il, passes, k),
        v.decompressed_total == pass_total(passes, k),
    ensures ({
        let (flag, data, _) = compress_with_fallback_dict_spec(pass_payload(passes, k as int), level, None)->Ok_0;
        &&& data.len() <= u32::MAX
        &&& chunk_step(v, CHUNK_IDAT@, flag, data) matches Ok(v2)
            && v2.header == v.header
            && v2.pixel_rows == v.pixel_rows
            && same_meta(v2, v)
            && header_for_passes(v2, il, passes)
            && holds_passes(v2, il, passes, k + 1)
            && v2.decompressed_total == pass_total(passes, k + 1)
    }),
{
    let p = pass_payload(passes, k as int);
    let (flag, data, used) = compress_with_fallback_dict_spec(p, level, None)->Ok_0;
    assert(data.len() <= p.len());
    assert(p.len() <= MAX_DECOMPRESSED_CHUNK_SIZE);
    lemma_pass_total_mono(passes, k + 1, passes.len());
    let b = v.header.decompress_budget->0;
    let remaining: u64 = (b - v.decompressed_total) as u64;
    assert(p.len() <= effective_limit(remaining));
    assert(unpacks_to(flag, data, p));
    let v1 = DecView { decompressed_total: (v.decompressed_total + p.len()) as u64, ..with_stat(v, CHUNK_IDAT, p.len(), data.len()) };
    assert(idat_unpack_step(v, flag, data) == Ok::<(DecView, Seq<u8>), CafeError>((v1, p)));
    assert(p[0] == (k + 1) as u8);
    assert(p.skip(1) =~= passes[k as int]);
    let v2 = if il == INTERLACE_ADAM7 {
        DecView { adam7_passes: v1.adam7_passes.update(k as int, p.skip(1)), ..v1 }
    } else {
        DecView { even_odd_passes: v1.even_odd_passes.update(k as int, v1.even_odd_passes[k as int] + p.skip(1)), ..v1 }
    };
    assert(interlaced_step(v1, p) == Ok::<DecView, CafeError>(v2));
    assert(idat_step(v, flag, data) == Ok::<DecView, CafeError>(v2));
    reveal(chunk_step);
    assert(CHUNK_IDAT@ != crate::constants::CHUNK_IHDR@) by { assert(CHUNK_IDAT@[2] != crate::constants::CHUNK_IHDR@[2]); }
    assert(CHUNK_IDAT@ != crate::constants::CHUNK_PLTE@) by { assert(CHUNK_IDAT@[0] != crate::constants::CHUNK_PLTE@[0]); }
    assert(CHUNK_IDAT@ != crate::constants::CHUNK_EXIF@) by { assert(CHUNK_IDAT@[0] != crate::constants::CHUNK_EXIF@[0]); }
    assert(CHUNK_IDAT@ != crate::constants::CHUNK_JSON@) by { assert(CHUNK_IDAT@[0] != crate::constants::CHUNK_JSON@[0]); }
    assert(CHUNK_IDAT@ != crate::constants::CHUNK_ICCP@) by { assert(CHUNK_IDAT@[0] != crate::constants::CHUNK_ICCP@[0]); }
    assert(CHUNK_IDAT@ != crate::constants::CHUNK_XMPD@) by { assert(CHUNK_IDAT@[0] != crate::constants::CHUNK_XMPD@[0]); }
    assert(CHUNK_IDAT@ != crate::constants::CHUNK_ZDIC@) by { assert(CHUNK_IDAT@[0] != crate::constants::CHUNK_ZDIC@[0]); }
    assert(CHUNK_IDAT@ != crate::constants::CHUNK_IDIM@) by { assert(CHUNK_IDAT@[0] != crate::constants::CHUNK_IDIM@[0]); }
    assert(CHUNK_IDAT@ != crate::constants::CHUNK_CHDR@) by { assert(CHUNK_IDAT@[0] != crate::constants::CHUNK_CHDR@[0]); }
    if il == INTERLACE_ADAM7 {
        assert(v2.adam7_passes =~= passes_after(passes, 7, k + 1));
    } else {
        assert(v2.even_odd_passes =~= passes_after(passes, 2, k + 1));
    }
}

/// Walking the `IDAT`s of passes `k..n` and then `IEND` gives the decoder
/// every pass.
#[verifier::spinoff_prover]
pub proof fn lemma_walk_passes(file: Seq<u8>, pre: Seq<u8>, il: u8, passes: Seq<Seq<u8>>, level: i32, k: nat, v: DecView)
    requires
        file == pre + pass_idats_of(passes, level, passes.len()) + iend_chunk(),
        pass_idats(passes, level, None, passes.len()) is Ok,
        passes_unpack(passes, level),
        header_for_passes(v, il, passes),
        k <= passes.len(),
        holds_passes(v, il, passes, k),
        v.decompressed_total == pass_total(passes, k),
    ensures
        walk(file, pre.len() + pass_idats_of(passes, level, k).len(), v) matches Ok(v2)
            && v2.header == v.header
            && v2.pixel_rows == v.pixel_rows
            && same_meta(v2, v)
            && holds_passes(v2, il, passes, passes.len()),
    decreases passes.len() - k,
{
    let n = passes.len();
    let all = pass_idats_of(passes, level, n);
    lemma_valid_types();
    if k == n {
        assert(file =~= (pre + all) + iend_chunk() + Seq::<u8>::empty());
        lemma_read_at(pre + all, crate::constants::CHUNK_IEND@, FLAG_RAW, Seq::empty(), Seq::empty());
        lemma_walk_end(file, pre.len() + all.len(), v);
    } else {
        lemma_pass_idats_step(passes, level, k, n);
        let a = pass_idats_of(passes, level, k);
        let a1 = pass_idats_of(passes, level, k + 1);
        let (flag, data, used) = compress_with_fallback_dict_spec(pass_payload(passes, k as int), level, None)->Ok_0;
        let c = chunk_bytes(CHUNK_IDAT@, flag, data);
        let rest = all.skip(a1.len() as int) + iend_chunk();
        assert(file =~= (pre + a) + c + rest) by {
            assert(all =~= a1 + all.skip(a1.len() as int));
        }
        assert(idat_unpacks(pass_payload(passes, k as int), level));
        lemma_pass_step(v, il, passes, level, k);
        let v2 = chunk_step(v, CHUNK_IDAT@, flag, data)->Ok_0;
        lemma_read_at(pre + a, CHUNK_IDAT@, flag, data, rest);
        lemma_walk_step(file, pre.len() + a.len(), v, CHUNK_IDAT@, flag, data, pre.len() + a.len() + 13 + data.len());
        lemma_walk_passes(file, pre, il, passes, level, k + 1, v2);
    }
}

proof fn lemma_adam7_pieces_take(raw: Seq<u8>, w: nat, pass: int, k: nat, m: int)
    requires 4 * k <= m <= raw.len(),
    ensures adam7_pieces(raw, w, pass, k) == adam7_pieces(raw.take(m), w, pass, k),
    decreases k,
{
    if k > 0 {
        lemma_adam7_pieces_take(raw, w, pass, (k - 1) as nat, m);
        let idx = k - 1;
        if adam7_pass_of(w, idx) == pass {
            assert(raw.subrange(4 * idx, 4 * idx + 4) =~= raw.take(m).subrange(4 * idx, 4 * idx + 4));
        }
    }
}

proof fn lemma_even_odd_rows_take(raw: Seq<u8>, rb: nat, h: nat, y: nat, m: int)
    requires h * rb <= m <= raw.len(),
    ensures even_odd_rows(raw, rb, h, y) == even_odd_rows(raw.take(m), rb, h, y),
    decreases h + 1 - y,
{
    if y < h {
        lemma_even_odd_rows_take(raw, rb, h, y + 2, m);
        assert((y + 1) * rb <= h * rb) by (nonlinear_arith) requires y + 1 <= h;
        assert(y * rb <= (y + 1) * rb) by (nonlinear_arith);
        assert(raw.subrange((y * rb) as int, ((y + 1) * rb) as int) =~= raw.take(m).subrange((y * rb) as int, ((y + 1) * rb) as int));
    }
}

/// The passes of an image read only its `w * h` pixels.
pub proof fn lemma_passes_take(il: u8, raw: Seq<u8>, w: u32, h: u32)
    requires w * h * 4 <= raw.len(),
    ensures interlace_passes(il, raw, w, h) == interlace_passes(il, raw.take(w * h * 4), w, h),
{
    let m = w * h * 4;
    if il == INTERLACE_ADAM7 {
        assert forall|p: int| 0 <= p < 7 implies #[trigger] adam7_pass_spec(raw, w as nat, h as nat, p as nat)
            == adam7_pass_spec(raw.take(m), w as nat, h as nat, p as nat) by {
            if w * h > 0 && w * h <= usize::MAX {
                lemma_adam7_pieces_take(raw, w as nat, p, (w * h) as nat, m);
            }
        }
        assert(interlace_passes(il, raw, w, h) =~= interlace_passes(il, raw.take(m), w, h));
    } else if il == INTERLACE_EVEN_ODD {
        assert(h * (w * 4) == w * h * 4) by (nonlinear_arith);
        lemma_even_odd_rows_take(raw, (w * 4) as nat, h as nat, 0, m);
        lemma_even_odd_rows_take(raw, (w * 4) as nat, h as nat, 1, m);
        assert(interlace_passes(il, raw, w, h) =~= interlace_passes(il, raw.take(m), w, h));
    }
}

/// The passes of a whole image hold its bytes: they rebuild it, and their
/// lengths add up to `w * h * 4`.
pub proof fn lemma_passes_rebuild(il: u8, raw: Seq<u8>, w: u32, h: u32)
    requires
        il == INTERLACE_ADAM7 || il == INTERLACE_EVEN_ODD,
        raw.len() == w * h * 4,
        w * h > 0,
        w * h * 4 <= usize::MAX,
    ensures ({
        let passes = interlace_passes(il, raw, w, h);
        &&& il == INTERLACE_ADAM7 ==> reconstruct_adam7_spec(passes, w as nat, h as nat) == Ok::<Seq<u8>, CafeError>(raw)
        &&& il == INTERLACE_EVEN_ODD ==> reconstruct_even_odd_spec(passes[0], passes[1], w as nat, h as nat) == Ok::<Seq<u8>, CafeError>(raw)
        &&& pass_total(passes, passes.len()) == passes.len() + w * h * 4
    }),
{
    let passes = interlace_passes(il, raw, w, h);
    if il == INTERLACE_ADAM7 {
        lemma_adam7_roundtrip(raw, w as nat, h as nat);
        assert(adam7_total_len(passes) == w * h * 4);
        reveal_with_fuel(pass_total, 8);
    } else {
        lemma_even_odd_roundtrip(raw, w as nat, h as nat);
        reveal_with_fuel(pass_total, 3);
    }
}

} // verus!
