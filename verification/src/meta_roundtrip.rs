//! What the decoder makes of the metadata chunks the encoder writes before
//! the image data.

use vstd::prelude::*;

use crate::chunk::{chunk_bytes, is_chunk_type_byte, valid_chunk_type};
use crate::codec::{compress_with_fallback_spec, packs_back};
use crate::ancillary::{chdr_payload, parse_chdr_spec, ChdrFields};
use crate::encode::{header_chunks, header_packs_back, json_chunk, json_chunks, json_payload, json_views, opt_chunk, opt_vec, packed_chunk, then_chunk, then_run, EncodeOptions};
use crate::constants::{
    CHUNK_CHDR, CHUNK_EXIF, CHUNK_ICCP, CHUNK_IDAT, CHUNK_IDIM, CHUNK_IEND, CHUNK_IHDR, CHUNK_JSON, CHUNK_PLTE, CHUNK_XMPD,
    CHUNK_ZDIC, MAX_DECOMPRESSED_CHUNK_SIZE,
};
use crate::decode::{
    chdr_step, chunk_step, exif_step, iccp_step, json_insert, json_parses, json_payload_spec, json_step, unpacked, utf8_valid, walk,
    xmpd_step, DecView,
};
use crate::error::CafeError;
use crate::roundtrip::{lemma_read_at, lemma_walk_step};

verus! {

/// A chunk given by its type, flag and data.
pub type ChunkItem = (Seq<u8>, u8, Seq<u8>);

/// The bytes of a run of chunks.
pub open spec fn run_bytes(cs: Seq<ChunkItem>) -> Seq<u8>
    decreases cs.len(),
{
    if cs.len() == 0 {
        Seq::empty()
    } else {
        chunk_bytes(cs[0].0, cs[0].1, cs[0].2) + run_bytes(cs.drop_first())
    }
}

/// The decoder's state after a run of chunks, or the first error.
pub open spec fn run_steps(v: DecView, cs: Seq<ChunkItem>) -> Result<DecView, CafeError>
    decreases cs.len(),
{
    if cs.len() == 0 {
        Ok(v)
    } else {
        match chunk_step(v, cs[0].0, cs[0].1, cs[0].2) {
            Err(e) => Err(e),
            Ok(v1) => run_steps(v1, cs.drop_first()),
        }
    }
}

/// A chunk the decoder can read and walk past: a four-letter type other
/// than `IEND`, at most `u32::MAX` data bytes.
pub open spec fn walkable(c: ChunkItem) -> bool {
    &&& c.0.len() == 4
    &&& valid_chunk_type(c.0)
    &&& c.0 != CHUNK_IEND@
    &&& c.2.len() <= u32::MAX
}

/// Walking a run of chunks applies them one after the other.
pub proof fn lemma_walk_run(buf: Seq<u8>, pre: Seq<u8>, cs: Seq<ChunkItem>, rest: Seq<u8>, v: DecView)
    requires
        buf == pre + run_bytes(cs) + rest,
        forall|i: int| 0 <= i < cs.len() ==> walkable(#[trigger] cs[i]),
    ensures
        walk(buf, pre.len(), v) == match run_steps(v, cs) {
            Err(e) => Err::<DecView, CafeError>(e),
            Ok(v2) => walk(buf, pre.len() + run_bytes(cs).len(), v2),
        },
    decreases cs.len(),
{
    if cs.len() > 0 {
        let (t, f, d) = cs[0];
        assert(walkable(cs[0]));
        let tail = cs.drop_first();
        let c = chunk_bytes(t, f, d);
        assert(buf =~= pre + c + (run_bytes(tail) + rest));
        lemma_read_at(pre, t, f, d, run_bytes(tail) + rest);
        lemma_walk_step(buf, pre.len(), v, t, f, d, pre.len() + 13 + d.len());
        match chunk_step(v, t, f, d) {
            Err(_) => {},
            Ok(v1) => {
                assert(buf =~= (pre + c) + run_bytes(tail) + rest);
                assert forall|i: int| 0 <= i < tail.len() implies walkable(#[trigger] tail[i]) by {
                    assert(tail[i] == cs[i + 1]);
                }
                lemma_walk_run(buf, pre + c, tail, rest, v1);
            },
        }
    }
}

/// The bytes of two runs one after the other.
pub proof fn lemma_run_bytes_concat(a: Seq<ChunkItem>, b: Seq<ChunkItem>)
    ensures run_bytes(a + b) == run_bytes(a) + run_bytes(b),
    decreases a.len(),
{
    if a.len() == 0 {
        assert(a + b =~= b);
        assert(Seq::<u8>::empty() + run_bytes(b) =~= run_bytes(b));
    } else {
        assert((a + b).drop_first() =~= a.drop_first() + b);
        lemma_run_bytes_concat(a.drop_first(), b);
        assert(run_bytes(a + b) =~= run_bytes(a) + run_bytes(b));
    }
}

/// Two runs one after the other.
pub proof fn lemma_run_steps_concat(v: DecView, a: Seq<ChunkItem>, b: Seq<ChunkItem>)
    ensures
        run_steps(v, a + b) == match run_steps(v, a) {
            Err(e) => Err::<DecView, CafeError>(e),
            Ok(v1) => run_steps(v1, b),
        },
    decreases a.len(),
{
    if a.len() == 0 {
        assert(a + b =~= b);
    } else {
        assert((a + b).drop_first() =~= a.drop_first() + b);
        match chunk_step(v, a[0].0, a[0].1, a[0].2) {
            Err(_) => {},
            Ok(v1) => lemma_run_steps_concat(v1, a.drop_first(), b),
        }
    }
}

/// What a metadata chunk leaves alone: the header, the rows and passes, the
/// decompression count, the palette, the dictionary and the 2D tiling.
pub open spec fn keeps_image(v: DecView, v2: DecView) -> bool {
    &&& v2.header == v.header
    &&& v2.pixel_rows == v.pixel_rows
    &&& v2.decompressed_total == v.decompressed_total
    &&& v2.adam7_passes == v.adam7_passes
    &&& v2.even_odd_passes == v.even_odd_passes
    &&& v2.palette == v.palette
    &&& v2.zstd_dictionary == v.zstd_dictionary
    &&& v2.idim == v.idim
    &&& v2.idim_tile_order == v.idim_tile_order
    &&& v2.tiles_seen == v.tiles_seen
}

/// A metadata chunk that every decoder state takes without error: `cHDR`,
/// `iCCP` and `xMPd` always; `eXIf` when its payload decompresses; `jSON`
/// when its payload decompresses to a namespace and a text that are UTF-8.
pub open spec fn meta_item_ok(c: ChunkItem) -> bool {
    let (t, f, d) = c;
    ||| t == CHUNK_CHDR@ || t == CHUNK_ICCP@ || t == CHUNK_XMPD@
    ||| t == CHUNK_EXIF@ && unpacked(f, d) is Ok
    ||| t == CHUNK_JSON@ && (unpacked(f, d) matches Ok(p) && json_payload_spec(p) is Ok)
}

proof fn lemma_meta_types_distinct()
    ensures
        CHUNK_EXIF@ != CHUNK_IHDR@ && CHUNK_EXIF@ != CHUNK_PLTE@,
        CHUNK_JSON@ != CHUNK_IHDR@ && CHUNK_JSON@ != CHUNK_PLTE@ && CHUNK_JSON@ != CHUNK_EXIF@,
        CHUNK_ICCP@ != CHUNK_IHDR@ && CHUNK_ICCP@ != CHUNK_PLTE@ && CHUNK_ICCP@ != CHUNK_EXIF@ && CHUNK_ICCP@ != CHUNK_JSON@,
        CHUNK_XMPD@ != CHUNK_IHDR@ && CHUNK_XMPD@ != CHUNK_PLTE@ && CHUNK_XMPD@ != CHUNK_EXIF@ && CHUNK_XMPD@ != CHUNK_JSON@
            && CHUNK_XMPD@ != CHUNK_ICCP@,
        CHUNK_CHDR@ != CHUNK_IHDR@ && CHUNK_CHDR@ != CHUNK_PLTE@ && CHUNK_CHDR@ != CHUNK_EXIF@ && CHUNK_CHDR@ != CHUNK_JSON@
            && CHUNK_CHDR@ != CHUNK_ICCP@ && CHUNK_CHDR@ != CHUNK_XMPD@ && CHUNK_CHDR@ != CHUNK_ZDIC@ && CHUNK_CHDR@ != CHUNK_IDIM@,
        walkable((CHUNK_EXIF@, 0u8, Seq::<u8>::empty())),
        walkable((CHUNK_JSON@, 0u8, Seq::<u8>::empty())),
        walkable((CHUNK_ICCP@, 0u8, Seq::<u8>::empty())),
        walkable((CHUNK_XMPD@, 0u8, Seq::<u8>::empty())),
        walkable((CHUNK_CHDR@, 0u8, Seq::<u8>::empty())),
{
    assert(CHUNK_EXIF@[0] == 0x65 && CHUNK_JSON@[0] == 0x6A && CHUNK_ICCP@[0] == 0x69 && CHUNK_XMPD@[0] == 0x78);
    assert(CHUNK_CHDR@[0] == 0x63 && CHUNK_IHDR@[0] == 0x49 && CHUNK_PLTE@[0] == 0x50 && CHUNK_ZDIC@[0] == 0x7A);
    assert(CHUNK_IDIM@[0] == 0x69 && CHUNK_IEND@[0] == 0x49);
    assert(is_chunk_type_byte(CHUNK_EXIF@[0]) && is_chunk_type_byte(CHUNK_EXIF@[1]) && is_chunk_type_byte(CHUNK_EXIF@[2])
        && is_chunk_type_byte(CHUNK_EXIF@[3]));
    assert(is_chunk_type_byte(CHUNK_JSON@[0]) && is_chunk_type_byte(CHUNK_JSON@[1]) && is_chunk_type_byte(CHUNK_JSON@[2])
        && is_chunk_type_byte(CHUNK_JSON@[3]));
    assert(is_chunk_type_byte(CHUNK_ICCP@[0]) && is_chunk_type_byte(CHUNK_ICCP@[1]) && is_chunk_type_byte(CHUNK_ICCP@[2])
        && is_chunk_type_byte(CHUNK_ICCP@[3]));
    assert(is_chunk_type_byte(CHUNK_XMPD@[0]) && is_chunk_type_byte(CHUNK_XMPD@[1]) && is_chunk_type_byte(CHUNK_XMPD@[2])
        && is_chunk_type_byte(CHUNK_XMPD@[3]));
    assert(is_chunk_type_byte(CHUNK_CHDR@[0]) && is_chunk_type_byte(CHUNK_CHDR@[1]) && is_chunk_type_byte(CHUNK_CHDR@[2])
        && is_chunk_type_byte(CHUNK_CHDR@[3]));
}

/// A metadata chunk is taken and leaves the image alone.
pub proof fn lemma_meta_step(v: DecView, c: ChunkItem)
    requires meta_item_ok(c),
    ensures chunk_step(v, c.0, c.1, c.2) matches Ok(v2) && keeps_image(v, v2),
{
    reveal(chunk_step);
    lemma_meta_types_distinct();
}

/// A run of metadata chunks is taken and leaves the image alone.
pub proof fn lemma_meta_run(v: DecView, cs: Seq<ChunkItem>)
    requires forall|i: int| 0 <= i < cs.len() ==> meta_item_ok(#[trigger] cs[i]),
    ensures run_steps(v, cs) matches Ok(v2) && keeps_image(v, v2),
    decreases cs.len(),
{
    if cs.len() > 0 {
        assert(meta_item_ok(cs[0]));
        lemma_meta_step(v, cs[0]);
        let v1 = chunk_step(v, cs[0].0, cs[0].1, cs[0].2)->Ok_0;
        assert forall|i: int| 0 <= i < cs.drop_first().len() implies meta_item_ok(#[trigger] cs.drop_first()[i]) by {
            assert(cs.drop_first()[i] == cs[i + 1]);
        }
        lemma_meta_run(v1, cs.drop_first());
    }
}

/// The chunk the encoder writes for payload `p` of type `t`.
pub open spec fn packed_item(t: Seq<u8>, p: Seq<u8>, level: i32) -> ChunkItem {
    let (f, d) = compress_with_fallback_spec(p, level)->Ok_0;
    (t, f, d)
}

/// The chunk of an optional payload, if any.
pub open spec fn opt_items(o: Option<Seq<u8>>, t: Seq<u8>, level: i32) -> Seq<ChunkItem> {
    match o {
        None => Seq::empty(),
        Some(p) => seq![packed_item(t, p, level)],
    }
}

/// The `jSON` chunks, one per `(namespace, text)` pair.
pub open spec fn json_items(json: Seq<(Seq<u8>, Seq<u8>)>, level: i32) -> Seq<ChunkItem> {
    Seq::new(json.len(), |i: int| packed_item(CHUNK_JSON@, json_payload(json[i].0, json[i].1), level))
}

/// The `cHDR` chunk, if any.
pub open spec fn chdr_items(o: EncodeOptions) -> Seq<ChunkItem> {
    match o.chdr_metadata {
        None => Seq::<ChunkItem>::empty(),
        Some(c) => seq![packed_item(CHUNK_CHDR@, chdr_payload(c), o.level)],
    }
}

/// The chunks between `IHDR` and the image data when there is no 2D tiling:
/// `cHDR`, `eXIf`, the `jSON`s, `iCCP`, `xMPd`, each when there is one.
pub open spec fn header_items(o: EncodeOptions) -> Seq<ChunkItem> {
    chdr_items(o) + opt_items(opt_vec(o.exif), CHUNK_EXIF@, o.level) + json_items(json_views(o.json_metadata@), o.level)
        + opt_items(opt_vec(o.icc_profile), CHUNK_ICCP@, o.level) + opt_items(opt_vec(o.xmp_metadata), CHUNK_XMPD@, o.level)
}

proof fn lemma_single_run(c: ChunkItem)
    ensures run_bytes(seq![c]) == chunk_bytes(c.0, c.1, c.2),
{
    let s = seq![c];
    assert(s.drop_first() =~= Seq::<ChunkItem>::empty());
    assert(run_bytes(s.drop_first()) == Seq::<u8>::empty());
    assert(s[0] == c);
    assert(chunk_bytes(c.0, c.1, c.2) + Seq::<u8>::empty() =~= chunk_bytes(c.0, c.1, c.2));
}

proof fn lemma_opt_run(o: Option<Seq<u8>>, t: Seq<u8>, level: i32)
    requires opt_chunk(o, t, level) is Ok,
    ensures opt_chunk(o, t, level)->Ok_0.0 == run_bytes(opt_items(o, t, level)),
{
    match o {
        None => {},
        Some(p) => {
            lemma_single_run(packed_item(t, p, level));
            assert(Seq::<u8>::empty() + packed_chunk(t, p, level)->Ok_0 =~= packed_chunk(t, p, level)->Ok_0);
        },
    }
}

proof fn lemma_json_run(json: Seq<(Seq<u8>, Seq<u8>)>, level: i32, k: nat)
    requires k <= json.len(), json_chunks(json, level, k) is Ok,
    ensures json_chunks(json, level, k)->Ok_0.0 == run_bytes(json_items(json, level).take(k as int)),
    decreases k,
{
    if k > 0 {
        let k1 = (k - 1) as nat;
        assert(json_chunks(json, level, k1) is Ok);
        lemma_json_run(json, level, k1);
        let items = json_items(json, level);
        assert(items.take(k as int) =~= items.take(k1 as int) + seq![items[k1 as int]]);
        lemma_run_bytes_concat(items.take(k1 as int), seq![items[k1 as int]]);
        lemma_single_run(items[k1 as int]);
    } else {
        assert(json_items(json, level).take(0) =~= Seq::<ChunkItem>::empty());
    }
}

/// The `cHDR` part of the header chunks.
pub open spec fn chdr_part(o: EncodeOptions) -> Result<(Seq<u8>, bool), CafeError> {
    match o.chdr_metadata {
        None => Ok((Seq::empty(), false)),
        Some(c) => then_chunk(Ok((Seq::empty(), false)), packed_chunk(CHUNK_CHDR@, chdr_payload(c), o.level)),
    }
}

proof fn lemma_chdr_run(o: EncodeOptions)
    requires chdr_part(o) is Ok,
    ensures chdr_part(o)->Ok_0.0 == run_bytes(chdr_items(o)),
{
    match o.chdr_metadata {
        None => {},
        Some(c) => {
            lemma_single_run(packed_item(CHUNK_CHDR@, chdr_payload(c), o.level));
            assert(Seq::<u8>::empty() + packed_chunk(CHUNK_CHDR@, chdr_payload(c), o.level)->Ok_0
                =~= packed_chunk(CHUNK_CHDR@, chdr_payload(c), o.level)->Ok_0);
        },
    }
}

/// Without 2D tiling, the chunks the encoder writes between `IHDR` and the
/// image data are the run `header_items`.
#[verifier::spinoff_prover]
pub proof fn lemma_header_run(o: EncodeOptions)
    requires o.idim is None, header_chunks(o) is Ok,
    ensures header_chunks(o)->Ok_0.0 == run_bytes(header_items(o)),
{
    let json = json_views(o.json_metadata@);
    let e = opt_chunk(opt_vec(o.exif), CHUNK_EXIF@, o.level);
    let j = json_chunks(json, o.level, json.len());
    let i = opt_chunk(opt_vec(o.icc_profile), CHUNK_ICCP@, o.level);
    let x = opt_chunk(opt_vec(o.xmp_metadata), CHUNK_XMPD@, o.level);
    assert(header_chunks(o) == then_run(then_run(Ok((Seq::<u8>::empty(), false)), chdr_part(o)),
        then_run(then_run(then_run(e, j), i), x))) by {
        reveal(header_chunks);
    }
    assert(chdr_part(o) is Ok && e is Ok && j is Ok && i is Ok && x is Ok);
    lemma_chdr_run(o);
    lemma_opt_run(opt_vec(o.exif), CHUNK_EXIF@, o.level);
    lemma_json_run(json, o.level, json.len());
    assert(json_items(json, o.level).take(json.len() as int) =~= json_items(json, o.level));
    lemma_opt_run(opt_vec(o.icc_profile), CHUNK_ICCP@, o.level);
    lemma_opt_run(opt_vec(o.xmp_metadata), CHUNK_XMPD@, o.level);
    let ci = chdr_items(o);
    let ei = opt_items(opt_vec(o.exif), CHUNK_EXIF@, o.level);
    let ji = json_items(json, o.level);
    let ii = opt_items(opt_vec(o.icc_profile), CHUNK_ICCP@, o.level);
    let xi = opt_items(opt_vec(o.xmp_metadata), CHUNK_XMPD@, o.level);
    lemma_run_bytes_concat(ci, ei);
    lemma_run_bytes_concat(ci + ei, ji);
    lemma_run_bytes_concat(ci + ei + ji, ii);
    lemma_run_bytes_concat(ci + ei + ji + ii, xi);
    assert(header_chunks(o)->Ok_0.0 =~= run_bytes(header_items(o)));
}

/// A `jSON` pair the decoder reads back: namespace of at most 255 bytes,
/// namespace and text in UTF-8, the whole payload within the 1 GiB ceiling.
pub open spec fn json_entry_fits(e: (Seq<u8>, Seq<u8>)) -> bool {
    &&& e.0.len() <= 255
    &&& json_payload(e.0, e.1).len() <= MAX_DECOMPRESSED_CHUNK_SIZE
    &&& utf8_valid(e.0)
    &&& utf8_valid(e.1)
}

/// The metadata payloads fit under the 1 GiB chunk ceiling and the `jSON`
/// pairs are ones the decoder reads back.
pub open spec fn meta_fits(o: EncodeOptions) -> bool {
    let json = json_views(o.json_metadata@);
    &&& (opt_vec(o.exif) matches Some(p) ==> p.len() <= MAX_DECOMPRESSED_CHUNK_SIZE)
    &&& (opt_vec(o.icc_profile) matches Some(p) ==> p.len() <= MAX_DECOMPRESSED_CHUNK_SIZE)
    &&& (opt_vec(o.xmp_metadata) matches Some(p) ==> p.len() <= MAX_DECOMPRESSED_CHUNK_SIZE)
    &&& forall|i: int| 0 <= i < json.len() ==> json_entry_fits(#[trigger] json[i])
}

/// What is stored for a payload decompresses back to it, and is no longer.
proof fn lemma_packed_item(t: Seq<u8>, p: Seq<u8>, level: i32)
    requires
        compress_with_fallback_spec(p, level) is Ok,
        p.len() <= MAX_DECOMPRESSED_CHUNK_SIZE,
        packs_back(p, level),
    ensures
        unpacked(packed_item(t, p, level).1, packed_item(t, p, level).2) == Ok::<Seq<u8>, CafeError>(p),
        packed_item(t, p, level).2.len() <= p.len(),
        packed_item(t, p, level).0 == t,
{
}

proof fn lemma_json_chunks_ok(json: Seq<(Seq<u8>, Seq<u8>)>, level: i32, k: nat, j: nat)
    requires j < k <= json.len(), json_chunks(json, level, k) is Ok,
    ensures json_chunk(json[j as int].0, json[j as int].1, level) is Ok,
    decreases k,
{
    if j + 1 < k {
        lemma_json_chunks_ok(json, level, (k - 1) as nat, j);
    }
}

/// Each chunk of the run `header_items` is one the decoder reads past and
/// takes without error.
pub proof fn lemma_header_items_ok(o: EncodeOptions)
    requires
        o.idim is None,
        header_chunks(o) is Ok,
        header_packs_back(o),
        meta_fits(o),
    ensures
        forall|i: int| 0 <= i < header_items(o).len() ==> meta_item_ok(#[trigger] header_items(o)[i]) && walkable(header_items(o)[i]),
{
    let json = json_views(o.json_metadata@);
    let e = opt_chunk(opt_vec(o.exif), CHUNK_EXIF@, o.level);
    let j = json_chunks(json, o.level, json.len());
    let ic = opt_chunk(opt_vec(o.icc_profile), CHUNK_ICCP@, o.level);
    let x = opt_chunk(opt_vec(o.xmp_metadata), CHUNK_XMPD@, o.level);
    assert(header_chunks(o) == then_run(then_run(Ok((Seq::<u8>::empty(), false)), chdr_part(o)),
        then_run(then_run(then_run(e, j), ic), x))) by {
        reveal(header_chunks);
    }
    lemma_meta_types_distinct();
    let ci = chdr_items(o);
    let ei = opt_items(opt_vec(o.exif), CHUNK_EXIF@, o.level);
    let ji = json_items(json, o.level);
    let ii = opt_items(opt_vec(o.icc_profile), CHUNK_ICCP@, o.level);
    let xi = opt_items(opt_vec(o.xmp_metadata), CHUNK_XMPD@, o.level);
    let good = |c: ChunkItem| meta_item_ok(c) && walkable(c);
    assert forall|i: int| 0 <= i < ci.len() implies #[trigger] good(ci[i]) by {
        let c = o.chdr_metadata->0;
        let p = chdr_payload(c);
        assert(p.len() <= 18);
        lemma_packed_item(CHUNK_CHDR@, p, o.level);
    }
    assert forall|i: int| 0 <= i < ei.len() implies #[trigger] good(ei[i]) by {
        lemma_packed_item(CHUNK_EXIF@, opt_vec(o.exif)->0, o.level);
    }
    assert forall|i: int| 0 <= i < ji.len() implies #[trigger] good(ji[i]) by {
        let (ns, text) = json[i];
        assert(json_entry_fits(json[i]));
        lemma_json_chunks_ok(json, o.level, json.len(), i as nat);
        let p = json_payload(ns, text);
        lemma_packed_item(CHUNK_JSON@, p, o.level);
        assert(p[0] == ns.len() as u8);
        assert(p.subrange(1, 1 + ns.len() as int) =~= ns);
        assert(p.subrange(1 + ns.len() as int, p.len() as int) =~= text);
        assert(json_payload_spec(p) == Ok::<(Seq<u8>, Seq<u8>), CafeError>((ns, text)));
    }
    assert forall|i: int| 0 <= i < ii.len() implies #[trigger] good(ii[i]) by {
        lemma_packed_item(CHUNK_ICCP@, opt_vec(o.icc_profile)->0, o.level);
    }
    assert forall|i: int| 0 <= i < xi.len() implies #[trigger] good(xi[i]) by {
        lemma_packed_item(CHUNK_XMPD@, opt_vec(o.xmp_metadata)->0, o.level);
    }
    let all = header_items(o);
    assert forall|i: int| 0 <= i < all.len() implies meta_item_ok(#[trigger] all[i]) && walkable(all[i]) by {
        let n1 = ci.len() as int;
        let n2 = n1 + ei.len();
        let n3 = n2 + ji.len();
        let n4 = n3 + ii.len();
        if i < n1 {
            assert(all[i] == ci[i]);
            assert(good(ci[i]));
        } else if i < n2 {
            assert(all[i] == ei[i - n1]);
            assert(good(ei[i - n1]));
        } else if i < n3 {
            assert(all[i] == ji[i - n2]);
            assert(good(ji[i - n2]));
        } else if i < n4 {
            assert(all[i] == ii[i - n3]);
            assert(good(ii[i - n3]));
        } else {
            assert(all[i] == xi[i - n4]);
            assert(good(xi[i - n4]));
        }
    }
}

/// What the decoder keeps of the `jSON` pairs `json[0..k]` read after the
/// pairs `acc`: each text that parses as JSON, under its namespace, a later
/// text replacing an earlier one of the same namespace.
pub open spec fn json_read_back(acc: Seq<(Seq<u8>, Seq<u8>)>, json: Seq<(Seq<u8>, Seq<u8>)>, k: nat) -> Seq<(Seq<u8>, Seq<u8>)>
    decreases k,
{
    if k == 0 {
        acc
    } else {
        let a = json_read_back(acc, json, (k - 1) as nat);
        if json_parses(json[k - 1].1) { json_insert(a, json[k - 1].0, json[k - 1].1) } else { a }
    }
}

/// The `xMPd` packet as the decoder keeps it: only when it is UTF-8.
pub open spec fn xmp_read_back(x: Option<Seq<u8>>) -> Option<Seq<u8>> {
    match x {
        Some(p) => if utf8_valid(p) { Some(p) } else { None },
        None => None,
    }
}

/// The metadata a decoder reports of a file written with options `o`: the
/// EXIF and ICC payloads as given, the XMP packet when it is UTF-8, the
/// `jSON` pairs as `json_read_back` keeps them, the `cHDR` fields as read
/// from their payload.
pub open spec fn meta_reported(v: DecView, o: EncodeOptions) -> bool {
    &&& v.exif == opt_vec(o.exif)
    &&& v.json_metadata == json_read_back(Seq::empty(), json_views(o.json_metadata@), o.json_metadata@.len())
    &&& v.icc_profile == opt_vec(o.icc_profile)
    &&& v.xmp_metadata == xmp_read_back(opt_vec(o.xmp_metadata))
    &&& v.chdr == match o.chdr_metadata {
        Some(c) => Some(parse_chdr_spec(chdr_payload(c))->Ok_0),
        None => None::<ChdrFields>,
    }
}

/// The metadata fields of the decoder's state are the same.
pub open spec fn same_meta(a: DecView, b: DecView) -> bool {
    &&& a.exif == b.exif
    &&& a.json_metadata == b.json_metadata
    &&& a.icc_profile == b.icc_profile
    &&& a.xmp_metadata == b.xmp_metadata
    &&& a.chdr == b.chdr
}

/// What one metadata chunk does, by type.
proof fn lemma_meta_effect(v: DecView, c: ChunkItem)
    requires meta_item_ok(c),
    ensures ({
        let (t, f, d) = c;
        let v2 = chunk_step(v, t, f, d)->Ok_0;
        &&& chunk_step(v, t, f, d) is Ok
        &&& t == CHUNK_CHDR@ ==> v2 == chdr_step(v, f, d)
        &&& t == CHUNK_EXIF@ ==> exif_step(v, f, d) == Ok::<DecView, CafeError>(v2)
        &&& t == CHUNK_JSON@ ==> json_step(v, f, d) == Ok::<DecView, CafeError>(v2)
        &&& t == CHUNK_ICCP@ ==> v2 == iccp_step(v, f, d)
        &&& t == CHUNK_XMPD@ ==> v2 == xmpd_step(v, f, d)
    }),
{
    reveal(chunk_step);
    lemma_meta_types_distinct();
}

proof fn lemma_run_single(v: DecView, c: ChunkItem)
    ensures run_steps(v, seq![c]) == chunk_step(v, c.0, c.1, c.2),
{
    let s = seq![c];
    assert(s[0] == c);
    assert(s.drop_first() =~= Seq::<ChunkItem>::empty());
    match chunk_step(v, c.0, c.1, c.2) {
        Err(_) => {},
        Ok(v1) => { assert(run_steps(v1, s.drop_first()) == Ok::<DecView, CafeError>(v1)); },
    }
}

/// The `jSON` chunks, read after pairs `v.json_metadata`, keep what
/// `json_read_back` says and leave the other metadata alone.
proof fn lemma_json_run_content(v: DecView, json: Seq<(Seq<u8>, Seq<u8>)>, level: i32, k: nat)
    requires
        k <= json.len(),
        forall|i: int| 0 <= i < k ==> meta_item_ok(#[trigger] json_items(json, level)[i]),
        forall|i: int| 0 <= i < k ==> unpacked(json_items(json, level)[i].1, json_items(json, level)[i].2)
            == Ok::<Seq<u8>, CafeError>(json_payload(json[i].0, json[i].1)),
        forall|i: int| 0 <= i < k ==> json_payload_spec(json_payload(json[i].0, json[i].1))
            == Ok::<(Seq<u8>, Seq<u8>), CafeError>(json[i]),
    ensures
        run_steps(v, json_items(json, level).take(k as int)) matches Ok(v2)
            && v2.json_metadata == json_read_back(v.json_metadata, json, k)
            && v2.exif == v.exif && v2.icc_profile == v.icc_profile && v2.xmp_metadata == v.xmp_metadata && v2.chdr == v.chdr,
    decreases k,
{
    let items = json_items(json, level);
    if k == 0 {
        assert(items.take(0) =~= Seq::<ChunkItem>::empty());
    } else {
        let k1 = (k - 1) as nat;
        lemma_json_run_content(v, json, level, k1);
        let v1 = run_steps(v, items.take(k1 as int))->Ok_0;
        assert(items.take(k as int) =~= items.take(k1 as int) + seq![items[k1 as int]]);
        lemma_run_steps_concat(v, items.take(k1 as int), seq![items[k1 as int]]);
        lemma_run_single(v1, items[k1 as int]);
        assert(meta_item_ok(items[k1 as int]));
        lemma_meta_effect(v1, items[k1 as int]);
        lemma_meta_types_distinct();
        assert(items[k1 as int].0 == CHUNK_JSON@);
    }
}

/// An optional payload stored as the encoder does, that decompresses back.
pub open spec fn stored_ok(p: Option<Seq<u8>>, level: i32) -> bool {
    p matches Some(q) ==> compress_with_fallback_spec(q, level) is Ok && q.len() <= MAX_DECOMPRESSED_CHUNK_SIZE && packs_back(q, level)
}

proof fn lemma_exif_part(v: DecView, p: Option<Seq<u8>>, level: i32)
    requires stored_ok(p, level), v.exif is None,
    ensures
        run_steps(v, opt_items(p, CHUNK_EXIF@, level)) matches Ok(v2) && v2.exif == p
            && v2.json_metadata == v.json_metadata && v2.icc_profile == v.icc_profile && v2.xmp_metadata == v.xmp_metadata && v2.chdr == v.chdr,
{
    lemma_meta_types_distinct();
    if let Some(q) = p {
        let c = packed_item(CHUNK_EXIF@, q, level);
        lemma_packed_item(CHUNK_EXIF@, q, level);
        lemma_run_single(v, c);
        lemma_meta_effect(v, c);
    }
}

proof fn lemma_iccp_part(v: DecView, p: Option<Seq<u8>>, level: i32)
    requires stored_ok(p, level), v.icc_profile is None,
    ensures
        run_steps(v, opt_items(p, CHUNK_ICCP@, level)) matches Ok(v2) && v2.icc_profile == p
            && v2.json_metadata == v.json_metadata && v2.exif == v.exif && v2.xmp_metadata == v.xmp_metadata && v2.chdr == v.chdr,
{
    lemma_meta_types_distinct();
    if let Some(q) = p {
        let c = packed_item(CHUNK_ICCP@, q, level);
        lemma_packed_item(CHUNK_ICCP@, q, level);
        lemma_run_single(v, c);
        lemma_meta_effect(v, c);
    }
}

proof fn lemma_xmpd_part(v: DecView, p: Option<Seq<u8>>, level: i32)
    requires stored_ok(p, level), v.xmp_metadata is None,
    ensures
        run_steps(v, opt_items(p, CHUNK_XMPD@, level)) matches Ok(v2) && v2.xmp_metadata == xmp_read_back(p)
            && v2.json_metadata == v.json_metadata && v2.exif == v.exif && v2.icc_profile == v.icc_profile && v2.chdr == v.chdr,
{
    lemma_meta_types_distinct();
    if let Some(q) = p {
        let c = packed_item(CHUNK_XMPD@, q, level);
        lemma_packed_item(CHUNK_XMPD@, q, level);
        lemma_run_single(v, c);
        lemma_meta_effect(v, c);
    }
}

proof fn lemma_chdr_part(v: DecView, o: EncodeOptions)
    requires stored_ok(match o.chdr_metadata { Some(c) => Some(chdr_payload(c)), None => None }, o.level), v.chdr is None,
    ensures
        run_steps(v, chdr_items(o)) matches Ok(v2)
            && v2.chdr == match o.chdr_metadata {
                Some(c) => Some(parse_chdr_spec(chdr_payload(c))->Ok_0),
                None => None::<ChdrFields>,
            }
            && v2.json_metadata == v.json_metadata && v2.exif == v.exif && v2.icc_profile == v.icc_profile && v2.xmp_metadata == v.xmp_metadata,
{
    lemma_meta_types_distinct();
    if let Some(cf) = o.chdr_metadata {
        let p = chdr_payload(cf);
        let c = packed_item(CHUNK_CHDR@, p, o.level);
        lemma_packed_item(CHUNK_CHDR@, p, o.level);
        lemma_run_single(v, c);
        lemma_meta_effect(v, c);
        crate::ancillary::lemma_chdr_parses(cf);
    }
}

proof fn lemma_json_part(v: DecView, o: EncodeOptions)
    requires
        o.idim is None,
        header_chunks(o) is Ok,
        header_packs_back(o),
        meta_fits(o),
    ensures
        run_steps(v, json_items(json_views(o.json_metadata@), o.level)) matches Ok(v2)
            && v2.json_metadata == json_read_back(v.json_metadata, json_views(o.json_metadata@), o.json_metadata@.len())
            && v2.exif == v.exif && v2.icc_profile == v.icc_profile && v2.xmp_metadata == v.xmp_metadata && v2.chdr == v.chdr,
{
    let json = json_views(o.json_metadata@);
    let ji = json_items(json, o.level);
    lemma_header_items_ok(o);
    let j = json_chunks(json, o.level, json.len());
    assert(j is Ok) by {
        reveal(header_chunks);
    }
    assert forall|i: int| 0 <= i < json.len() implies
        unpacked(#[trigger] ji[i].1, ji[i].2) == Ok::<Seq<u8>, CafeError>(json_payload(json[i].0, json[i].1)) by {
        let (ns, text) = json[i];
        assert(json_entry_fits(json[i]));
        lemma_json_chunks_ok(json, o.level, json.len(), i as nat);
        lemma_packed_item(CHUNK_JSON@, json_payload(ns, text), o.level);
    }
    assert forall|i: int| 0 <= i < json.len() implies
        json_payload_spec(json_payload(json[i].0, json[i].1)) == Ok::<(Seq<u8>, Seq<u8>), CafeError>(json[i]) by {
        let (ns, text) = json[i];
        assert(json_entry_fits(json[i]));
        let p = json_payload(ns, text);
        assert(p[0] == ns.len() as u8);
        assert(p.subrange(1, 1 + ns.len() as int) =~= ns);
        assert(p.subrange(1 + ns.len() as int, p.len() as int) =~= text);
    }
    assert forall|i: int| 0 <= i < json.len() implies meta_item_ok(#[trigger] ji[i]) by {
        let n1 = chdr_items(o).len() + opt_items(opt_vec(o.exif), CHUNK_EXIF@, o.level).len();
        assert(header_items(o)[n1 + i] == ji[i]);
        assert(meta_item_ok(header_items(o)[n1 + i]));
    }
    lemma_json_run_content(v, json, o.level, json.len());
    assert(ji.take(json.len() as int) =~= ji);
}

/// Reading the run `header_items` into a decoder that holds no metadata
/// yet leaves the metadata that `meta_reported` says.
#[verifier::spinoff_prover]
pub proof fn lemma_header_items_content(v: DecView, o: EncodeOptions)
    requires
        o.idim is None,
        header_chunks(o) is Ok,
        header_packs_back(o),
        meta_fits(o),
        v.exif is None,
        v.json_metadata.len() == 0,
        v.icc_profile is None,
        v.xmp_metadata is None,
        v.chdr is None,
    ensures
        run_steps(v, header_items(o)) matches Ok(v2) && meta_reported(v2, o),
{
    let json = json_views(o.json_metadata@);
    let e = opt_chunk(opt_vec(o.exif), CHUNK_EXIF@, o.level);
    let ic = opt_chunk(opt_vec(o.icc_profile), CHUNK_ICCP@, o.level);
    let x = opt_chunk(opt_vec(o.xmp_metadata), CHUNK_XMPD@, o.level);
    assert(chdr_part(o) is Ok && e is Ok && ic is Ok && x is Ok) by {
        reveal(header_chunks);
    }
    let ci = chdr_items(o);
    let ei = opt_items(opt_vec(o.exif), CHUNK_EXIF@, o.level);
    let ji = json_items(json, o.level);
    let ii = opt_items(opt_vec(o.icc_profile), CHUNK_ICCP@, o.level);
    let xi = opt_items(opt_vec(o.xmp_metadata), CHUNK_XMPD@, o.level);
    lemma_run_steps_concat(v, ci + ei + ji + ii, xi);
    lemma_run_steps_concat(v, ci + ei + ji, ii);
    lemma_run_steps_concat(v, ci + ei, ji);
    lemma_run_steps_concat(v, ci, ei);
    lemma_chdr_part(v, o);
    let va = run_steps(v, ci)->Ok_0;
    lemma_exif_part(va, opt_vec(o.exif), o.level);
    let vb = run_steps(va, ei)->Ok_0;
    lemma_json_part(vb, o);
    let vc = run_steps(vb, ji)->Ok_0;
    lemma_iccp_part(vc, opt_vec(o.icc_profile), o.level);
    let vd = run_steps(vc, ii)->Ok_0;
    lemma_xmpd_part(vd, opt_vec(o.xmp_metadata), o.level);
    assert(vb.json_metadata =~= Seq::<(Seq<u8>, Seq<u8>)>::empty());
}

} // verus!
