//! What decoding gives back of what encoding wrote.

use vstd::prelude::*;

use crate::chunk::{chunk_bytes, is_chunk_type_byte, lemma_chunk_roundtrip, read_chunk_spec, valid_chunk_type};
use crate::color::be32_at;
use crate::constants::{F_WEIGHTED, FILTER_METHOD_BYTE_SHUFFLE, FILTER_METHOD_NONE, FILTER_METHOD_PREDICTIVE, NUM_FILTERS};
use crate::codec::{compress_with_fallback_dict_spec, effective_limit, unpacks_to};
use crate::color::{bytes_per_pixel_spec, color_type_to_rgba_spec, row_bytes};
use crate::constants::{
    CHUNK_IDAT, CHUNK_IEND, CHUNK_IHDR, COLOR_TYPE_GRAY, COLOR_TYPE_GRAY_ALPHA, COLOR_TYPE_INDEXED, COLOR_TYPE_RGB, COLOR_TYPE_RGBA, FLAG_RAW, INTERLACE_NONE,
    MAX_DECOMPRESSED_CHUNK_SIZE, COMPRESSION_METHOD_ZSTD_BIT, INTERLACE_ADAM7, INTERLACE_EVEN_ODD, SAMPLE_FORMAT_FLOAT, SAMPLE_FORMAT_HALF, SAMPLE_FORMAT_UINT, SIGNATURE,
};
use crate::header::{decompress_budget_spec, direct_row_bytes, ihdr_payload_spec, ihdr_row_bytes, ihdr_step, initial_decode_state, lemma_ihdr_roundtrip};
use crate::interlace::{reconstruct_adam7_spec, reconstruct_even_odd_spec};
use crate::interlace_roundtrip::{header_for_passes, lemma_passes_rebuild, lemma_passes_take, lemma_walk_passes, pass_idats_of, pass_total, passes_after};
use crate::meta_roundtrip::{
    header_items, lemma_header_items_content, lemma_header_items_ok, lemma_header_run, lemma_meta_run, lemma_walk_run, meta_fits,
    meta_reported, run_bytes, run_steps, same_meta,
};
use crate::decode::{
    decode_spec, initial_view, sized_rgba, chunk_step, direct_step, idat_step, idat_unpack_step, idim_tile_raw_spec, tile_filters_spec, walk, with_stat,
    DecView,
};
use crate::ancillary::tile_extent;
use crate::encode::{
    assemble_spec, encode_layout, encode_raw_spec, filter_method_of, final_dict_spec, header_chunks, idats_and_zdic, ihdr_chunk_spec,
    header_packs_back, idats_unpack, interlace_passes, is_interlaced, pass_idats, pass_payload, json_views, tile_filter_of, zdic_part, EncodeOptions,
    idat_unpacks, iend_chunk, lemma_tile_count, row_tile_count, row_tile_idats, row_tile_payload, row_tile_raw, row_tiles_unpack, tile_end, tile_payload,
    tile_start, TileFilter,
};
use crate::error::CafeError;
use crate::filter::{
    block_score, coded_block_spec, filter_block_spec, is_best_code, lemma_sblock, lemma_undo_predictive_filter_roundtrip,
    lemma_wblock, FilterHeuristic,
};
use crate::filter_choice::{best_code, best_filtered_block};
use crate::shuffle::{lemma_byte_shuffle_roundtrip, shuffle_result};

verus! {

/// A chunk read `pre.len()` bytes into `pre + s` is the chunk read at the
/// start of `s`, its end moved by `pre.len()`.
pub proof fn lemma_read_chunk_shift(pre: Seq<u8>, s: Seq<u8>)
    ensures
        read_chunk_spec(pre + s, pre.len()) == match read_chunk_spec(s, 0) {
            Ok((t, f, d, n)) => Ok::<(Seq<u8>, u8, Seq<u8>, nat), CafeError>((t, f, d, pre.len() + n)),
            Err(e) => Err::<(Seq<u8>, u8, Seq<u8>, nat), CafeError>(e),
        },
{
    reveal(read_chunk_spec);
    let buf = pre + s;
    let o = pre.len() as int;
    assert forall|i: int| 0 <= i < s.len() implies #[trigger] buf[o + i] == s[i] by {}
    if o + 9 <= buf.len() {
        assert(be32_at(buf, o) == be32_at(s, 0)) by {
            assert(buf[o] == s[0] && buf[o + 1] == s[1] && buf[o + 2] == s[2] && buf[o + 3] == s[3]);
        }
        assert(buf.subrange(o + 4, o + 8) =~= s.subrange(4, 8));
        assert(buf[o + 8] == s[8]);
        let length = be32_at(s, 0) as int;
        if o + 9 + length + 4 <= buf.len() {
            assert(buf.subrange(o + 9, o + 9 + length) =~= s.subrange(9, 9 + length));
            let e = 9 + length;
            assert(be32_at(buf, o + e) == be32_at(s, e)) by {
                assert(buf[o + e] == s[e] && buf[o + e + 1] == s[e + 1] && buf[o + e + 2] == s[e + 2] && buf[o + e + 3] == s[e + 3]);
            }
        }
    }
}


/// The first code below `k` of least score, among those that have a score.
pub open spec fn scored_argmin(t: Seq<u8>, h: nat, bpr: int, bpp: int, heuristic: FilterHeuristic, level: i32, k: nat) -> Option<u8>
    decreases k,
{
    if k == 0 {
        None
    } else {
        let m = scored_argmin(t, h, bpr, bpp, heuristic, level, (k - 1) as nat);
        let c = (k - 1) as u8;
        match block_score(t, h, bpr, bpp, heuristic, level, c) {
            None => m,
            Some(sc) => match m {
                None => Some(c),
                Some(mc) => if sc < block_score(t, h, bpr, bpp, heuristic, level, mc)->0 { Some(c) } else { m },
            },
        }
    }
}

#[verifier::spinoff_prover]
#[verifier::rlimit(30)]
proof fn lemma_scored_argmin(t: Seq<u8>, h: nat, bpr: int, bpp: int, heuristic: FilterHeuristic, level: i32, k: nat)
    requires k <= 256,
    ensures
        scored_argmin(t, h, bpr, bpp, heuristic, level, k) is None
            ==> forall|g: u8| g < k ==> (#[trigger] block_score(t, h, bpr, bpp, heuristic, level, g)) is None,
        scored_argmin(t, h, bpr, bpp, heuristic, level, k) matches Some(c) ==> {
            &&& c < k
            &&& block_score(t, h, bpr, bpp, heuristic, level, c) is Some
            &&& forall|g: u8| g < k && (#[trigger] block_score(t, h, bpr, bpp, heuristic, level, g)) is Some ==> {
                &&& block_score(t, h, bpr, bpp, heuristic, level, c)->0 <= block_score(t, h, bpr, bpp, heuristic, level, g)->0
                &&& (g < c ==> block_score(t, h, bpr, bpp, heuristic, level, c)->0 < block_score(t, h, bpr, bpp, heuristic, level, g)->0)
            }
        },
    decreases k,
{
    if k > 0 {
        lemma_scored_argmin(t, h, bpr, bpp, heuristic, level, (k - 1) as nat);
    }
}

/// A block has a best filter code as soon as one candidate has a score.
pub proof fn lemma_best_code_exists(t: Seq<u8>, h: nat, bpr: int, bpp: int, heuristic: FilterHeuristic, level: i32, g: u8)
    requires
        g < NUM_FILTERS,
        block_score(t, h, bpr, bpp, heuristic, level, g) is Some,
    ensures exists|code: u8| is_best_code(t, h, bpr, bpp, heuristic, level, code),
{
    lemma_scored_argmin(t, h, bpr, bpp, heuristic, level, NUM_FILTERS as nat);
    let c = scored_argmin(t, h, bpr, bpp, heuristic, level, NUM_FILTERS as nat)->0;
    assert(is_best_code(t, h, bpr, bpp, heuristic, level, c));
}

/// Under the sum of residuals every block has a best filter code.
pub proof fn lemma_msad_best_exists(t: Seq<u8>, h: nat, bpr: int, bpp: int, level: i32)
    ensures exists|code: u8| is_best_code(t, h, bpr, bpp, FilterHeuristic::Msad, level, code),
{
    lemma_best_code_exists(t, h, bpr, bpp, FilterHeuristic::Msad, level, 0);
}

/// The `IHDR` filter method of a tile filter that can encode.
pub open spec fn tile_filter_method(f: TileFilter) -> u8 {
    if f.use_byte_shuffle {
        FILTER_METHOD_BYTE_SHUFFLE
    } else if f.use_filter {
        FILTER_METHOD_PREDICTIVE
    } else {
        FILTER_METHOD_NONE
    }
}

/// A decoder whose header says width `w`, `bpr` bytes per row and the
/// filter method of `f` undoes the filter of a tile of `th` rows.
pub proof fn lemma_tile_decodes(v: DecView, t: Seq<u8>, th: nat, bpr: nat, bpp: nat, w: u32, f: TileFilter)
    requires
        tile_payload(t, th, bpr, bpp, w, f) is Ok,
        v.header.width == Some(w),
        v.header.bytes_per_row == bpr,
        0 < bpr <= usize::MAX / 4,
        1 <= bpp,
        th <= u32::MAX,
        t.len() == th * bpr,
        th * bpr + 1 <= usize::MAX,
        v.header.filter_method == tile_filter_method(f),
        f.use_filter && !f.use_byte_shuffle ==> exists|c: u8| is_best_code(t, th, bpr as int, bpp as int, f.heuristic, f.level, c),
        f.use_byte_shuffle ==> bpr == w * bpp,
    ensures
        tile_filters_spec(v, tile_payload(t, th, bpr, bpp, w, f)->Ok_0, bpp) == Ok::<(Seq<u8>, nat), CafeError>((t, th)),
        tile_payload(t, th, bpr, bpp, w, f)->Ok_0.len() <= th * bpr + 1,
{
    let p = tile_payload(t, th, bpr, bpp, w, f)->Ok_0;
    assert(th * bpr / bpr == th) by {
        vstd::arithmetic::div_mod::lemma_div_multiples_vanish(th as int, bpr as int);
        assert(th * bpr == bpr * th) by (nonlinear_arith);
    }
    if f.use_byte_shuffle {
        lemma_byte_shuffle_roundtrip(t, bpp, w as nat, (th as u32) as nat);
        assert(p == shuffle_result(t, bpp, w as nat, (th as u32) as nat, true)->Ok_0);
        assert(p.len() == t.len());
        assert(shuffle_result(p, bpp, w as nat, ((p.len() / bpr) as u32) as nat, false) == Ok::<Seq<u8>, CafeError>(t));
    } else if f.use_filter {
        let c = best_code(t, th, bpr as int, bpp as int, f.heuristic, f.level);
        assert(is_best_code(t, th, bpr as int, bpp as int, f.heuristic, f.level, c));
        assert(p == coded_block_spec(t, th, bpr as int, bpp as int, c));
        if c == F_WEIGHTED {
            lemma_wblock(t, th, bpr as int, bpp as int);
        } else {
            lemma_sblock(t, th, bpr as int, bpp as int, c);
        }
        assert(filter_block_spec(t, th, bpr as int, bpp as int, c).len() == th * bpr);
        assert(p.len() == 1 + th * bpr);
        assert((p.len() - 1) as nat / bpr == th);
        lemma_undo_predictive_filter_roundtrip(t, th, bpr, bpp, c);
        assert(t.take((th * bpr) as int) =~= t);
    } else {
        assert(p == t);
    }
}


/// A 2D tile as the encoder writes it (its rows of `stride` bytes taken
/// from the image, then filtered as `f` says) is decoded back to those
/// rows, as the tile next in the decoder's visiting order, with the tile
/// counter moved on.
pub proof fn lemma_idim_tile_decodes(v: DecView, t: Seq<u8>, f: TileFilter)
    requires
        ({
            let hd = v.header;
            &&& v.idim matches Some(d) && v.idim_tile_order matches Some(order) && {
                &&& v.tiles_seen < d.tiles_x * d.tiles_y
                &&& v.tiles_seen < order.len()
                &&& hd.width matches Some(w) && hd.height matches Some(h) && {
                    let (tx, ty) = order[v.tiles_seen as int];
                    let tw = tile_extent(tx as int, d.tile_width as int, w as int) as nat;
                    let th = tile_extent(ty as int, d.tile_height as int, h as int) as nat;
                    &&& hd.color_type != COLOR_TYPE_INDEXED && hd.bit_depth >= 8
                    &&& bytes_per_pixel_spec(hd.color_type, hd.bit_depth) matches Some(bpp) && {
                        let stride = tw * (bpp as nat);
                        let g = TileFilter { use_filter_per_row: false, ..f };
                        &&& 0 < stride <= usize::MAX / 4
                        &&& stride * th + 1 <= usize::MAX
                        &&& t.len() == stride * th
                        &&& hd.filter_method == tile_filter_method(f)
                        &&& tile_payload(t, th, stride, bpp as nat, tw as u32, g) is Ok
                        &&& (f.use_filter && !f.use_byte_shuffle
                            ==> exists|c: u8| is_best_code(t, th, stride as int, bpp as int, f.heuristic, f.level, c))
                    }
                }
            }
        }),
    ensures ({
        let d = v.idim->0;
        let (tx, ty) = v.idim_tile_order->0[v.tiles_seen as int];
        let tw = tile_extent(tx as int, d.tile_width as int, v.header.width->0 as int) as nat;
        let th = tile_extent(ty as int, d.tile_height as int, v.header.height->0 as int) as nat;
        let bpp = bytes_per_pixel_spec(v.header.color_type, v.header.bit_depth)->0 as nat;
        let g = TileFilter { use_filter_per_row: false, ..f };
        idim_tile_raw_spec(v, tile_payload(t, th, tw * bpp, bpp, tw as u32, g)->Ok_0)
            == Ok::<(DecView, (u16, u16, nat, nat, Seq<u8>)), CafeError>((DecView { tiles_seen: v.tiles_seen + 1, ..v }, (tx, ty, tw, th, t)))
    }),
{
    let d = v.idim->0;
    let (tx, ty) = v.idim_tile_order->0[v.tiles_seen as int];
    let w = v.header.width->0;
    let h = v.header.height->0;
    let tw = tile_extent(tx as int, d.tile_width as int, w as int) as nat;
    let th = tile_extent(ty as int, d.tile_height as int, h as int) as nat;
    let bpp = bytes_per_pixel_spec(v.header.color_type, v.header.bit_depth)->0 as nat;
    let stride = tw * bpp;
    let g = TileFilter { use_filter_per_row: false, ..f };
    let p = tile_payload(t, th, stride, bpp, tw as u32, g)->Ok_0;
    assert(tw <= w) by {
        assert(tile_extent(tx as int, d.tile_width as int, w as int) <= w);
    }
    assert(th <= h);
    if f.use_byte_shuffle {
        assert(th <= u32::MAX);
        lemma_byte_shuffle_roundtrip(t, bpp, tw, th);
        assert(shuffle_result(p, bpp, tw, th, false) == Ok::<Seq<u8>, CafeError>(t));
    } else if f.use_filter {
        let c = best_code(t, th, stride as int, bpp as int, f.heuristic, f.level);
        assert(is_best_code(t, th, stride as int, bpp as int, f.heuristic, f.level, c));
        assert(p == coded_block_spec(t, th, stride as int, bpp as int, c));
        if c == F_WEIGHTED {
            lemma_wblock(t, th, stride as int, bpp as int);
        } else {
            lemma_sblock(t, th, stride as int, bpp as int, c);
        }
        assert(p.len() == 1 + th * stride);
        assert((p.len() - 1) as nat / stride == th) by {
            vstd::arithmetic::div_mod::lemma_div_multiples_vanish(th as int, stride as int);
            assert(th * stride == stride * th) by (nonlinear_arith);
        }
        assert(th * stride == stride * th) by (nonlinear_arith);
        lemma_undo_predictive_filter_roundtrip(t, th, stride, bpp, c);
        assert(t.take((th * stride) as int) =~= t);
    } else {
        assert(p == t);
    }
}

/// What decoding one `IDAT` of a row tile does to a decoder set up for the
/// image: the tile's rows are appended, the payload counted.
pub open spec fn after_tile(v: DecView, t: Seq<u8>, plen: nat, dlen: nat) -> DecView {
    DecView {
        pixel_rows: v.pixel_rows + t,
        decompressed_total: (v.decompressed_total + plen) as u64,
        ..with_stat(v, crate::constants::CHUNK_IDAT, plen, dlen)
    }
}

/// The `IDAT` of a row tile, as the encoder writes it without a
/// dictionary, decodes to the tile's rows.
pub proof fn lemma_idat_decodes(v: DecView, t: Seq<u8>, th: nat, bpp: nat, f: TileFilter, flag: u8, data: Seq<u8>)
    requires
        ({
            let hd = v.header;
            &&& hd.width matches Some(w) && tile_payload(t, th, hd.bytes_per_row as nat, bpp, w, f) is Ok
            &&& hd.height is Some
            &&& hd.interlace_method_read == INTERLACE_NONE
            &&& hd.color_type != COLOR_TYPE_INDEXED
            &&& bytes_per_pixel_spec(hd.color_type, hd.bit_depth) == Some(bpp as usize)
            &&& 0 < hd.bytes_per_row <= usize::MAX / 4
            &&& t.len() == th * hd.bytes_per_row
            &&& th <= u32::MAX
            &&& th * hd.bytes_per_row + 1 <= usize::MAX
            &&& hd.filter_method == tile_filter_method(f)
            &&& (f.use_filter && !f.use_byte_shuffle
                ==> exists|c: u8| is_best_code(t, th, hd.bytes_per_row as int, bpp as int, f.heuristic, f.level, c))
            &&& (f.use_byte_shuffle ==> hd.bytes_per_row == hd.width->0 * bpp)
            &&& hd.decompress_budget matches Some(b) && {
                let p = tile_payload(t, th, hd.bytes_per_row as nat, bpp, hd.width->0, f)->Ok_0;
                &&& v.decompressed_total + p.len() <= b
                &&& p.len() <= MAX_DECOMPRESSED_CHUNK_SIZE
                &&& compress_with_fallback_dict_spec(p, f.level, None) == Ok::<(u8, Seq<u8>, bool), CafeError>((flag, data, false))
                    || compress_with_fallback_dict_spec(p, f.level, None) == Ok::<(u8, Seq<u8>, bool), CafeError>((flag, data, true))
                &&& unpacks_to(flag, data, p)
            }
            &&& hd.bytes_per_row * hd.height->0 <= usize::MAX
            &&& v.pixel_rows.len() + t.len() <= hd.bytes_per_row * hd.height->0
        }),
        v.zstd_dictionary is None,
        v.idim is None,
    ensures
        chunk_step(v, CHUNK_IDAT@, flag, data) == Ok::<DecView, CafeError>(after_tile(v, t,
            tile_payload(t, th, v.header.bytes_per_row as nat, bpp, v.header.width->0, f)->Ok_0.len(), data.len())),
{
    let hd = v.header;
    let w = hd.width->0;
    let bpr = hd.bytes_per_row as nat;
    let p = tile_payload(t, th, bpr, bpp, w, f)->Ok_0;
    let b = hd.decompress_budget->0;
    let remaining: u64 = (b - v.decompressed_total) as u64;
    assert(p.len() <= effective_limit(remaining));
    assert(idat_unpack_step(v, flag, data) == Ok::<(DecView, Seq<u8>), CafeError>((DecView {
        decompressed_total: (v.decompressed_total + p.len()) as u64,
        ..with_stat(v, CHUNK_IDAT, p.len(), data.len())
    }, p)));
    let v1 = DecView { decompressed_total: (v.decompressed_total + p.len()) as u64, ..with_stat(v, CHUNK_IDAT, p.len(), data.len()) };
    lemma_tile_decodes(v1, t, th, bpr, bpp, w, f);
    assert(direct_step(v1, p) == Ok::<DecView, CafeError>(after_tile(v, t, p.len(), data.len())));
    assert(idat_step(v, flag, data) == Ok::<DecView, CafeError>(after_tile(v, t, p.len(), data.len())));
    reveal(chunk_step);
    assert(CHUNK_IDAT@ != crate::constants::CHUNK_IHDR@) by { assert(CHUNK_IDAT@[2] != crate::constants::CHUNK_IHDR@[2]); }
    assert(CHUNK_IDAT@ != crate::constants::CHUNK_PLTE@) by { assert(CHUNK_IDAT@[0] != crate::constants::CHUNK_PLTE@[0]); }
    assert(CHUNK_IDAT@ != crate::constants::CHUNK_EXIF@) by { assert(CHUNK_IDAT@[0] != crate::constants::CHUNK_EXIF@[0]); }
    assert(CHUNK_IDAT@ != crate::constants::CHUNK_JSON@) by { assert(CHUNK_IDAT@[0] != crate::constants::CHUNK_JSON@[0]); }
    assert(CHUNK_IDAT@ != crate::constants::CHUNK_ICCP@) by { assert(CHUNK_IDAT@[0] != crate::constants::CHUNK_ICCP@[0]); }
    assert(CHUNK_IDAT@ != crate::constants::CHUNK_XMPD@) by { assert(CHUNK_IDAT@[0] != crate::constants::CHUNK_XMPD@[0]); }
    assert(CHUNK_IDAT@ != crate::constants::CHUNK_ZDIC@) by { assert(CHUNK_IDAT@[0] != crate::constants::CHUNK_ZDIC@[0]); }
    assert(CHUNK_IDAT@ != crate::constants::CHUNK_IDIM@) by { assert(CHUNK_IDAT@[0] != crate::constants::CHUNK_IDIM@[0]); }
    assert(CHUNK_IDAT@ != crate::constants::CHUNK_CHDR@) by { assert(CHUNK_IDAT@[0] != crate::constants::CHUNK_CHDR@[0]); }
}

/// The chunk written after `pre` is the one read there.
pub(crate) proof fn lemma_read_at(pre: Seq<u8>, t: Seq<u8>, flag: u8, data: Seq<u8>, rest: Seq<u8>)
    requires
        t.len() == 4,
        valid_chunk_type(t),
        data.len() <= u32::MAX,
    ensures
        read_chunk_spec(pre + chunk_bytes(t, flag, data) + rest, pre.len())
            == Ok::<(Seq<u8>, u8, Seq<u8>, nat), CafeError>((t, flag, data, pre.len() + 13 + data.len())),
        (pre + chunk_bytes(t, flag, data) + rest).len() == pre.len() + 13 + data.len() + rest.len(),
{
    let c = chunk_bytes(t, flag, data);
    assert(pre + c + rest =~= pre + (c + rest));
    lemma_read_chunk_shift(pre, c + rest);
    lemma_chunk_roundtrip(t, flag, data, rest);
}

/// Walking at a chunk that is not `IEND` applies it and goes on after it.
pub(crate) proof fn lemma_walk_step(buf: Seq<u8>, off: nat, v: DecView, t: Seq<u8>, flag: u8, data: Seq<u8>, next: nat)
    requires
        read_chunk_spec(buf, off) == Ok::<(Seq<u8>, u8, Seq<u8>, nat), CafeError>((t, flag, data, next)),
        off < next,
        off < buf.len(),
        t != CHUNK_IEND@,
    ensures
        walk(buf, off, v) == match chunk_step(v, t, flag, data) {
            Err(e) => Err::<DecView, CafeError>(e),
            Ok(v2) => walk(buf, next, v2),
        },
{
}

/// Walking at an `IEND` chunk stops there.
pub(crate) proof fn lemma_walk_end(buf: Seq<u8>, off: nat, v: DecView)
    requires
        read_chunk_spec(buf, off) matches Ok((t, _, _, _)) && t == CHUNK_IEND@,
        off < buf.len(),
    ensures walk(buf, off, v) == Ok::<DecView, CafeError>(v),
{
}

pub(crate) proof fn lemma_valid_types()
    ensures
        valid_chunk_type(CHUNK_IDAT@),
        valid_chunk_type(CHUNK_IEND@),
        valid_chunk_type(CHUNK_IHDR@),
        CHUNK_IDAT@ != CHUNK_IEND@,
        CHUNK_IHDR@ != CHUNK_IEND@,
{
    assert(is_chunk_type_byte(CHUNK_IDAT@[0]) && is_chunk_type_byte(CHUNK_IDAT@[1])
        && is_chunk_type_byte(CHUNK_IDAT@[2]) && is_chunk_type_byte(CHUNK_IDAT@[3]));
    assert(is_chunk_type_byte(CHUNK_IEND@[0]) && is_chunk_type_byte(CHUNK_IEND@[1])
        && is_chunk_type_byte(CHUNK_IEND@[2]) && is_chunk_type_byte(CHUNK_IEND@[3]));
    assert(is_chunk_type_byte(CHUNK_IHDR@[0]) && is_chunk_type_byte(CHUNK_IHDR@[1])
        && is_chunk_type_byte(CHUNK_IHDR@[2]) && is_chunk_type_byte(CHUNK_IHDR@[3]));
    assert(CHUNK_IDAT@[1] != CHUNK_IEND@[1]);
    assert(CHUNK_IHDR@[1] != CHUNK_IEND@[1]);
}

/// The `IDAT` bytes of row tiles `0..k`, written without a dictionary.
pub open spec fn idats_of(raw: Seq<u8>, h: nat, tr: nat, bpr: nat, bpp: nat, w: u32, f: TileFilter, k: nat) -> Seq<u8> {
    row_tile_idats(raw, h, tr, bpr, bpp, w, f, None, k)->Ok_0.0
}

/// When the `IDAT`s of row tiles `0..m` are written, those of tiles
/// `0..k+1` are those of `0..k` followed by tile `k`'s chunk, and they begin
/// those of `0..m`.
proof fn lemma_row_tile_idats_step(raw: Seq<u8>, h: nat, tr: nat, bpr: nat, bpp: nat, w: u32, f: TileFilter, k: nat, m: nat)
    requires
        k < m,
        row_tile_idats(raw, h, tr, bpr, bpp, w, f, None, m) is Ok,
    ensures
        row_tile_idats(raw, h, tr, bpr, bpp, w, f, None, k) is Ok,
        row_tile_idats(raw, h, tr, bpr, bpp, w, f, None, k + 1) is Ok,
        row_tile_payload(raw, h, tr, bpr, bpp, w, f, k) is Ok,
        compress_with_fallback_dict_spec(row_tile_payload(raw, h, tr, bpr, bpp, w, f, k)->Ok_0, f.level, None) matches Ok((flag, data, _))
            && idats_of(raw, h, tr, bpr, bpp, w, f, k + 1) == idats_of(raw, h, tr, bpr, bpp, w, f, k) + chunk_bytes(CHUNK_IDAT@, flag, data),
        idats_of(raw, h, tr, bpr, bpp, w, f, k + 1).len() <= idats_of(raw, h, tr, bpr, bpp, w, f, m).len(),
        idats_of(raw, h, tr, bpr, bpp, w, f, m).take(idats_of(raw, h, tr, bpr, bpp, w, f, k + 1).len() as int)
            == idats_of(raw, h, tr, bpr, bpp, w, f, k + 1),
    decreases m,
{
    let m1 = (m - 1) as nat;
    assert(row_tile_idats(raw, h, tr, bpr, bpp, w, f, None, m1) is Ok);
    if k + 1 < m {
        lemma_row_tile_idats_step(raw, h, tr, bpr, bpp, w, f, k, m1);
        let a = idats_of(raw, h, tr, bpr, bpp, w, f, k + 1);
        let b = idats_of(raw, h, tr, bpr, bpp, w, f, m1);
        assert(idats_of(raw, h, tr, bpr, bpp, w, f, m).take(a.len() as int) =~= b.take(a.len() as int));
    } else {
        let a = idats_of(raw, h, tr, bpr, bpp, w, f, m);
        assert(a.take(a.len() as int) =~= a);
    }
}

/// Rows `0..k*tr` of an image of `h` rows, cut at `h`.
pub open spec fn rows_done(k: nat, tr: nat, h: nat) -> nat {
    if k * tr < h { k * tr } else { h }
}

/// The tallest row tile: `tr` rows, or `h` when the image is shorter.
pub open spec fn max_tile_rows(h: nat, tr: nat) -> nat {
    if h < tr { h } else { tr }
}

/// What the decoder's header holds when it reads the `IDAT`s of an image
/// of `h` rows of `bpr` bytes (`bpp`-byte pixels), `w` pixels wide, filtered
/// as `f` says.
pub open spec fn header_for_tiles(v: DecView, h: nat, tr: nat, bpr: nat, bpp: nat, w: u32, f: TileFilter) -> bool {
    let hd = v.header;
    &&& hd.width == Some(w)
    &&& hd.height matches Some(hh) && hh == h
    &&& hd.interlace_method_read == INTERLACE_NONE
    &&& hd.color_type != COLOR_TYPE_INDEXED
    &&& bytes_per_pixel_spec(hd.color_type, hd.bit_depth) == Some(bpp as usize)
    &&& hd.bytes_per_row == bpr
    &&& hd.filter_method == tile_filter_method(f)
    &&& (f.use_byte_shuffle ==> bpr == w * bpp)
    &&& hd.decompress_budget matches Some(b) && b >= h * (bpr + 1)
    &&& v.zstd_dictionary is None
    &&& v.idim is None
    &&& 0 < bpr
    &&& 1 <= bpp
    &&& 0 < tr
    &&& max_tile_rows(h, tr) * bpr + 1 <= MAX_DECOMPRESSED_CHUNK_SIZE
    &&& h * bpr <= usize::MAX
    &&& h <= u32::MAX
}

/// The payload of row tile `k`, and what is stored for it: the chunk flag,
/// data and whether a dictionary was used.
pub open spec fn tile_packed(raw: Seq<u8>, h: nat, tr: nat, bpr: nat, bpp: nat, w: u32, f: TileFilter, k: nat) -> (Seq<u8>, (u8, Seq<u8>, bool)) {
    let p = row_tile_payload(raw, h, tr, bpr, bpp, w, f, k)->Ok_0;
    (p, compress_with_fallback_dict_spec(p, f.level, None)->Ok_0)
}

/// The decoder takes the `IDAT` of row tile `k` after the rows of tiles
/// `0..k`.
#[verifier::spinoff_prover]
proof fn lemma_tile_step(raw: Seq<u8>, h: nat, tr: nat, bpr: nat, bpp: nat, w: u32, f: TileFilter, k: nat, v: DecView)
    requires
        header_for_tiles(v, h, tr, bpr, bpp, w, f),
        raw.len() >= h * bpr,
        k < row_tile_count(h, tr),
        row_tile_payload(raw, h, tr, bpr, bpp, w, f, k) is Ok,
        compress_with_fallback_dict_spec(tile_packed(raw, h, tr, bpr, bpp, w, f, k).0, f.level, None) is Ok,
        idat_unpacks(tile_packed(raw, h, tr, bpr, bpp, w, f, k).0, f.level),
        tiles_have_best_code(raw, h, tr, bpr, bpp, f),
        v.pixel_rows == raw.take((rows_done(k, tr, h) * bpr) as int),
        v.decompressed_total <= rows_done(k, tr, h) * (bpr + 1),
    ensures ({
        let (p, (flag, data, _)) = tile_packed(raw, h, tr, bpr, bpp, w, f, k);
        let v2 = after_tile(v, row_tile_raw(raw, h, tr, bpr, k), p.len(), data.len());
        &&& data.len() <= u32::MAX
        &&& chunk_step(v, CHUNK_IDAT@, flag, data) == Ok::<DecView, CafeError>(v2)
        &&& v2.header == v.header
        &&& header_for_tiles(v2, h, tr, bpr, bpp, w, f)
        &&& v2.pixel_rows == raw.take((rows_done(k + 1, tr, h) * bpr) as int)
        &&& v2.decompressed_total <= rows_done(k + 1, tr, h) * (bpr + 1)
    }),
{
    let (p, (flag, data, used)) = tile_packed(raw, h, tr, bpr, bpp, w, f, k);
    lemma_tile_count(h, tr);
    let t = row_tile_raw(raw, h, tr, bpr, k);
    let s0 = tile_start(k, tr);
    let e0 = tile_end(k, tr, h);
    let th = (e0 - s0) as nat;
    assert(s0 < h);
    assert(rows_done(k, tr, h) == s0);
    assert(e0 == rows_done(k + 1, tr, h)) by {
        assert((k + 1) * tr == k * tr + tr) by (nonlinear_arith);
    }
    assert(1 <= th <= max_tile_rows(h, tr));
    assert(e0 * bpr <= h * bpr) by (nonlinear_arith) requires e0 <= h;
    assert(s0 * bpr <= e0 * bpr) by (nonlinear_arith) requires s0 <= e0;
    assert(th * bpr == e0 * bpr - s0 * bpr) by (nonlinear_arith) requires th == e0 - s0;
    assert(th * bpr <= max_tile_rows(h, tr) * bpr) by (nonlinear_arith) requires th <= max_tile_rows(h, tr);
    assert(t.len() == th * bpr);
    assert(f.use_filter && !f.use_byte_shuffle ==> has_best_code(t, th, bpr as int, bpp as int, f.heuristic, f.level));
    assert(bpr <= max_tile_rows(h, tr) * bpr) by (nonlinear_arith) requires max_tile_rows(h, tr) >= 1;
    assert(bpr <= usize::MAX / 4);
    assert(h * bpr == bpr * h) by (nonlinear_arith);
    lemma_tile_decodes(v, t, th, bpr, bpp, w, f);
    assert(p.len() <= th * bpr + 1);
    assert(data.len() <= p.len());
    assert(v.decompressed_total + p.len() <= rows_done(k + 1, tr, h) * (bpr + 1)) by {
        assert(s0 * (bpr + 1) + th * bpr + 1 <= e0 * (bpr + 1)) by (nonlinear_arith)
            requires e0 == s0 + th, th >= 1;
    }
    assert(rows_done(k + 1, tr, h) * (bpr + 1) <= h * (bpr + 1)) by (nonlinear_arith)
        requires rows_done(k + 1, tr, h) <= h;
    assert(v.pixel_rows.len() + t.len() <= bpr * h) by {
        assert(s0 * bpr + th * bpr == e0 * bpr);
    }
    assert(unpacks_to(flag, data, p));
    assert(compress_with_fallback_dict_spec(p, f.level, None) == Ok::<(u8, Seq<u8>, bool), CafeError>((flag, data, false)));
    lemma_idat_decodes(v, t, th, bpp, f, flag, data);
    let v2 = after_tile(v, t, p.len(), data.len());
    assert(v2.pixel_rows =~= raw.take((rows_done(k + 1, tr, h) * bpr) as int));
}

/// The block has a best filter code.
pub open spec fn has_best_code(t: Seq<u8>, h: nat, bpr: int, bpp: int, heuristic: FilterHeuristic, level: i32) -> bool {
    exists|c: u8| is_best_code(t, h, bpr, bpp, heuristic, level, c)
}

/// Every row tile that the block filter takes has a best filter code.
pub open spec fn tiles_have_best_code(raw: Seq<u8>, h: nat, tr: nat, bpr: nat, bpp: nat, f: TileFilter) -> bool {
    f.use_filter && !f.use_byte_shuffle ==> forall|j: nat| j < row_tile_count(h, tr)
        ==> has_best_code(#[trigger] row_tile_raw(raw, h, tr, bpr, j), (tile_end(j, tr, h) - tile_start(j, tr)) as nat,
            bpr as int, bpp as int, f.heuristic, f.level)
}

/// Walking the `IDAT`s of row tiles `k..n` and then `IEND` appends the
/// rows of those tiles to what the decoder holds.
#[verifier::spinoff_prover]
proof fn lemma_walk_tiles(file: Seq<u8>, pre: Seq<u8>, raw: Seq<u8>, h: nat, tr: nat, bpr: nat, bpp: nat, w: u32, f: TileFilter, k: nat, v: DecView)
    requires
        file == pre + idats_of(raw, h, tr, bpr, bpp, w, f, row_tile_count(h, tr)) + iend_chunk(),
        header_for_tiles(v, h, tr, bpr, bpp, w, f),
        raw.len() >= h * bpr,
        k <= row_tile_count(h, tr),
        row_tile_idats(raw, h, tr, bpr, bpp, w, f, None, row_tile_count(h, tr)) is Ok,
        row_tiles_unpack(raw, h, tr, bpr, bpp, w, f, row_tile_count(h, tr)),
        tiles_have_best_code(raw, h, tr, bpr, bpp, f),
        v.pixel_rows == raw.take((rows_done(k, tr, h) * bpr) as int),
        v.decompressed_total <= rows_done(k, tr, h) * (bpr + 1),
    ensures
        walk(file, pre.len() + idats_of(raw, h, tr, bpr, bpp, w, f, k).len(), v) matches Ok(v2)
            && v2.header == v.header
            && v2.pixel_rows == raw.take((h * bpr) as int)
            && same_meta(v2, v),
    decreases row_tile_count(h, tr) - k,
{
    let n = row_tile_count(h, tr);
    let all = idats_of(raw, h, tr, bpr, bpp, w, f, n);
    lemma_tile_count(h, tr);
    lemma_valid_types();
    if k == n {
        assert(file =~= (pre + all) + iend_chunk() + Seq::<u8>::empty());
        lemma_read_at(pre + all, CHUNK_IEND@, FLAG_RAW, Seq::empty(), Seq::empty());
        lemma_walk_end(file, pre.len() + all.len(), v);
        assert(tile_start(n, tr) >= h);
        assert(rows_done(k, tr, h) == h);
    } else {
        lemma_row_tile_idats_step(raw, h, tr, bpr, bpp, w, f, k, n);
        let a = idats_of(raw, h, tr, bpr, bpp, w, f, k);
        let a1 = idats_of(raw, h, tr, bpr, bpp, w, f, k + 1);
        let (p, (flag, data, used)) = tile_packed(raw, h, tr, bpr, bpp, w, f, k);
        let c = chunk_bytes(CHUNK_IDAT@, flag, data);
        let rest = all.skip(a1.len() as int) + iend_chunk();
        assert(file =~= (pre + a) + c + rest) by {
            assert(all =~= a1 + all.skip(a1.len() as int));
        }
        assert(row_tile_payload(raw, h, tr, bpr, bpp, w, f, k) matches Ok(q) ==> idat_unpacks(q, f.level));
        lemma_tile_step(raw, h, tr, bpr, bpp, w, f, k, v);
        let v2 = after_tile(v, row_tile_raw(raw, h, tr, bpr, k), p.len(), data.len());
        lemma_read_at(pre + a, CHUNK_IDAT@, flag, data, rest);
        lemma_walk_step(file, pre.len() + a.len(), v, CHUNK_IDAT@, flag, data, pre.len() + a.len() + 13 + data.len());
        lemma_walk_tiles(file, pre, raw, h, tr, bpr, bpp, w, f, k + 1, v2);
    }
}

/// For a direct-color image the rows the encoder lays out are the rows the
/// `IHDR` tells the decoder to expect.
proof fn lemma_direct_rows(w: u32, ct: u8, bd: u8, bpp: usize, bpr: nat)
    requires
        w > 0,
        ct != COLOR_TYPE_INDEXED,
        bytes_per_pixel_spec(ct, bd) == Some(bpp),
        direct_row_bytes(w, ct, bd, bpp) == Some(bpr),
    ensures
        ihdr_row_bytes(ct, bd, w, 0) == Some(bpr as usize),
        bpr > 0,
        1 <= bpp <= 16,
        bpp >= 2 ==> bpr == w * bpp,
{
    if bd < 8 && (ct == COLOR_TYPE_GRAY || ct == COLOR_TYPE_GRAY_ALPHA) {
        let ch: nat = if ct == COLOR_TYPE_GRAY { 1 } else { 2 };
        assert(w * ch * bd >= 1) by (nonlinear_arith) requires w >= 1, ch >= 1, bd >= 1;
        assert(bpr == row_bytes((w * ch) as nat, bd as nat));
        assert(bpr <= w * ch * bd) by {
            assert((w * ch * bd + 7) / 8 <= w * ch * bd);
        }
        if ct == COLOR_TYPE_GRAY {
            assert((w * ch) as nat == w as nat);
            assert(ihdr_row_bytes(ct, bd, w, 0) == Some(bpr as usize));
        } else {
            assert((w * ch) as nat == (2 * w) as nat);
            assert(ihdr_row_bytes(ct, bd, w, 0) == Some(bpr as usize));
        }
    } else {
        assert(bpr == w * bpp);
        assert(w * bpp >= 1) by (nonlinear_arith) requires w >= 1, bpp >= 1;
        assert(((w * bpp) as usize) as nat == w * bpp);
        if ct == COLOR_TYPE_GRAY {
            if bd == 8 {
                assert(w * bpp == w * 1);
            }
            assert(ihdr_row_bytes(ct, bd, w, 0) == Some(bpr as usize));
        } else if ct == COLOR_TYPE_RGB {
            assert(ihdr_row_bytes(ct, bd, w, 0) == Some(bpr as usize));
        } else if ct == COLOR_TYPE_GRAY_ALPHA {
            assert(ihdr_row_bytes(ct, bd, w, 0) == Some(bpr as usize));
        } else {
            assert(ihdr_row_bytes(ct, bd, w, 0) == Some(bpr as usize));
        }
    }
}

/// The conditions under which a file written by `encode_raw` decodes back
/// to the samples it was given: a non-empty direct-color image in a sample
/// format the decoder reads; row tiles or interlace passes (the options
/// admit interlacing of 8-bit RGBA only); no 2D tiles or dictionary;
/// metadata the decoder reads back; every tile's payload within the 1 GiB
/// chunk ceiling, and the decoder's byte count within 64 bits.
pub open spec fn raw_roundtrip(w: u32, h: u32, ct: u8, bd: u8, sf: u8, o: EncodeOptions) -> bool {
    let il = o.interlace_method;
    &&& w > 0 && h > 0
    &&& ct != COLOR_TYPE_INDEXED
    &&& (sf == SAMPLE_FORMAT_UINT || (sf == SAMPLE_FORMAT_FLOAT && bd == 32) || (sf == SAMPLE_FORMAT_HALF && bd == 16))
    &&& (il == INTERLACE_NONE || il == INTERLACE_ADAM7 || il == INTERLACE_EVEN_ODD)
    &&& o.idim is None
    &&& o.zstd_dictionary is None
    &&& !o.auto_dictionary
    &&& meta_fits(o)
    &&& o.tile_rows > 0
    &&& encode_layout(w, ct, bd, sf, o) matches Ok((_, bpr)) && if is_interlaced(il) {
        w * h * 4 + (if il == INTERLACE_ADAM7 { 7int } else { 2int }) <= u64::MAX
    } else {
        &&& max_tile_rows(h as nat, o.tile_rows as nat) * bpr + 1 <= MAX_DECOMPRESSED_CHUNK_SIZE
        &&& h * (bpr + 1) <= u64::MAX
    }
}

/// Some candidate filter of the block has a score.
pub open spec fn has_score(t: Seq<u8>, h: nat, bpr: int, bpp: int, heuristic: FilterHeuristic, level: i32) -> bool {
    exists|g: u8| g < NUM_FILTERS && (#[trigger] block_score(t, h, bpr, bpp, heuristic, level, g)) is Some
}

/// What the stored samples must satisfy for the image data to decode:
/// each interlace pass's payload within the 1 GiB chunk ceiling; for row
/// tiles under the compression test, a candidate filter of each tile that
/// Zstandard compresses (under the residual sum every candidate has a
/// score).
pub open spec fn idat_payloads_ok(raw: Seq<u8>, w: u32, h: u32, ct: u8, bd: u8, sf: u8, o: EncodeOptions) -> bool {
    let (bpp, bpr) = encode_layout(w, ct, bd, sf, o)->Ok_0;
    let tr = o.tile_rows as nat;
    let il = o.interlace_method;
    if is_interlaced(il) {
        let passes = interlace_passes(il, raw, w, h);
        forall|q: int| 0 <= q < passes.len() ==> (#[trigger] pass_payload(passes, q)).len() <= MAX_DECOMPRESSED_CHUNK_SIZE
    } else {
        o.use_filter && !o.use_byte_shuffle && o.filter_heuristic == FilterHeuristic::CompressionTest
            ==> forall|j: nat| j < row_tile_count(h as nat, tr)
                ==> has_score(#[trigger] row_tile_raw(raw, h as nat, tr, bpr, j), (tile_end(j, tr, h as nat) - tile_start(j, tr)) as nat,
                    bpr as int, bpp as int, o.filter_heuristic, o.level)
    }
}

/// The `IDAT` bytes `encode_raw` writes without a dictionary: those of the
/// interlace passes, or of the row tiles.
pub open spec fn idat_bytes(raw: Seq<u8>, w: u32, h: u32, bpr: nat, bpp: nat, o: EncodeOptions) -> Seq<u8> {
    let il = o.interlace_method;
    if is_interlaced(il) {
        let passes = interlace_passes(il, raw, w, h);
        pass_idats_of(passes, o.level, passes.len())
    } else {
        idats_of(raw, h as nat, o.tile_rows as nat, bpr, bpp, w, tile_filter_of(o), row_tile_count(h as nat, o.tile_rows as nat))
    }
}

/// Without 2D tiles or dictionary, the file is the signature, `IHDR`, the
/// metadata chunks, the `IDAT`s and `IEND`.
proof fn lemma_plain_file(raw: Seq<u8>, w: u32, h: u32, ct: u8, bd: u8, sf: u8, o: EncodeOptions, file: Seq<u8>) -> (cm: u8)
    requires
        encode_raw_spec(raw, w, h, ct, bd, sf, o) == Ok::<Seq<u8>, CafeError>(file),
        raw_roundtrip(w, h, ct, bd, sf, o),
    ensures ({
        let (bpp, bpr) = encode_layout(w, ct, bd, sf, o)->Ok_0;
        let il = o.interlace_method;
        &&& cm == 0 || cm == COMPRESSION_METHOD_ZSTD_BIT
        &&& raw.len() >= h * bpr
        &&& is_interlaced(il) ==> pass_idats(interlace_passes(il, raw, w, h), o.level, None, interlace_passes(il, raw, w, h).len()) is Ok
        &&& !is_interlaced(il) ==> row_tile_idats(raw, h as nat, o.tile_rows as nat, bpr, bpp as nat, w, tile_filter_of(o), None,
            row_tile_count(h as nat, o.tile_rows as nat)) is Ok
        &&& header_chunks(o) is Ok
        &&& file == SIGNATURE@ + ihdr_chunk_spec(w, h, bd, sf, ct, cm, filter_method_of(o), il)
            + run_bytes(header_items(o)) + idat_bytes(raw, w, h, bpr, bpp as nat, o) + iend_chunk()
    }),
{
    let (bpp, bpr) = encode_layout(w, ct, bd, sf, o)->Ok_0;
    reveal(assemble_spec);
    reveal(header_chunks);
    reveal(final_dict_spec);
    reveal(idats_and_zdic);
    let hc = header_chunks(o)->Ok_0;
    lemma_header_run(o);
    let (idat, iz, emit) = idats_and_zdic(raw, w, h, bd, bpr, bpp as nat, o, None)->Ok_0;
    let zc = zdic_part(emit, None, o.level)->Ok_0;
    assert(zc.0 =~= Seq::<u8>::empty());
    let cm: u8 = if hc.1 || iz || zc.1 { COMPRESSION_METHOD_ZSTD_BIT } else { 0 };
    assert(file =~= SIGNATURE@ + ihdr_chunk_spec(w, h, bd, sf, ct, cm, filter_method_of(o), o.interlace_method)
        + run_bytes(header_items(o)) + idat_bytes(raw, w, h, bpr, bpp as nat, o) + iend_chunk());
    cm
}

/// What decoding makes of the stored rows `rows` of a direct-color image:
/// floating-point samples as stored, integer samples as 8-bit RGBA.
pub open spec fn direct_pixels(rows: Seq<u8>, w: u32, h: u32, ct: u8, bd: u8, sf: u8) -> Result<Seq<u8>, CafeError> {
    if sf == SAMPLE_FORMAT_FLOAT || sf == SAMPLE_FORMAT_HALF {
        Ok(rows)
    } else {
        match bytes_per_pixel_spec(ct, bd) {
            None => Err(CafeError::UnsupportedFeature("color type and bit depth not supported together", None)),
            Some(_) => match color_type_to_rgba_spec(rows, w as nat, h as nat, ct, bd) {
                Err(e) => Err(e),
                Ok(px) => sized_rgba(px, w, h),
            },
        }
    }
}

/// The decoder reports a `w` x `h` image of color type `ct`, bit depth
/// `bd` and sample format `sf`.
pub open spec fn reports_image(v: DecView, w: u32, h: u32, ct: u8, bd: u8, sf: u8) -> bool {
    &&& v.header.width == Some(w)
    &&& v.header.height == Some(h)
    &&& v.header.color_type == ct
    &&& v.header.bit_depth == bd
    &&& v.header.sample_format == sf
}

/// Decoding `buf` gives what `direct_pixels` makes of `rows` (and reports
/// the image), or fails as it does.
pub open spec fn decodes_to(buf: Seq<u8>, rows: Seq<u8>, w: u32, h: u32, ct: u8, bd: u8, sf: u8) -> bool {
    match direct_pixels(rows, w, h, ct, bd, sf) {
        Ok(px) => decode_spec(buf) matches Ok((px2, v)) && px2 == px && reports_image(v, w, h, ct, bd, sf),
        Err(e) => decode_spec(buf) == Err::<(Seq<u8>, DecView), CafeError>(e),
    }
}

/// The rows of samples `encode_raw` stores from `raw`.
pub open spec fn stored_rows(raw: Seq<u8>, w: u32, h: u32, ct: u8, bd: u8, sf: u8, o: EncodeOptions) -> Seq<u8> {
    raw.take((h * encode_layout(w, ct, bd, sf, o)->Ok_0.1) as int)
}

/// The decoder reads the start of such a file, its `IHDR` and metadata
/// chunks, into a state that reports the image and the metadata and holds
/// no image data yet.
#[verifier::spinoff_prover]
#[verifier::rlimit(40)]
proof fn lemma_file_start(raw: Seq<u8>, w: u32, h: u32, ct: u8, bd: u8, sf: u8, o: EncodeOptions, file: Seq<u8>, cm: u8)
    -> (v1: DecView)
    requires
        raw_roundtrip(w, h, ct, bd, sf, o),
        header_packs_back(o),
        header_chunks(o) is Ok,
        cm == 0 || cm == COMPRESSION_METHOD_ZSTD_BIT,
        o.interlace_method == INTERLACE_NONE || !(o.use_byte_shuffle || (o.use_filter && o.use_filter_per_row)),
        file == SIGNATURE@ + ihdr_chunk_spec(w, h, bd, sf, ct, cm, filter_method_of(o), o.interlace_method)
            + run_bytes(header_items(o)) + idat_bytes(raw, w, h, encode_layout(w, ct, bd, sf, o)->Ok_0.1,
                encode_layout(w, ct, bd, sf, o)->Ok_0.0 as nat, o) + iend_chunk(),
    ensures ({
        let (bpp, bpr) = encode_layout(w, ct, bd, sf, o)->Ok_0;
        let il = o.interlace_method;
        let hd = v1.header;
        &&& walk(file, 9, initial_view()) == walk(file, 36 + run_bytes(header_items(o)).len(), v1)
        &&& hd.width == Some(w) && hd.height == Some(h)
        &&& hd.color_type == ct && hd.bit_depth == bd && hd.sample_format == sf
        &&& hd.interlace_method_read == il
        &&& hd.filter_method == filter_method_of(o)
        &&& hd.bytes_per_row == bpr
        &&& hd.decompress_budget == Some(decompress_budget_spec(il, ct, w, h, bpr as usize))
        &&& meta_reported(v1, o)
        &&& v1.pixel_rows.len() == 0
        &&& v1.decompressed_total == 0
        &&& v1.zstd_dictionary is None
        &&& v1.idim is None
        &&& v1.adam7_passes == initial_view().adam7_passes
        &&& v1.even_odd_passes == initial_view().even_odd_passes
        &&& file.subrange(0, 9) == SIGNATURE@
    }),
{
    let (bpp, bpr) = encode_layout(w, ct, bd, sf, o)->Ok_0;
    let il = o.interlace_method;
    let fm = filter_method_of(o);
    lemma_direct_rows(w, ct, bd, bpp, bpr);
    assert(cm & !COMPRESSION_METHOD_ZSTD_BIT == 0) by (bit_vector)
        requires cm == 0 || cm == COMPRESSION_METHOD_ZSTD_BIT;
    lemma_ihdr_roundtrip(w, h, bd, sf, ct, cm, fm, il);
    let payload = ihdr_payload_spec(w, h, bd, sf, ct, cm, fm, il);
    let st = ihdr_step(initial_decode_state(), payload).1;
    let v0 = DecView { header: st, ..initial_view() };
    assert(chunk_step(initial_view(), CHUNK_IHDR@, FLAG_RAW, payload) == Ok::<DecView, CafeError>(v0)) by {
        reveal(chunk_step);
    }
    let idats = idat_bytes(raw, w, h, bpr, bpp as nat, o);
    let items = header_items(o);
    let hc = run_bytes(items);
    let pre0 = SIGNATURE@ + ihdr_chunk_spec(w, h, bd, sf, ct, cm, fm, il);
    lemma_valid_types();
    assert(payload.len() == 14);
    lemma_read_at(SIGNATURE@, CHUNK_IHDR@, FLAG_RAW, payload, hc + idats + iend_chunk());
    assert(file =~= SIGNATURE@ + chunk_bytes(CHUNK_IHDR@, FLAG_RAW, payload) + (hc + idats + iend_chunk()));
    lemma_walk_step(file, 9, initial_view(), CHUNK_IHDR@, FLAG_RAW, payload, 36);
    lemma_header_items_ok(o);
    assert(file =~= pre0 + run_bytes(items) + (idats + iend_chunk()));
    lemma_walk_run(file, pre0, items, idats + iend_chunk(), v0);
    lemma_meta_run(v0, items);
    lemma_header_items_content(v0, o);
    assert(pre0.len() == 36);
    assert(file.subrange(0, 9) =~= SIGNATURE@);
    run_steps(v0, items)->Ok_0
}

/// The image data of a file written with row tiles, read after the start.
#[verifier::spinoff_prover]
#[verifier::rlimit(40)]
proof fn lemma_rows_decode(raw: Seq<u8>, w: u32, h: u32, ct: u8, bd: u8, sf: u8, o: EncodeOptions, file: Seq<u8>, v1: DecView)
    requires
        raw_roundtrip(w, h, ct, bd, sf, o),
        idat_payloads_ok(raw, w, h, ct, bd, sf, o),
        !is_interlaced(o.interlace_method),
        raw.len() <= usize::MAX,
        raw.len() >= h * encode_layout(w, ct, bd, sf, o)->Ok_0.1,
        idats_unpack(raw, w, h, encode_layout(w, ct, bd, sf, o)->Ok_0.1, encode_layout(w, ct, bd, sf, o)->Ok_0.0 as nat, o),
        row_tile_idats(raw, h as nat, o.tile_rows as nat, encode_layout(w, ct, bd, sf, o)->Ok_0.1,
            encode_layout(w, ct, bd, sf, o)->Ok_0.0 as nat, w, tile_filter_of(o), None, row_tile_count(h as nat, o.tile_rows as nat)) is Ok,
        ({
            let (bpp, bpr) = encode_layout(w, ct, bd, sf, o)->Ok_0;
            let hd = v1.header;
            &&& hd.width == Some(w) && hd.height == Some(h)
            &&& hd.color_type == ct && hd.bit_depth == bd
            &&& hd.interlace_method_read == INTERLACE_NONE
            &&& hd.filter_method == filter_method_of(o)
            &&& hd.bytes_per_row == bpr
            &&& hd.decompress_budget == Some(decompress_budget_spec(INTERLACE_NONE, ct, w, h, bpr as usize))
            &&& v1.pixel_rows.len() == 0
            &&& v1.decompressed_total == 0
            &&& v1.zstd_dictionary is None
            &&& v1.idim is None
        }),
        file.len() >= 0,
    ensures ({
        let (bpp, bpr) = encode_layout(w, ct, bd, sf, o)->Ok_0;
        let pre_len = file.len() - idat_bytes(raw, w, h, bpr, bpp as nat, o).len() - iend_chunk().len();
        file == file.take(pre_len) + idat_bytes(raw, w, h, bpr, bpp as nat, o) + iend_chunk()
            ==> (walk(file, pre_len as nat, v1) matches Ok(v2)
                && v2.header == v1.header && v2.pixel_rows == raw.take((h * bpr) as int) && same_meta(v2, v1))
    }),
{
    let (bpp, bpr) = encode_layout(w, ct, bd, sf, o)->Ok_0;
    let tr = o.tile_rows as nat;
    let f = tile_filter_of(o);
    let n = row_tile_count(h as nat, tr);
    let idats = idat_bytes(raw, w, h, bpr, bpp as nat, o);
    let pre_len = file.len() - idats.len() - iend_chunk().len();
    if file == file.take(pre_len) + idats + iend_chunk() {
        let pre = file.take(pre_len);
        lemma_direct_rows(w, ct, bd, bpp, bpr);
        lemma_tile_count(h as nat, tr);
        assert(tile_start(0, tr) == 0);
        lemma_row_tile_idats_step(raw, h as nat, tr, bpr, bpp as nat, w, f, 0, n);
        assert(filter_method_of(o) == tile_filter_method(f));
        assert(h * bpr <= usize::MAX);
        assert(h * (bpr + 1) == bpr * h + h) by (nonlinear_arith);
        assert(header_for_tiles(v1, h as nat, tr, bpr, bpp as nat, w, f));
        assert(v1.pixel_rows =~= raw.take((rows_done(0, tr, h as nat) * bpr) as int));
        assert(row_tile_idats(raw, h as nat, tr, bpr, bpp as nat, w, f, None, 0) == Ok::<(Seq<u8>, bool, bool), CafeError>((Seq::empty(), false, false)));
        assert(tiles_have_best_code(raw, h as nat, tr, bpr, bpp as nat, f)) by {
            if f.use_filter && !f.use_byte_shuffle {
                assert forall|j: nat| j < n implies has_best_code(#[trigger] row_tile_raw(raw, h as nat, tr, bpr, j),
                    (tile_end(j, tr, h as nat) - tile_start(j, tr)) as nat, bpr as int, bpp as int, f.heuristic, f.level) by {
                    let t = row_tile_raw(raw, h as nat, tr, bpr, j);
                    let th = (tile_end(j, tr, h as nat) - tile_start(j, tr)) as nat;
                    if f.heuristic == FilterHeuristic::Msad {
                        lemma_msad_best_exists(t, th, bpr as int, bpp as int, f.level);
                    } else {
                        assert(has_score(t, th, bpr as int, bpp as int, f.heuristic, f.level));
                        let g = choose|g: u8| g < NUM_FILTERS && (#[trigger] block_score(t, th, bpr as int, bpp as int, f.heuristic, f.level, g)) is Some;
                        lemma_best_code_exists(t, th, bpr as int, bpp as int, f.heuristic, f.level, g);
                    }
                }
            }
        }
        lemma_walk_tiles(file, pre, raw, h as nat, tr, bpr, bpp as nat, w, f, 0, v1);
    }
}

/// The image data of a file written with interlace passes, read after the
/// start, rebuilds the image's bytes.
#[verifier::spinoff_prover]
#[verifier::rlimit(40)]
proof fn lemma_passes_decode(raw: Seq<u8>, w: u32, h: u32, ct: u8, bd: u8, sf: u8, o: EncodeOptions, file: Seq<u8>, v1: DecView)
    requires
        raw_roundtrip(w, h, ct, bd, sf, o),
        idat_payloads_ok(raw, w, h, ct, bd, sf, o),
        is_interlaced(o.interlace_method),
        ct == COLOR_TYPE_RGBA,
        raw.len() <= usize::MAX,
        raw.len() >= h * encode_layout(w, ct, bd, sf, o)->Ok_0.1,
        idats_unpack(raw, w, h, encode_layout(w, ct, bd, sf, o)->Ok_0.1, encode_layout(w, ct, bd, sf, o)->Ok_0.0 as nat, o),
        pass_idats(interlace_passes(o.interlace_method, raw, w, h), o.level, None, interlace_passes(o.interlace_method, raw, w, h).len()) is Ok,
        ({
            let (bpp, bpr) = encode_layout(w, ct, bd, sf, o)->Ok_0;
            let hd = v1.header;
            &&& hd.interlace_method_read == o.interlace_method
            &&& hd.decompress_budget == Some(decompress_budget_spec(o.interlace_method, ct, w, h, bpr as usize))
            &&& v1.decompressed_total == 0
            &&& v1.zstd_dictionary is None
            &&& v1.idim is None
            &&& v1.adam7_passes == initial_view().adam7_passes
            &&& v1.even_odd_passes == initial_view().even_odd_passes
        }),
    ensures ({
        let (bpp, bpr) = encode_layout(w, ct, bd, sf, o)->Ok_0;
        let il = o.interlace_method;
        let pre_len = file.len() - idat_bytes(raw, w, h, bpr, bpp as nat, o).len() - iend_chunk().len();
        file == file.take(pre_len) + idat_bytes(raw, w, h, bpr, bpp as nat, o) + iend_chunk()
            ==> (walk(file, pre_len as nat, v1) matches Ok(v2)
                && v2.header == v1.header && v2.pixel_rows == v1.pixel_rows && same_meta(v2, v1)
                && (il == INTERLACE_ADAM7
                    ==> reconstruct_adam7_spec(v2.adam7_passes, w as nat, h as nat) == Ok::<Seq<u8>, CafeError>(raw.take((h * bpr) as int)))
                && (il == INTERLACE_EVEN_ODD
                    ==> reconstruct_even_odd_spec(v2.even_odd_passes[0], v2.even_odd_passes[1], w as nat, h as nat)
                        == Ok::<Seq<u8>, CafeError>(raw.take((h * bpr) as int))))
    }),
{
    let (bpp, bpr) = encode_layout(w, ct, bd, sf, o)->Ok_0;
    let il = o.interlace_method;
    let passes = interlace_passes(il, raw, w, h);
    let idats = idat_bytes(raw, w, h, bpr, bpp as nat, o);
    let pre_len = file.len() - idats.len() - iend_chunk().len();
    if file == file.take(pre_len) + idats + iend_chunk() {
        let pre = file.take(pre_len);
        assert(bpr == w * 4);
        assert(h * (w * 4) == w * h * 4) by (nonlinear_arith);
        let raw2 = raw.take(w * h * 4);
        lemma_passes_take(il, raw, w, h);
        assert(w * h > 0) by (nonlinear_arith) requires w > 0, h > 0;
        lemma_passes_rebuild(il, raw2, w, h);
        let b = decompress_budget_spec(il, ct, w, h, bpr as usize);
        assert(b >= pass_total(passes, passes.len()));
        assert(v1.adam7_passes =~= passes_after(passes, 7, 0));
        assert(v1.even_odd_passes =~= passes_after(passes, 2, 0));
        assert(header_for_passes(v1, il, passes));
        lemma_walk_passes(file, pre, il, passes, o.level, 0, v1);
        let v2 = walk(file, pre.len(), v1)->Ok_0;
        if il == INTERLACE_ADAM7 {
            assert(v2.adam7_passes =~= passes);
        } else {
            assert(v2.even_odd_passes =~= passes);
        }
    }
}

/// A file `encode_raw` writes under `raw_roundtrip` decodes to its stored
/// rows and reports its metadata, given that each `IDAT` decompresses to
/// its payload and each metadata payload to itself.
#[verifier::spinoff_prover]
#[verifier::rlimit(40)]
pub(crate) proof fn lemma_encode_raw_decodes(raw: Seq<u8>, w: u32, h: u32, ct: u8, bd: u8, sf: u8, o: EncodeOptions, file: Seq<u8>)
    requires
        encode_raw_spec(raw, w, h, ct, bd, sf, o) == Ok::<Seq<u8>, CafeError>(file),
        raw_roundtrip(w, h, ct, bd, sf, o),
        idat_payloads_ok(raw, w, h, ct, bd, sf, o),
        header_packs_back(o),
        raw.len() <= usize::MAX,
        idats_unpack(raw, w, h, encode_layout(w, ct, bd, sf, o)->Ok_0.1, encode_layout(w, ct, bd, sf, o)->Ok_0.0 as nat, o),
    ensures
        decodes_to(file, stored_rows(raw, w, h, ct, bd, sf, o), w, h, ct, bd, sf),
        decode_spec(file) matches Ok((_, v)) ==> meta_reported(v, o),
{
    let (bpp, bpr) = encode_layout(w, ct, bd, sf, o)->Ok_0;
    let il = o.interlace_method;
    let cm = lemma_plain_file(raw, w, h, ct, bd, sf, o, file);
    let v1 = lemma_file_start(raw, w, h, ct, bd, sf, o, file, cm);
    let idats = idat_bytes(raw, w, h, bpr, bpp as nat, o);
    let pre_len = 36 + run_bytes(header_items(o)).len();
    assert(file.len() - idats.len() - iend_chunk().len() == pre_len);
    assert(file =~= file.take(pre_len as int) + idats + iend_chunk());
    if is_interlaced(il) {
        lemma_passes_decode(raw, w, h, ct, bd, sf, o, file, v1);
    } else {
        lemma_rows_decode(raw, w, h, ct, bd, sf, o, file, v1);
    }
}

/// Stored as 8-bit RGBA with unsigned samples, the pixels of a `w` x `h`
/// image come back from the decoder as they were.
pub proof fn lemma_rgba8_pixels(rgba: Seq<u8>, w: u32, h: u32, o: EncodeOptions)
    requires
        w > 0,
        h > 0,
        rgba.len() == w * h * 4,
        rgba.len() <= usize::MAX,
        encode_layout(w, COLOR_TYPE_RGBA, 8, SAMPLE_FORMAT_UINT, o) is Ok,
    ensures
        stored_rows(rgba, w, h, COLOR_TYPE_RGBA, 8, SAMPLE_FORMAT_UINT, o) == rgba,
        direct_pixels(rgba, w, h, COLOR_TYPE_RGBA, 8, SAMPLE_FORMAT_UINT) == Ok::<Seq<u8>, CafeError>(rgba),
{
    let bpr = encode_layout(w, COLOR_TYPE_RGBA, 8, SAMPLE_FORMAT_UINT, o)->Ok_0.1;
    assert(bpr == w * 4);
    assert(h * (w * 4) == w * h * 4) by (nonlinear_arith);
    assert(rgba.take(rgba.len() as int) =~= rgba);
    assert(w * h <= w * h * 4) by (nonlinear_arith);
    assert(((w * h * 4) as u64) as usize == rgba.len());
}

} // verus!
