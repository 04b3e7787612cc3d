//! Encoding: building a CAFE file from converted samples (or from RGBA
//! pixels), chunk by chunk.

use vstd::prelude::*;

use crate::bytes::append_bytes;
use crate::chunk::{chunk_body, chunk_bytes, chunk_crc, compute_chunk_crc, write_chunk};
use crate::codec::{compress_with_fallback, compress_with_fallback_spec, packs_back};
use crate::color::{be32_bytes, push_be32};
use crate::constants::{CHUNK_EXIF, CHUNK_ICCP, CHUNK_IHDR, CHUNK_JSON, CHUNK_XMPD, CHUNK_ZDIC, FLAG_RAW, FLAG_ZSTD, SIGNATURE};
use crate::error::CafeError;
use crate::header::{build_ihdr_payload, ihdr_payload_spec};
use crate::codec::{compress_with_fallback_dict, compress_with_fallback_dict_spec, opt_bytes, unpacks_to};
use crate::constants::{CHUNK_IDAT, INTERLACE_ADAM7, INTERLACE_EVEN_ODD};
use crate::filter::FilterHeuristic;
use crate::filter_choice::{best_filtered_block, filter_block_best};
use crate::interlace::{adam7_pass_spec, apply_adam7_interlace, apply_even_odd_interlace, even_odd_pass_spec};
use crate::shuffle::{apply_byte_shuffle, shuffle_result};
use crate::ancillary::{iDim, tile_extent, write_chdr_chunk, write_idim_chunk, chdr_payload, idim_payload, ChdrFields};
use crate::color::{bytes_per_pixel, bytes_per_pixel_spec, bytes_per_pixel_with_format, container_depth};
use crate::constants::{
    CHUNK_CHDR, CHUNK_IDIM, CHUNK_IEND, COLOR_TYPE_RGBA, COMPRESSION_METHOD_ZSTD_BIT, DEFAULT_TILE_ROWS, FILTER_METHOD_BYTE_SHUFFLE,
    FILTER_METHOD_NONE, FILTER_METHOD_PREDICTIVE, FILTER_METHOD_PREDICTIVE_PER_ROW, INTERLACE_NONE, SAMPLE_FORMAT_UINT, ZSTD_LEVEL,
};
use crate::header::{bytes_per_row_for_direct_color, direct_row_bytes};
use crate::indexed::PaletteAlgorithm;
use crate::zorder::tile_order_spec;
use crate::roundtrip::{decodes_to, lemma_encode_raw_decodes, raw_roundtrip, stored_rows, idat_payloads_ok};
use crate::meta_roundtrip::meta_reported;
use crate::decode::decode_spec;

verus! {

// ---------------------------------------------------------------------------
// Chunks
// ---------------------------------------------------------------------------

/// A whole chunk whose flag byte says Zstandard.
pub open spec fn chunk_is_zstd(chunk: Seq<u8>) -> bool {
    chunk.len() >= 9 && chunk[8] == FLAG_ZSTD
}

/// Whether a chunk as written (`Length | Type | Flag | ...`) was compressed.
pub fn chunk_uses_zstd(chunk: &[u8]) -> (r: bool)
    ensures r == chunk_is_zstd(chunk@),
{
    chunk.len() >= 9 && chunk[8] == FLAG_ZSTD
}

proof fn lemma_chunk_flag(t: Seq<u8>, flag: u8, data: Seq<u8>)
    requires t.len() == 4,
    ensures
        chunk_bytes(t, flag, data).len() == 13 + data.len(),
        chunk_bytes(t, flag, data)[8] == flag,
        chunk_is_zstd(chunk_bytes(t, flag, data)) == (flag == FLAG_ZSTD),
{
}

/// A chunk of type `t` holding `payload`, compressed when that is smaller.
pub open spec fn packed_chunk(t: Seq<u8>, payload: Seq<u8>, level: i32) -> Result<Seq<u8>, CafeError> {
    match compress_with_fallback_spec(payload, level) {
        Err(e) => Err(e),
        Ok((flag, data)) => Ok(chunk_bytes(t, flag, data)),
    }
}

/// Writes a chunk of type `t` holding `payload`, compressed when that is
/// smaller.
pub fn write_packed_chunk(t: &[u8; 4], payload: &[u8], level: i32) -> (r: Result<Vec<u8>, CafeError>)
    ensures
        match packed_chunk(t@, payload@, level) {
            Ok(c) => r matches Ok(v) && v@ == c,
            Err(e) => r == Err::<Vec<u8>, CafeError>(e),
        },
        packs_back(payload@, level),
{
    match compress_with_fallback(payload, level) {
        Ok((flag, data)) => Ok(write_chunk(t, flag, data.as_slice())),
        Err(e) => Err(e),
    }
}

/// The `jSON` payload: namespace length, namespace, JSON text.
pub open spec fn json_payload(ns: Seq<u8>, text: Seq<u8>) -> Seq<u8> {
    seq![ns.len() as u8] + ns + text
}

/// A `jSON` chunk; the namespace is at most 255 bytes.
pub open spec fn json_chunk(ns: Seq<u8>, text: Seq<u8>, level: i32) -> Result<Seq<u8>, CafeError> {
    if ns.len() > 255 { Err(CafeError::UnsupportedFeature("jSON namespace longer than 255 bytes", None)) } else { packed_chunk(CHUNK_JSON@, json_payload(ns, text), level) }
}

/// Writes a `jSON` chunk for `namespace` holding the JSON text `text`.
pub fn write_json_chunk(namespace: &[u8], text: &[u8], level: i32) -> (r: Result<Vec<u8>, CafeError>)
    ensures
        match json_chunk(namespace@, text@, level) {
            Ok(c) => r matches Ok(v) && v@ == c,
            Err(e) => r == Err::<Vec<u8>, CafeError>(e),
        },
        namespace@.len() <= 255 ==> packs_back(json_payload(namespace@, text@), level),
{
    if namespace.len() > 255 {
        return Err(CafeError::UnsupportedFeature("jSON namespace longer than 255 bytes", None));
    }
    let mut payload: Vec<u8> = Vec::new();
    payload.push(namespace.len() as u8);
    append_bytes(&mut payload, namespace);
    append_bytes(&mut payload, text);
    assert(payload@ =~= json_payload(namespace@, text@));
    write_packed_chunk(&CHUNK_JSON, payload.as_slice(), level)
}

/// Bytes and "some chunk is compressed" after appending `c` to `acc`.
pub open spec fn then_chunk(acc: Result<(Seq<u8>, bool), CafeError>, c: Result<Seq<u8>, CafeError>) -> Result<(Seq<u8>, bool), CafeError> {
    match acc {
        Err(e) => Err(e),
        Ok((b, z)) => match c {
            Err(e) => Err(e),
            Ok(ch) => Ok((b + ch, z || chunk_is_zstd(ch))),
        },
    }
}

/// The `jSON` chunks of the first `k` `(namespace, text)` pairs.
pub open spec fn json_chunks(json: Seq<(Seq<u8>, Seq<u8>)>, level: i32, k: nat) -> Result<(Seq<u8>, bool), CafeError>
    decreases k,
{
    if k == 0 {
        Ok((Seq::empty(), false))
    } else {
        then_chunk(json_chunks(json, level, (k - 1) as nat), json_chunk(json[k - 1].0, json[k - 1].1, level))
    }
}

pub open spec fn opt_chunk(o: Option<Seq<u8>>, t: Seq<u8>, level: i32) -> Result<(Seq<u8>, bool), CafeError> {
    match o {
        None => Ok((Seq::empty(), false)),
        Some(p) => then_chunk(Ok((Seq::empty(), false)), packed_chunk(t, p, level)),
    }
}

/// Each metadata payload decompresses back from what is stored for it.
pub open spec fn metadata_packs_back(exif: Option<Seq<u8>>, json: Seq<(Seq<u8>, Seq<u8>)>, icc: Option<Seq<u8>>, xmp: Option<Seq<u8>>, level: i32) -> bool {
    &&& (exif matches Some(p) ==> packs_back(p, level))
    &&& (forall|j: int| 0 <= j < json.len() ==> packs_back(json_payload(#[trigger] json[j].0, json[j].1), level))
    &&& (icc matches Some(p) ==> packs_back(p, level))
    &&& (xmp matches Some(p) ==> packs_back(p, level))
}

/// Concatenation of two chunk runs.
pub open spec fn then_run(a: Result<(Seq<u8>, bool), CafeError>, b: Result<(Seq<u8>, bool), CafeError>) -> Result<(Seq<u8>, bool), CafeError> {
    match a {
        Err(e) => Err(e),
        Ok((x, zx)) => match b {
            Err(e) => Err(e),
            Ok((y, zy)) => Ok((x + y, zx || zy)),
        },
    }
}

/// The `eXIF`, `jSON`, `iCCP` and `xMPd` chunks, in that order, each only
/// when there is something to write.
pub open spec fn metadata_chunks(
    exif: Option<Seq<u8>>,
    json: Seq<(Seq<u8>, Seq<u8>)>,
    icc: Option<Seq<u8>>,
    xmp: Option<Seq<u8>>,
    level: i32,
) -> Result<(Seq<u8>, bool), CafeError> {
    then_run(then_run(then_run(opt_chunk(exif, CHUNK_EXIF@, level), json_chunks(json, level, json.len())),
        opt_chunk(icc, CHUNK_ICCP@, level)), opt_chunk(xmp, CHUNK_XMPD@, level))
}

pub open spec fn opt_vec(o: Option<Vec<u8>>) -> Option<Seq<u8>> {
    match o {
        Some(v) => Some(v@),
        None => None,
    }
}

pub open spec fn json_views(v: Seq<(Vec<u8>, Vec<u8>)>) -> Seq<(Seq<u8>, Seq<u8>)> {
    v.map_values(|p: (Vec<u8>, Vec<u8>)| (p.0@, p.1@))
}

pub(crate) fn append_opt_chunk(out: &mut Vec<u8>, o: &Option<Vec<u8>>, t: &[u8; 4], level: i32) -> (r: Result<bool, CafeError>)
    ensures
        match opt_chunk(opt_vec(*o), t@, level) {
            Ok((c, z)) => r == Ok::<bool, CafeError>(z) && final(out)@ == old(out)@ + c,
            Err(e) => r == Err::<bool, CafeError>(e),
        },
        opt_vec(*o) matches Some(p) ==> packs_back(p, level),
{
    match o {
        None => {
            assert(old(out)@ + Seq::<u8>::empty() =~= old(out)@);
            Ok(false)
        },
        Some(p) => {
            let c = match write_packed_chunk(t, p.as_slice(), level) {
                Ok(c) => c,
                Err(e) => return Err(e),
            };
            let z = chunk_uses_zstd(c.as_slice());
            append_bytes(out, c.as_slice());
            assert(Seq::<u8>::empty() + c@ =~= c@);
            Ok(z)
        },
    }
}

/// Appends the `eXIF`, `jSON`, `iCCP` and `xMPd` chunks; returns whether
/// one of them was compressed.
pub fn append_common_metadata_chunks(
    out: &mut Vec<u8>,
    exif: &Option<Vec<u8>>,
    json_metadata: &Vec<(Vec<u8>, Vec<u8>)>,
    icc_profile: &Option<Vec<u8>>,
    xmp_metadata: &Option<Vec<u8>>,
    level: i32,
) -> (r: Result<bool, CafeError>)
    ensures
        match metadata_chunks(opt_vec(*exif), json_views(json_metadata@), opt_vec(*icc_profile), opt_vec(*xmp_metadata), level) {
            Ok((c, z)) => r == Ok::<bool, CafeError>(z) && final(out)@ == old(out)@ + c,
            Err(e) => r == Err::<bool, CafeError>(e),
        },
        r is Ok ==> metadata_packs_back(opt_vec(*exif), json_views(json_metadata@), opt_vec(*icc_profile), opt_vec(*xmp_metadata), level),
{
    let ghost json = json_views(json_metadata@);
    let z1 = match append_opt_chunk(out, exif, &CHUNK_EXIF, level) {
        Ok(z) => z,
        Err(e) => return Err(e),
    };
    let ghost after_exif = out@;
    let mut zj = false;
    let mut i: usize = 0;
    while i < json_metadata.len()
        invariant
            i <= json_metadata@.len(),
            json == json_views(json_metadata@),
            json_chunks(json, level, i as nat) matches Ok((c, z)) && out@ == after_exif + c && zj == z,
            opt_chunk(opt_vec(*exif), CHUNK_EXIF@, level) is Ok,
            opt_vec(*exif) matches Some(p) ==> packs_back(p, level),
            forall|j: int| 0 <= j < i ==> packs_back(json_payload(#[trigger] json[j].0, json[j].1), level),
        decreases json_metadata@.len() - i,
    {
        let (ns, text) = (&json_metadata[i].0, &json_metadata[i].1);
        let c = match write_json_chunk(ns.as_slice(), text.as_slice(), level) {
            Ok(c) => c,
            Err(e) => {
                proof {
                    lemma_json_chunks_err(json, level, (i + 1) as nat, json.len());
                }
                return Err(e);
            },
        };
        let z = chunk_uses_zstd(c.as_slice());
        let ghost before = out@;
        append_bytes(out, c.as_slice());
        zj = zj || z;
        i += 1;
        proof {
            let prev = json_chunks(json, level, (i - 1) as nat)->Ok_0;
            assert(out@ =~= after_exif + (prev.0 + c@));
        }
    }
    let ghost after_json = out@;
    let z3 = match append_opt_chunk(out, icc_profile, &CHUNK_ICCP, level) {
        Ok(z) => z,
        Err(e) => return Err(e),
    };
    let z4 = match append_opt_chunk(out, xmp_metadata, &CHUNK_XMPD, level) {
        Ok(z) => z,
        Err(e) => return Err(e),
    };
    proof {
        let e1 = opt_chunk(opt_vec(*exif), CHUNK_EXIF@, level)->Ok_0;
        let j1 = json_chunks(json, level, json.len())->Ok_0;
        let i1 = opt_chunk(opt_vec(*icc_profile), CHUNK_ICCP@, level)->Ok_0;
        let x1 = opt_chunk(opt_vec(*xmp_metadata), CHUNK_XMPD@, level)->Ok_0;
        assert(out@ =~= old(out)@ + (((e1.0 + j1.0) + i1.0) + x1.0));
    }
    Ok(z1 || zj || z3 || z4)
}

proof fn lemma_json_chunks_err(json: Seq<(Seq<u8>, Seq<u8>)>, level: i32, k: nat, m: nat)
    requires k <= m, json_chunks(json, level, k) is Err,
    ensures json_chunks(json, level, m) == json_chunks(json, level, k),
    decreases m,
{
    if k < m {
        lemma_json_chunks_err(json, level, k, (m - 1) as nat);
    }
}

// ---------------------------------------------------------------------------
// IHDR
// ---------------------------------------------------------------------------

/// The `IHDR` chunk as written.
pub open spec fn ihdr_chunk_spec(w: u32, h: u32, bd: u8, sf: u8, ct: u8, cm: u8, fm: u8, il: u8) -> Seq<u8> {
    chunk_bytes(CHUNK_IHDR@, FLAG_RAW, ihdr_payload_spec(w, h, bd, sf, ct, cm, fm, il))
}

/// Sets the compression-method byte of the `IHDR` chunk that follows the
/// signature at the start of `out`, and recomputes that chunk's CRC32.
pub fn patch_ihdr_compression_method(out: &mut Vec<u8>, compression_method: u8)
    requires old(out)@.len() >= 36,
    ensures
        final(out)@ == old(out)@.subrange(0, 29) + seq![compression_method] + old(out)@.subrange(30, 32)
            + be32_bytes(crc32_over(old(out)@.subrange(0, 29) + seq![compression_method] + old(out)@.subrange(30, 32)))
            + old(out)@.subrange(36, old(out)@.len() as int),
{
    out.set(29, compression_method);
    let ghost o1 = out@;
    let body = crate::bytes::copy_bytes(&out.as_slice()[13..32]);
    let crc = crate::chunk::crc32(body.as_slice());
    let mut crc_bytes: Vec<u8> = Vec::new();
    push_be32(&mut crc_bytes, crc);
    out.set(32, crc_bytes[0]);
    out.set(33, crc_bytes[1]);
    out.set(34, crc_bytes[2]);
    out.set(35, crc_bytes[3]);
    proof {
        let pre = old(out)@;
        let mid = pre.subrange(0, 29) + seq![compression_method] + pre.subrange(30, 32);
        assert(body@ =~= mid.subrange(13, 32));
        assert(out@ =~= mid + be32_bytes(crc32_over(mid)) + pre.subrange(36, pre.len() as int));
    }
}

/// The CRC32 a chunk gets, read off the bytes before it: the bytes
/// `13..32` of `prefix` are the Type, Flag and Data of the `IHDR` chunk.
pub open spec fn crc32_over(prefix: Seq<u8>) -> u32 {
    crate::chunk::crc32_of(prefix.subrange(13, 32))
}

// ---------------------------------------------------------------------------
// IDAT
// ---------------------------------------------------------------------------

/// An `IDAT` chunk holding `payload` (the smallest of raw, Zstandard, and
/// Zstandard with the dictionary), whether it is compressed, and whether the
/// dictionary was used.
pub open spec fn idat_chunk(payload: Seq<u8>, level: i32, dict: Option<Seq<u8>>) -> Result<(Seq<u8>, bool, bool), CafeError> {
    match compress_with_fallback_dict_spec(payload, level, dict) {
        Err(e) => Err(e),
        Ok((flag, data, used)) => Ok((chunk_bytes(CHUNK_IDAT@, flag, data), flag == FLAG_ZSTD, used)),
    }
}

/// A run of `IDAT` chunks extended by one.
pub open spec fn then_idat(acc: Result<(Seq<u8>, bool, bool), CafeError>, c: Result<(Seq<u8>, bool, bool), CafeError>) -> Result<(Seq<u8>, bool, bool), CafeError> {
    match acc {
        Err(e) => Err(e),
        Ok((b, z, u)) => match c {
            Err(e) => Err(e),
            Ok((ch, cz, cu)) => Ok((b + ch, z || cz, u || cu)),
        },
    }
}

/// Decompressing the payload of the dictionary-free `IDAT` of `p` gives `p`
/// back.
pub open spec fn idat_unpacks(p: Seq<u8>, level: i32) -> bool {
    compress_with_fallback_dict_spec(p, level, None) matches Ok((flag, data, _)) ==> unpacks_to(flag, data, p)
}

/// Builds one `IDAT` chunk; returns it, whether it is compressed, and
/// whether the dictionary was used.
pub fn build_idat_chunk(data: &[u8], level: i32, dict: Option<&[u8]>) -> (r: Result<(Vec<u8>, bool, bool), CafeError>)
    ensures
        match idat_chunk(data@, level, opt_bytes(dict)) {
            Ok((c, z, u)) => r matches Ok((v, z2, u2)) && v@ == c && z2 == z && u2 == u,
            Err(e) => r == Err::<(Vec<u8>, bool, bool), CafeError>(e),
        },
        dict is None ==> idat_unpacks(data@, level),
{
    match compress_with_fallback_dict(data, level, dict) {
        Ok((flag, compressed, used)) => Ok((write_chunk(&CHUNK_IDAT, flag, compressed.as_slice()), flag == FLAG_ZSTD, used)),
        Err(e) => Err(e),
    }
}

fn append_idat(acc: &mut (Vec<u8>, bool, bool), payload: &[u8], level: i32, dict: Option<&[u8]>) -> (r: Result<(), CafeError>)
    ensures
        match then_idat(Ok((old(acc).0@, old(acc).1, old(acc).2)), idat_chunk(payload@, level, opt_bytes(dict))) {
            Ok((b, z, u)) => r is Ok && final(acc).0@ == b && final(acc).1 == z && final(acc).2 == u,
            Err(e) => r == Err::<(), CafeError>(e),
        },
        dict is None ==> idat_unpacks(payload@, level),
{
    let (c, z, u) = match build_idat_chunk(payload, level, dict) {
        Ok(x) => x,
        Err(e) => return Err(e),
    };
    append_bytes(&mut acc.0, c.as_slice());
    acc.1 = acc.1 || z;
    acc.2 = acc.2 || u;
    Ok(())
}

/// The interlace passes of an RGBA image (none when not interlaced).
pub open spec fn interlace_passes(il: u8, rgba: Seq<u8>, w: u32, h: u32) -> Seq<Seq<u8>> {
    if il == INTERLACE_ADAM7 {
        Seq::new(7, |p: int| adam7_pass_spec(rgba, w as nat, h as nat, p as nat))
    } else if il == INTERLACE_EVEN_ODD {
        seq![even_odd_pass_spec(rgba, w as nat, h as nat, 0), even_odd_pass_spec(rgba, w as nat, h as nat, 1)]
    } else {
        Seq::empty()
    }
}

/// One `IDAT` per pass, each payload led by the pass number (from 1).
pub open spec fn pass_idats(passes: Seq<Seq<u8>>, level: i32, dict: Option<Seq<u8>>, k: nat) -> Result<(Seq<u8>, bool, bool), CafeError>
    decreases k,
{
    if k == 0 {
        Ok((Seq::empty(), false, false))
    } else {
        then_idat(pass_idats(passes, level, dict, (k - 1) as nat), idat_chunk(seq![k as u8] + passes[k - 1], level, dict))
    }
}

proof fn lemma_run_err(acc: Result<(Seq<u8>, bool, bool), CafeError>)
    requires acc is Err,
    ensures forall|c: Result<(Seq<u8>, bool, bool), CafeError>| #[trigger] then_idat(acc, c) == acc,
{
}

proof fn lemma_pass_idats_err(passes: Seq<Seq<u8>>, level: i32, dict: Option<Seq<u8>>, k: nat, m: nat)
    requires k <= m, pass_idats(passes, level, dict, k) is Err,
    ensures pass_idats(passes, level, dict, m) == pass_idats(passes, level, dict, k),
    decreases m,
{
    if k < m {
        lemma_pass_idats_err(passes, level, dict, k, (m - 1) as nat);
    }
}

/// The `IDAT` payload of pass `q`: the pass number (from 1), then its bytes.
pub open spec fn pass_payload(passes: Seq<Seq<u8>>, q: int) -> Seq<u8> {
    seq![(q + 1) as u8] + passes[q]
}

/// The dictionary-free `IDAT` of each pass decompresses to its payload.
pub open spec fn passes_unpack(passes: Seq<Seq<u8>>, level: i32) -> bool {
    forall|q: int| 0 <= q < passes.len() ==> idat_unpacks(#[trigger] pass_payload(passes, q), level)
}

/// The `IDAT` chunks of an interlaced RGBA image: one per pass.
pub open spec fn interlaced_idats(il: u8, rgba: Seq<u8>, w: u32, h: u32, level: i32, dict: Option<Seq<u8>>) -> Result<(Seq<u8>, bool, bool), CafeError> {
    let passes = interlace_passes(il, rgba, w, h);
    pass_idats(passes, level, dict, passes.len())
}

/// Builds the `IDAT` chunks of an interlaced (Adam7 or even/odd) RGBA
/// image: one per pass, each led by its pass number.
pub fn build_interlaced_idats(il: u8, rgba: &[u8], width: u32, height: u32, level: i32, dict: Option<&[u8]>) -> (r: Result<(Vec<u8>, bool, bool), CafeError>)
    ensures
        match interlaced_idats(il, rgba@, width, height, level, opt_bytes(dict)) {
            Ok((c, z, u)) => r matches Ok((v, z2, u2)) && v@ == c && z2 == z && u2 == u,
            Err(e) => r == Err::<(Vec<u8>, bool, bool), CafeError>(e),
        },
        r is Ok && dict is None ==> passes_unpack(interlace_passes(il, rgba@, width, height), level),
{
    let mut passes: Vec<Vec<u8>> = Vec::new();
    if il == INTERLACE_ADAM7 {
        let arr = apply_adam7_interlace(rgba, width, height);
        let mut p: usize = 0;
        while p < 7
            invariant
                p <= 7,
                passes@.len() == p,
                forall|q: int| 0 <= q < 7 ==> #[trigger] arr@[q]@ == adam7_pass_spec(rgba@, width as nat, height as nat, q as nat),
                forall|q: int| 0 <= q < p ==> #[trigger] passes@[q]@ == adam7_pass_spec(rgba@, width as nat, height as nat, q as nat),
            decreases 7 - p,
        {
            passes.push(crate::bytes::copy_bytes(arr[p].as_slice()));
            p += 1;
        }
    } else if il == INTERLACE_EVEN_ODD {
        let arr = apply_even_odd_interlace(rgba, width, height);
        passes.push(crate::bytes::copy_bytes(arr[0].as_slice()));
        passes.push(crate::bytes::copy_bytes(arr[1].as_slice()));
    }
    let ghost pv = interlace_passes(il, rgba@, width, height);
    assert(passes@.len() == pv.len());
    assert(forall|q: int| 0 <= q < pv.len() ==> #[trigger] passes@[q]@ == pv[q]);
    let mut acc: (Vec<u8>, bool, bool) = (Vec::new(), false, false);
    let mut k: usize = 0;
    while k < passes.len()
        invariant
            k <= passes@.len(),
            passes@.len() == pv.len(), pv.len() <= 7,
            pv == interlace_passes(il, rgba@, width, height),
            forall|q: int| 0 <= q < pv.len() ==> #[trigger] passes@[q]@ == pv[q],
            pass_idats(pv, level, opt_bytes(dict), k as nat) == Ok::<(Seq<u8>, bool, bool), CafeError>((acc.0@, acc.1, acc.2)),
            dict is None ==> forall|q: int| 0 <= q < k ==> idat_unpacks(#[trigger] pass_payload(pv, q), level),
        decreases passes@.len() - k,
    {
        let mut payload: Vec<u8> = Vec::new();
        payload.push((k + 1) as u8);
        append_bytes(&mut payload, passes[k].as_slice());
        assert(payload@ =~= seq![(k + 1) as u8] + pv[k as int]);
        assert(payload@ == pass_payload(pv, k as int));
        match append_idat(&mut acc, payload.as_slice(), level, dict) {
            Ok(_) => {},
            Err(e) => {
                proof {
                    lemma_pass_idats_err(pv, level, opt_bytes(dict), (k + 1) as nat, pv.len());
                }
                return Err(e);
            },
        }
        k += 1;
    }
    Ok(acc)
}

/// How a tile's raw bytes become its `IDAT` payload.
#[derive(Clone, Copy)]
pub struct TileFilter {
    pub use_byte_shuffle: bool,
    pub use_filter: bool,
    pub use_filter_per_row: bool,
    pub heuristic: FilterHeuristic,
    pub level: i32,
}

/// The payload of a tile of `th` rows of `bpr` bytes (`bpp`-byte pixels,
/// `stride_w` pixels wide): byte-shuffled, or block-filtered with the best
/// filter, or as is. The per-row filter is not available.
pub open spec fn tile_payload(t: Seq<u8>, th: nat, bpr: nat, bpp: nat, stride_w: u32, f: TileFilter) -> Result<Seq<u8>, CafeError> {
    if f.use_byte_shuffle {
        shuffle_result(t, bpp, stride_w as nat, (th as u32) as nat, true)
    } else if f.use_filter && f.use_filter_per_row {
        Err(CafeError::UnsupportedFeature("use_filter_per_row is incompatible with iDIM (2D tiling)", None))
    } else if f.use_filter {
        if bpr + 2 * bpp > usize::MAX {
            Err(CafeError::TruncatedFile("tile row size overflows"))
        } else if th * bpr > usize::MAX || t.len() < th * bpr {
            Err(CafeError::TruncatedFile("apply_predictive_filter: insufficient data for the block's rows"))
        } else {
            Ok(best_filtered_block(t, th, bpr as int, bpp as int, f.heuristic, f.level))
        }
    } else {
        Ok(t)
    }
}

pub(crate) fn apply_single_tile_filter(t: &[u8], th: usize, bpr: usize, bpp: usize, stride_w: u32, f: TileFilter) -> (r: Result<Vec<u8>, CafeError>)
    ensures
        match tile_payload(t@, th as nat, bpr as nat, bpp as nat, stride_w, f) {
            Ok(p) => r matches Ok(v) && v@ == p,
            Err(e) => r == Err::<Vec<u8>, CafeError>(e),
        },
{
    if f.use_byte_shuffle {
        #[verifier::truncate]
        let h32 = th as u32;
        apply_byte_shuffle(t, bpp, stride_w, h32)
    } else if f.use_filter && f.use_filter_per_row {
        Err(CafeError::UnsupportedFeature("use_filter_per_row is incompatible with iDIM (2D tiling)", None))
    } else if f.use_filter {
        if bpr as u128 + 2 * (bpp as u128) > usize::MAX as u128 {
            return Err(CafeError::TruncatedFile("tile row size overflows"));
        }
        filter_block_best(t, th, bpr, bpp, f.heuristic, f.level)
    } else {
        Ok(crate::bytes::copy_bytes(t))
    }
}

/// First row of row tile `k` (tiles of `tr` rows).
pub open spec fn tile_start(k: nat, tr: nat) -> nat {
    k * tr
}

/// One past the last row of row tile `k` of an image of `h` rows.
pub open spec fn tile_end(k: nat, tr: nat, h: nat) -> nat {
    if tile_start(k, tr) + tr < h { tile_start(k, tr) + tr } else { h }
}

/// The raw bytes of row tile `k`.
pub open spec fn row_tile_raw(raw: Seq<u8>, h: nat, tr: nat, bpr: nat, k: nat) -> Seq<u8> {
    raw.subrange((tile_start(k, tr) * bpr) as int, (tile_end(k, tr, h) * bpr) as int)
}

/// The `IDAT` payload of row tile `k`.
pub open spec fn row_tile_payload(raw: Seq<u8>, h: nat, tr: nat, bpr: nat, bpp: nat, stride_w: u32, f: TileFilter, k: nat) -> Result<Seq<u8>, CafeError> {
    tile_payload(row_tile_raw(raw, h, tr, bpr, k), (tile_end(k, tr, h) - tile_start(k, tr)) as nat, bpr, bpp, stride_w, f)
}

/// Row tiles `0..k` of an image of `h` rows of `bpr` bytes, each as an
/// `IDAT` chunk.
pub open spec fn row_tile_idats(raw: Seq<u8>, h: nat, tr: nat, bpr: nat, bpp: nat, stride_w: u32, f: TileFilter, dict: Option<Seq<u8>>, k: nat) -> Result<(Seq<u8>, bool, bool), CafeError>
    decreases k,
{
    if k == 0 {
        Ok((Seq::empty(), false, false))
    } else {
        then_idat(row_tile_idats(raw, h, tr, bpr, bpp, stride_w, f, dict, (k - 1) as nat),
            match row_tile_payload(raw, h, tr, bpr, bpp, stride_w, f, (k - 1) as nat) {
                Err(e) => Err(e),
                Ok(p) => idat_chunk(p, f.level, dict),
            })
    }
}

/// The dictionary-free `IDAT`s of row tiles `0..k` decompress to the tiles'
/// payloads.
pub open spec fn row_tiles_unpack(raw: Seq<u8>, h: nat, tr: nat, bpr: nat, bpp: nat, stride_w: u32, f: TileFilter, k: nat) -> bool {
    forall|j: nat| j < k ==> (#[trigger] row_tile_payload(raw, h, tr, bpr, bpp, stride_w, f, j) matches Ok(p) ==> idat_unpacks(p, f.level))
}

/// The number of row tiles: `ceil(h / tr)`.
pub open spec fn row_tile_count(h: nat, tr: nat) -> nat {
    ((h + tr - 1) / tr as int) as nat
}

proof fn lemma_row_tile_idats_err(raw: Seq<u8>, h: nat, tr: nat, bpr: nat, bpp: nat, stride_w: u32, f: TileFilter, dict: Option<Seq<u8>>, k: nat, m: nat)
    requires k <= m, row_tile_idats(raw, h, tr, bpr, bpp, stride_w, f, dict, k) is Err,
    ensures row_tile_idats(raw, h, tr, bpr, bpp, stride_w, f, dict, m) == row_tile_idats(raw, h, tr, bpr, bpp, stride_w, f, dict, k),
    decreases m,
{
    if k < m {
        lemma_row_tile_idats_err(raw, h, tr, bpr, bpp, stride_w, f, dict, k, (m - 1) as nat);
    }
}

pub(crate) proof fn lemma_tile_count(h: nat, tr: nat)
    requires tr > 0,
    ensures
        forall|j: nat| j < row_tile_count(h, tr) ==> #[trigger] tile_start(j, tr) < h,
        forall|j: nat| j >= row_tile_count(h, tr) ==> #[trigger] tile_start(j, tr) >= h,
{
    let n = row_tile_count(h, tr);
    vstd::arithmetic::div_mod::lemma_fundamental_div_mod((h + tr - 1) as int, tr as int);
    let q = (h + tr - 1) / tr as int;
    let r = (h + tr - 1) % tr as int;
    assert(tr * q + r == h + tr - 1);
    assert forall|j: nat| j < n implies #[trigger] tile_start(j, tr) < h by {
        assert(j * tr <= (q - 1) * tr) by (nonlinear_arith) requires j <= q - 1, tr > 0;
        assert((q - 1) * tr == tr * q - tr) by (nonlinear_arith);
    }
    assert forall|j: nat| j >= n implies #[trigger] tile_start(j, tr) >= h by {
        assert(j * tr >= q * tr) by (nonlinear_arith) requires j >= q, tr > 0;
        assert(q * tr == tr * q) by (nonlinear_arith);
    }
}

/// Builds the `IDAT` chunks of an image split into tiles of `tile_rows`
/// rows (the last one shorter), each tile filtered as `f` says.
pub fn build_row_tiled_idats(
    raw: &[u8],
    height: u32,
    tile_rows: u32,
    bytes_per_row: usize,
    bpp: usize,
    stride_width: u32,
    f: TileFilter,
    dict: Option<&[u8]>,
) -> (r: Result<(Vec<u8>, bool, bool), CafeError>)
    requires
        tile_rows > 0,
        raw@.len() >= height * bytes_per_row,
    ensures
        match row_tile_idats(raw@, height as nat, tile_rows as nat, bytes_per_row as nat, bpp as nat, stride_width, f, opt_bytes(dict),
            row_tile_count(height as nat, tile_rows as nat)) {
            Ok((c, z, u)) => r matches Ok((v, z2, u2)) && v@ == c && z2 == z && u2 == u,
            Err(e) => r == Err::<(Vec<u8>, bool, bool), CafeError>(e),
        },
        r is Ok && dict is None ==> row_tiles_unpack(raw@, height as nat, tile_rows as nat, bytes_per_row as nat, bpp as nat, stride_width, f,
            row_tile_count(height as nat, tile_rows as nat)),
{
    let h: u64 = height as u64;
    let tr: u64 = tile_rows as u64;
    let ghost n = row_tile_count(height as nat, tile_rows as nat);
    let mut acc: (Vec<u8>, bool, bool) = (Vec::new(), false, false);
    let mut k: u64 = 0;
    let mut start: u64 = 0;
    proof {
        lemma_tile_count(height as nat, tile_rows as nat);
        assert(tile_start(0, tile_rows as nat) == 0);
    }
    let rl = raw.len();
    while start < h
        invariant
            h == height, tr == tile_rows, tr > 0,
            raw@.len() >= height * bytes_per_row,
            rl == raw@.len(),
            k < n ==> start == k * tr,
            start <= h,
            k <= n,
            (start < h) == (k < n),
            n == row_tile_count(height as nat, tile_rows as nat),
            forall|j: nat| j < n ==> #[trigger] tile_start(j, tile_rows as nat) < height,
            forall|j: nat| j >= n ==> #[trigger] tile_start(j, tile_rows as nat) >= height,
            row_tile_idats(raw@, height as nat, tile_rows as nat, bytes_per_row as nat, bpp as nat, stride_width, f, opt_bytes(dict), k as nat)
                == Ok::<(Seq<u8>, bool, bool), CafeError>((acc.0@, acc.1, acc.2)),
            dict is None ==> row_tiles_unpack(raw@, height as nat, tile_rows as nat, bytes_per_row as nat, bpp as nat, stride_width, f, k as nat),
        decreases h - start,
    {
        let end: u64 = if start + tr < h { start + tr } else { h };
        assert(end * bytes_per_row <= height * bytes_per_row) by (nonlinear_arith) requires end <= height;
        assert(start * bytes_per_row <= end * bytes_per_row) by (nonlinear_arith) requires start <= end;
        let s0 = (start as usize) * bytes_per_row;
        let e0 = (end as usize) * bytes_per_row;
        let t = &raw[s0..e0];
        assert(t@ =~= raw@.subrange((start * bytes_per_row) as int, (end * bytes_per_row) as int));
        let payload = match apply_single_tile_filter(t, (end - start) as usize, bytes_per_row, bpp, stride_width, f) {
            Ok(p) => p,
            Err(e) => {
                proof {
                    lemma_row_tile_idats_err(raw@, height as nat, tile_rows as nat, bytes_per_row as nat, bpp as nat, stride_width, f, opt_bytes(dict), (k + 1) as nat, n);
                }
                return Err(e);
            },
        };
        match append_idat(&mut acc, payload.as_slice(), f.level, dict) {
            Ok(_) => {},
            Err(e) => {
                proof {
                    lemma_row_tile_idats_err(raw@, height as nat, tile_rows as nat, bytes_per_row as nat, bpp as nat, stride_width, f, opt_bytes(dict), (k + 1) as nat, n);
                }
                return Err(e);
            },
        }
        proof {
            assert((k + 1) * tr == k * tr + tr) by (nonlinear_arith);
            let k1 = (k + 1) as nat;
            assert(tile_start(k1, tile_rows as nat) == (k + 1) * tr);
            assert(start == k * tr);
            if end < h {
                assert(end == (k + 1) * tr);
                assert(k1 < n);
            } else {
                assert(tile_start(k1, tile_rows as nat) >= h);
                assert(k1 >= n);
            }
        }
        k += 1;
        start = end;
    }
    proof {
        assert(k == n);
    }
    Ok(acc)
}

/// The bytes of a tile: `k` rows of `stride` bytes, row `r` taken from
/// image row `row0 + r` (of `bpr` bytes) starting `cb` bytes in.
pub open spec fn tile_bytes(raw: Seq<u8>, row0: nat, cb: nat, bpr: nat, stride: nat, k: nat) -> Result<Seq<u8>, CafeError>
    decreases k,
{
    if k == 0 {
        Ok(Seq::empty())
    } else {
        match tile_bytes(raw, row0, cb, bpr, stride, (k - 1) as nat) {
            Err(e) => Err(e),
            Ok(acc) => {
                let start = (row0 + k - 1) * bpr + cb;
                if start + stride > usize::MAX {
                    Err(CafeError::UnsupportedFeature("tile position overflows", None))
                } else if start + stride > raw.len() {
                    Err(CafeError::TruncatedFile("tile extends past the image data"))
                } else {
                    Ok(acc + raw.subrange(start as int, start + stride))
                }
            },
        }
    }
}

proof fn lemma_tile_bytes_err(raw: Seq<u8>, row0: nat, cb: nat, bpr: nat, stride: nat, k: nat, m: nat)
    requires k <= m, tile_bytes(raw, row0, cb, bpr, stride, k) is Err,
    ensures tile_bytes(raw, row0, cb, bpr, stride, m) == tile_bytes(raw, row0, cb, bpr, stride, k),
    decreases m,
{
    if k < m {
        lemma_tile_bytes_err(raw, row0, cb, bpr, stride, k, (m - 1) as nat);
    }
}

fn extract_tile(raw: &[u8], row0: u64, cb: u64, bpr: usize, stride: usize, th: u32) -> (r: Result<Vec<u8>, CafeError>)
    requires row0 <= 0x1_0000_0000, cb <= 0x10_0000_0000,
    ensures
        match tile_bytes(raw@, row0 as nat, cb as nat, bpr as nat, stride as nat, th as nat) {
            Ok(t) => r matches Ok(v) && v@ == t,
            Err(e) => r == Err::<Vec<u8>, CafeError>(e),
        },
{
    let mut out: Vec<u8> = Vec::new();
    let mut r: u32 = 0;
    let rl = raw.len();
    while r < th
        invariant
            r <= th,
            row0 <= 0x1_0000_0000, cb <= 0x10_0000_0000,
            rl == raw@.len(),
            tile_bytes(raw@, row0 as nat, cb as nat, bpr as nat, stride as nat, r as nat) == Ok::<Seq<u8>, CafeError>(out@),
        decreases th - r,
    {
        assert(((row0 as u128) + (r as u128)) * (bpr as u128) <= 0x2_0000_0000 * 0xffff_ffff_ffff_ffff) by (nonlinear_arith)
            requires row0 <= 0x1_0000_0000, r <= 0xffff_ffff, bpr <= 0xffff_ffff_ffff_ffff;
        let start: u128 = ((row0 as u128) + (r as u128)) * (bpr as u128) + (cb as u128);
        if start + stride as u128 > usize::MAX as u128 {
            proof {
                lemma_tile_bytes_err(raw@, row0 as nat, cb as nat, bpr as nat, stride as nat, (r + 1) as nat, th as nat);
            }
            return Err(CafeError::UnsupportedFeature("tile position overflows", None));
        }
        if start + stride as u128 > raw.len() as u128 {
            proof {
                lemma_tile_bytes_err(raw@, row0 as nat, cb as nat, bpr as nat, stride as nat, (r + 1) as nat, th as nat);
            }
            return Err(CafeError::TruncatedFile("tile extends past the image data"));
        }
        let s0 = start as usize;
        let row = &raw[s0..s0 + stride];
        assert(row@ =~= raw@.subrange(start as int, start + stride));
        append_bytes(&mut out, row);
        r += 1;
    }
    Ok(out)
}

/// Tiles `0..k` of a tiled image, in the given order, each as an `IDAT`.
pub open spec fn idim_tile_idats(
    raw: Seq<u8>, order: Seq<(u16, u16)>, d: iDim, w: u32, h: u32, bpr: nat, bpp: nat, f: TileFilter, dict: Option<Seq<u8>>, k: nat,
) -> Result<(Seq<u8>, bool, bool), CafeError>
    decreases k,
{
    if k == 0 {
        Ok((Seq::empty(), false, false))
    } else {
        let (tx, ty) = order[k - 1];
        let tw = tile_extent(tx as int, d.tile_width as int, w as int) as nat;
        let th = tile_extent(ty as int, d.tile_height as int, h as int) as nat;
        let stride = tw * bpp;
        then_idat(idim_tile_idats(raw, order, d, w, h, bpr, bpp, f, dict, (k - 1) as nat),
            if stride > usize::MAX || stride * th > usize::MAX {
                Err(CafeError::UnsupportedFeature("tile size overflows", None))
            } else {
                match tile_bytes(raw, (ty * d.tile_height) as nat, (tx * d.tile_width * bpp) as nat, bpr, stride, th) {
                    Err(e) => Err(e),
                    Ok(t) => match tile_payload(t, th, stride, bpp, tw as u32, TileFilter { use_filter_per_row: false, ..f }) {
                        Err(e) => Err(e),
                        Ok(p) => idat_chunk(p, f.level, dict),
                    },
                }
            })
    }
}

proof fn lemma_idim_tile_idats_err(
    raw: Seq<u8>, order: Seq<(u16, u16)>, d: iDim, w: u32, h: u32, bpr: nat, bpp: nat, f: TileFilter, dict: Option<Seq<u8>>, k: nat, m: nat,
)
    requires k <= m, idim_tile_idats(raw, order, d, w, h, bpr, bpp, f, dict, k) is Err,
    ensures idim_tile_idats(raw, order, d, w, h, bpr, bpp, f, dict, m) == idim_tile_idats(raw, order, d, w, h, bpr, bpp, f, dict, k),
    decreases m,
{
    if k < m {
        lemma_idim_tile_idats_err(raw, order, d, w, h, bpr, bpp, f, dict, k, (m - 1) as nat);
    }
}

/// Builds the `IDAT` chunks of a tiled image: one per tile, in visiting
/// order, each tile's rows cut out of the image and filtered as `f` says.
pub fn build_idim_idats(
    raw: &[u8],
    order: &Vec<(u16, u16)>,
    d: &iDim,
    width: u32,
    height: u32,
    bytes_per_row: usize,
    bpp: usize,
    f: TileFilter,
    dict: Option<&[u8]>,
) -> (r: Result<(Vec<u8>, bool, bool), CafeError>)
    requires bpp <= 16,
    ensures
        match idim_tile_idats(raw@, order@, *d, width, height, bytes_per_row as nat, bpp as nat, f, opt_bytes(dict), order@.len()) {
            Ok((c, z, u)) => r matches Ok((v, z2, u2)) && v@ == c && z2 == z && u2 == u,
            Err(e) => r == Err::<(Vec<u8>, bool, bool), CafeError>(e),
        },
{
    let mut acc: (Vec<u8>, bool, bool) = (Vec::new(), false, false);
    let mut k: usize = 0;
    let tf = TileFilter { use_filter_per_row: false, ..f };
    while k < order.len()
        invariant
            k <= order@.len(),
            bpp <= 16,
            tf == (TileFilter { use_filter_per_row: false, ..f }),
            idim_tile_idats(raw@, order@, *d, width, height, bytes_per_row as nat, bpp as nat, f, opt_bytes(dict), k as nat)
                == Ok::<(Seq<u8>, bool, bool), CafeError>((acc.0@, acc.1, acc.2)),
        decreases order@.len() - k,
    {
        let (tx, ty) = order[k];
        let (tw, th) = d.tile_dimensions(tx, ty, width, height);
        assert((tw as u128) * (bpp as u128) <= 0xffff_ffff * 16) by (nonlinear_arith) requires tw <= 0xffff_ffff, bpp <= 16;
        let stride128: u128 = (tw as u128) * (bpp as u128);
        assert(stride128 * (th as u128) <= 0xffff_ffff * 16 * 0xffff_ffff) by (nonlinear_arith)
            requires stride128 <= 0xffff_ffff * 16, th <= 0xffff_ffff;
        if stride128 > usize::MAX as u128 || stride128 * (th as u128) > usize::MAX as u128 {
            proof {
                lemma_idim_tile_idats_err(raw@, order@, *d, width, height, bytes_per_row as nat, bpp as nat, f, opt_bytes(dict), (k + 1) as nat, order@.len());
            }
            return Err(CafeError::UnsupportedFeature("tile size overflows", None));
        }
        let stride = stride128 as usize;
        assert((ty as u64) * (d.tile_height as u64) <= 0xffff * 0xffff) by (nonlinear_arith)
            requires ty <= 0xffff, d.tile_height <= 0xffff;
        let row0: u64 = (ty as u64) * (d.tile_height as u64);
        assert((tx as u64) * (d.tile_width as u64) <= 0xffff * 0xffff) by (nonlinear_arith)
            requires tx <= 0xffff, d.tile_width <= 0xffff;
        let cx: u64 = (tx as u64) * (d.tile_width as u64);
        assert(cx * (bpp as u64) <= 0xffff * 0xffff * 16) by (nonlinear_arith) requires cx <= 0xffff * 0xffff, bpp <= 16;
        let cb: u64 = cx * (bpp as u64);
        let t = match extract_tile(raw, row0, cb, bytes_per_row, stride, th) {
            Ok(t) => t,
            Err(e) => {
                proof {
                    lemma_idim_tile_idats_err(raw@, order@, *d, width, height, bytes_per_row as nat, bpp as nat, f, opt_bytes(dict), (k + 1) as nat, order@.len());
                }
                return Err(e);
            },
        };
        let payload = match apply_single_tile_filter(t.as_slice(), th as usize, stride, bpp, tw, tf) {
            Ok(p) => p,
            Err(e) => {
                proof {
                    lemma_idim_tile_idats_err(raw@, order@, *d, width, height, bytes_per_row as nat, bpp as nat, f, opt_bytes(dict), (k + 1) as nat, order@.len());
                }
                return Err(e);
            },
        };
        match append_idat(&mut acc, payload.as_slice(), f.level, dict) {
            Ok(_) => {},
            Err(e) => {
                proof {
                    lemma_idim_tile_idats_err(raw@, order@, *d, width, height, bytes_per_row as nat, bpp as nat, f, opt_bytes(dict), (k + 1) as nat, order@.len());
                }
                return Err(e);
            },
        }
        k += 1;
    }
    Ok(acc)
}

// ---------------------------------------------------------------------------
// Dictionary training
// ---------------------------------------------------------------------------

/// The dictionary `zstd` trains on `samples`, at most `max_size` bytes, or
/// `None` when training fails.
pub uninterp spec fn zstd_trained_dict(samples: Seq<Seq<u8>>, max_size: usize) -> Option<Seq<u8>>;

pub open spec fn sample_views(s: Seq<Vec<u8>>) -> Seq<Seq<u8>> {
    s.map_values(|v: Vec<u8>| v@)
}

/// `zstd::dict::from_samples(samples, max_size).ok()`: trains a Zstandard
/// dictionary of at most `max_size` bytes on the samples (`None` when
/// training fails). The result is named, not described.
#[verifier::external_body]
fn zstd_train(samples: &Vec<Vec<u8>>, max_size: usize) -> (r: Option<Vec<u8>>)
    ensures opt_vec(r) == zstd_trained_dict(sample_views(samples@), max_size),
{
    zstd::dict::from_samples(samples.as_slice(), max_size).ok()
}

/// Total length of the samples.
pub open spec fn total_len(s: Seq<Seq<u8>>) -> int
    decreases s.len(),
{
    if s.len() == 0 { 0 } else { total_len(s.drop_last()) + s.last().len() }
}

/// The dictionary trained on the samples: none for no samples or fewer than
/// 512 bytes in all; else one of a tenth of their size, between 256 and
/// 65536 bytes.
pub open spec fn trained_dict_spec(s: Seq<Seq<u8>>) -> Option<Seq<u8>> {
    if s.len() == 0 || total_len(s) < 512 {
        None
    } else {
        let t = total_len(s) / 10;
        let size: usize = if t < 256 { 256 } else if t > 65536 { 65536 } else { t as usize };
        zstd_trained_dict(s, size)
    }
}

/// Trains a Zstandard dictionary on tile payloads.
pub fn train_zstd_dictionary(samples: &Vec<Vec<u8>>) -> (r: Option<Vec<u8>>)
    ensures opt_vec(r) == trained_dict_spec(sample_views(samples@)),
{
    let ghost sv = sample_views(samples@);
    if samples.len() == 0 {
        return None;
    }
    let mut total: u128 = 0;
    let mut i: usize = 0;
    while i < samples.len()
        invariant
            i <= samples@.len(),
            sv == sample_views(samples@),
            total == total_len(sv.take(i as int)),
            total <= i * 0x1_0000_0000_0000_0000,
        decreases samples@.len() - i,
    {
        assert(sv.take(i + 1).drop_last() =~= sv.take(i as int));
        total = total + samples[i].len() as u128;
        i += 1;
    }
    assert(sv.take(sv.len() as int) =~= sv);
    if total < 512 {
        return None;
    }
    let t = total / 10;
    let size: usize = if t < 256 { 256 } else if t > 65536 { 65536 } else { t as usize };
    zstd_train(samples, size)
}

// ---------------------------------------------------------------------------
// Whole files
// ---------------------------------------------------------------------------

/// What to write and how.
pub struct EncodeOptions {
    /// Color type to store (0, 2, 4 or 6; 3 is the indexed encoder's).
    pub target_color_type: u8,
    /// Bit depth of integer samples (8 when not given).
    pub target_bit_depth: Option<u8>,
    /// Sample format (unsigned integer when not given).
    pub sample_format: Option<u8>,
    pub use_filter: bool,
    pub use_filter_per_row: bool,
    pub filter_heuristic: FilterHeuristic,
    pub use_byte_shuffle: bool,
    pub interlace_method: u8,
    pub idim: Option<iDim>,
    pub level: i32,
    /// Rows per `IDAT` tile when not tiled in 2D.
    pub tile_rows: u32,
    pub exif: Option<Vec<u8>>,
    /// `(namespace, JSON text)` pairs.
    pub json_metadata: Vec<(Vec<u8>, Vec<u8>)>,
    pub icc_profile: Option<Vec<u8>>,
    /// UTF-8 text.
    pub xmp_metadata: Option<Vec<u8>>,
    pub zstd_dictionary: Option<Vec<u8>>,
    pub auto_dictionary: bool,
    pub chdr_metadata: Option<ChdrFields>,
    /// How the indexed encoder builds its palette.
    pub palette_algorithm: PaletteAlgorithm,
}

impl EncodeOptions {
    /// RGBA, 8-bit unsigned samples, block predictive filter chosen by the
    /// sum of residuals, no interlace or 2D tiling, 64-row tiles, level 19,
    /// no metadata and no dictionary; the indexed encoder's palette is built
    /// greedily.
    pub fn new() -> (o: EncodeOptions)
        ensures
            o.target_color_type == COLOR_TYPE_RGBA, o.target_bit_depth is None, o.sample_format is None,
            o.use_filter, !o.use_filter_per_row, o.filter_heuristic == FilterHeuristic::Msad, !o.use_byte_shuffle,
            o.interlace_method == INTERLACE_NONE, o.idim is None, o.level == ZSTD_LEVEL, o.tile_rows == DEFAULT_TILE_ROWS,
            o.exif is None, o.json_metadata@.len() == 0, o.icc_profile is None, o.xmp_metadata is None,
            o.zstd_dictionary is None, !o.auto_dictionary, o.chdr_metadata is None,
            o.palette_algorithm == PaletteAlgorithm::NearestNeighbor,
    {
        EncodeOptions {
            target_color_type: COLOR_TYPE_RGBA,
            target_bit_depth: None,
            sample_format: None,
            use_filter: true,
            use_filter_per_row: false,
            filter_heuristic: FilterHeuristic::Msad,
            use_byte_shuffle: false,
            interlace_method: INTERLACE_NONE,
            idim: None,
            level: ZSTD_LEVEL,
            tile_rows: DEFAULT_TILE_ROWS,
            exif: None,
            json_metadata: Vec::new(),
            icc_profile: None,
            xmp_metadata: None,
            zstd_dictionary: None,
            auto_dictionary: false,
            chdr_metadata: None,
            palette_algorithm: PaletteAlgorithm::NearestNeighbor,
        }
    }
}

impl Default for EncodeOptions {
    /// The options `EncodeOptions::new` gives.
    fn default() -> (o: EncodeOptions)
        ensures
            o.target_color_type == COLOR_TYPE_RGBA, o.target_bit_depth is None, o.sample_format is None,
            o.use_filter, !o.use_filter_per_row, o.filter_heuristic == FilterHeuristic::Msad, !o.use_byte_shuffle,
            o.interlace_method == INTERLACE_NONE, o.idim is None, o.level == ZSTD_LEVEL, o.tile_rows == DEFAULT_TILE_ROWS,
            o.exif is None, o.json_metadata@.len() == 0, o.icc_profile is None, o.xmp_metadata is None,
            o.zstd_dictionary is None, !o.auto_dictionary, o.chdr_metadata is None,
            o.palette_algorithm == PaletteAlgorithm::NearestNeighbor,
    {
        EncodeOptions::new()
    }
}

/// The tile filter the options ask for.
pub open spec fn tile_filter_of(o: EncodeOptions) -> TileFilter {
    TileFilter {
        use_byte_shuffle: o.use_byte_shuffle,
        use_filter: o.use_filter,
        use_filter_per_row: o.use_filter_per_row,
        heuristic: o.filter_heuristic,
        level: o.level,
    }
}

/// The `IHDR` filter method the options ask for.
pub open spec fn filter_method_of(o: EncodeOptions) -> u8 {
    if o.use_byte_shuffle {
        FILTER_METHOD_BYTE_SHUFFLE
    } else if o.use_filter && o.use_filter_per_row {
        FILTER_METHOD_PREDICTIVE_PER_ROW
    } else if o.use_filter {
        FILTER_METHOD_PREDICTIVE
    } else {
        FILTER_METHOD_NONE
    }
}

pub open spec fn is_interlaced(il: u8) -> bool {
    il == INTERLACE_ADAM7 || il == INTERLACE_EVEN_ODD
}

/// The `IDAT`s are compressed without a dictionary and are not 2D tiles:
/// no 2D tiles, no dictionary given or trained.
pub open spec fn plain_idats(o: EncodeOptions) -> bool {
    &&& o.idim is None
    &&& o.zstd_dictionary is None
    &&& !o.auto_dictionary
}

/// The dictionary-free `IDAT`s of the image decompress to their payloads:
/// those of the interlace passes when interlaced, of the row tiles
/// otherwise.
pub open spec fn idats_unpack(raw: Seq<u8>, w: u32, h: u32, bpr: nat, bpp: nat, o: EncodeOptions) -> bool {
    if is_interlaced(o.interlace_method) {
        passes_unpack(interlace_passes(o.interlace_method, raw, w, h), o.level)
    } else {
        row_tiles_unpack(raw, h as nat, o.tile_rows as nat, bpr, bpp, w, tile_filter_of(o), row_tile_count(h as nat, o.tile_rows as nat))
    }
}

/// The option checks, in order: the per-row filter takes only the sum of
/// residuals and neither interlace nor 2D tiling; interlace takes only
/// unsigned 8-bit RGBA (four bytes per pixel); byte-shuffle takes no interlace and 2, 4, 8 or 16 bytes
/// per pixel.
pub open spec fn option_error(ct: u8, sf: u8, bpp: nat, o: EncodeOptions) -> Option<CafeError> {
    if o.use_filter && o.use_filter_per_row && !o.use_byte_shuffle
        && (o.filter_heuristic != FilterHeuristic::Msad || o.interlace_method != INTERLACE_NONE || o.idim is Some) {
        Some(CafeError::UnsupportedFeature("use_filter_per_row needs the Msad heuristic, no interlacing and no iDIM", None))
    } else if is_interlaced(o.interlace_method) && (sf != SAMPLE_FORMAT_UINT || ct != COLOR_TYPE_RGBA || bpp != 4) {
        Some(CafeError::UnsupportedFeature("interlacing needs 8-bit RGBA integer samples", None))
    } else if o.use_byte_shuffle && (o.interlace_method != INTERLACE_NONE || !(bpp == 2 || bpp == 4 || bpp == 8 || bpp == 16)) {
        Some(CafeError::UnsupportedFeature("byte shuffle needs no interlacing and 2, 4, 8 or 16 bytes per pixel", None))
    } else {
        None
    }
}

/// The payloads of the first `k` row tiles (the dictionary's training
/// samples), at most 10 of them.
pub open spec fn sample_payloads(raw: Seq<u8>, h: nat, tr: nat, bpr: nat, bpp: nat, w: u32, f: TileFilter, k: nat) -> Result<Seq<Seq<u8>>, CafeError>
    decreases k,
{
    if k == 0 {
        Ok(Seq::empty())
    } else {
        match sample_payloads(raw, h, tr, bpr, bpp, w, f, (k - 1) as nat) {
            Err(e) => Err(e),
            Ok(acc) => {
                let start = tile_start((k - 1) as nat, tr);
                let end = if start + tr < h { start + tr } else { h };
                match tile_payload(raw.subrange((start * bpr) as int, (end * bpr) as int), (end - start) as nat, bpr, bpp, w, f) {
                    Err(e) => Err(e),
                    Ok(p) => Ok(acc.push(p)),
                }
            },
        }
    }
}

/// The number of training samples: at most 10 tiles.
pub open spec fn sample_count(h: nat, tr: nat) -> nat {
    let n = row_tile_count(h, tr);
    if n < 10 { n } else { 10 }
}

/// The dictionary the `IDAT`s are compressed with: the given one, or, when
/// asked to train one and none is given, one trained on the first tiles.
#[verifier::opaque]
pub open spec fn final_dict_spec(raw: Seq<u8>, w: u32, h: u32, bpr: nat, bpp: nat, o: EncodeOptions) -> Result<Option<Seq<u8>>, CafeError> {
    if o.auto_dictionary && o.zstd_dictionary is None {
        match sample_payloads(raw, h as nat, o.tile_rows as nat, bpr, bpp, w, tile_filter_of(o), sample_count(h as nat, o.tile_rows as nat)) {
            Err(e) => Err(e),
            Ok(s) => Ok(trained_dict_spec(s)),
        }
    } else {
        Ok(opt_vec(o.zstd_dictionary))
    }
}

/// The `IDAT` section: one chunk per interlace pass, per 2D tile, or per
/// row tile.
pub open spec fn idat_section(raw: Seq<u8>, w: u32, h: u32, bd: u8, bpr: nat, bpp: nat, o: EncodeOptions, dict: Option<Seq<u8>>) -> Result<(Seq<u8>, bool, bool), CafeError> {
    if is_interlaced(o.interlace_method) {
        interlaced_idats(o.interlace_method, raw, w, h, o.level, dict)
    } else if o.idim is Some {
        if bd < 8 {
            Err(CafeError::UnsupportedFeature("iDIM (tiling 2D) requires bit_depth >= 8 in encode", None))
        } else {
            match tile_order_spec(o.idim->0) {
                Err(e) => Err(e),
                Ok(order) => idim_tile_idats(raw, order, o.idim->0, w, h, bpr, bpp, tile_filter_of(o), dict, order.len()),
            }
        }
    } else {
        row_tile_idats(raw, h as nat, o.tile_rows as nat, bpr, bpp, w, tile_filter_of(o), dict, row_tile_count(h as nat, o.tile_rows as nat))
    }
}

/// The `IDAT` section and whether `zDIC` is written: a given dictionary is
/// always written; a trained one only when some `IDAT` used it and the file
/// is not smaller without it (then the `IDAT`s are redone without).
#[verifier::opaque]
pub open spec fn idats_and_zdic(raw: Seq<u8>, w: u32, h: u32, bd: u8, bpr: nat, bpp: nat, o: EncodeOptions, dict: Option<Seq<u8>>) -> Result<(Seq<u8>, bool, bool), CafeError> {
    match idat_section(raw, w, h, bd, bpr, bpp, o, dict) {
        Err(e) => Err(e),
        Ok((idat, iz, used)) => if o.auto_dictionary && o.zstd_dictionary is None && used && dict is Some {
            match packed_chunk(CHUNK_ZDIC@, dict->0, o.level) {
                Err(e) => Err(e),
                Ok(zc) => match idat_section(raw, w, h, bd, bpr, bpp, o, None) {
                    Err(e) => Err(e),
                    Ok((idat2, iz2, _)) => if idat2.len() < zc.len() + idat.len() {
                        Ok((idat2, iz2, false))
                    } else {
                        Ok((idat, iz, true))
                    },
                },
            }
        } else {
            Ok((idat, iz, o.zstd_dictionary is Some || (!(o.auto_dictionary && o.zstd_dictionary is None) && used)))
        },
    }
}

/// The chunks between `IHDR` and the `IDAT`s: `iDIM`, `cHDR`, metadata.
#[verifier::opaque]
pub open spec fn header_chunks(o: EncodeOptions) -> Result<(Seq<u8>, bool), CafeError> {
    then_run(then_run(
        match o.idim {
            None => Ok((Seq::empty(), false)),
            Some(d) => Ok((chunk_bytes(CHUNK_IDIM@, FLAG_RAW, idim_payload(d)), false)),
        },
        match o.chdr_metadata {
            None => Ok((Seq::empty(), false)),
            Some(c) => then_chunk(Ok((Seq::empty(), false)), packed_chunk(CHUNK_CHDR@, chdr_payload(c), o.level)),
        }),
        metadata_chunks(opt_vec(o.exif), json_views(o.json_metadata@), opt_vec(o.icc_profile), opt_vec(o.xmp_metadata), o.level))
}

/// Each payload among the header chunks decompresses back from what is
/// stored for it.
pub open spec fn header_packs_back(o: EncodeOptions) -> bool {
    &&& (o.chdr_metadata matches Some(c) ==> packs_back(chdr_payload(c), o.level))
    &&& metadata_packs_back(opt_vec(o.exif), json_views(o.json_metadata@), opt_vec(o.icc_profile), opt_vec(o.xmp_metadata), o.level)
}

/// The `IEND` chunk.
pub open spec fn iend_chunk() -> Seq<u8> {
    chunk_bytes(CHUNK_IEND@, FLAG_RAW, Seq::empty())
}

/// Bytes per pixel and per row of the stored samples, once the options
/// are checked.
pub open spec fn encode_layout(w: u32, ct: u8, bd: u8, sf: u8, o: EncodeOptions) -> Result<(usize, nat), CafeError> {
    match bytes_per_pixel_spec(ct, bd) {
        None => Err(CafeError::UnsupportedFeature("color type and bit depth not supported together", None)),
        Some(bpp) => if sf != SAMPLE_FORMAT_UINT && (match container_depth(8, sf) { Some(d) => bytes_per_pixel_spec(ct, d) is None, None => true }) {
            Err(CafeError::UnsupportedFeature("sample format not supported for this color type", None))
        } else {
            match direct_row_bytes(w, ct, bd, bpp) {
                None => Err(CafeError::UnsupportedFeature("row size in bytes overflows", None)),
                Some(bpr) => match option_error(ct, sf, bpp as nat, o) {
                    Some(e) => Err(e),
                    None => Ok((bpp, bpr)),
                },
            }
        },
    }
}

/// The `zDIC` chunk when it is written.
pub open spec fn zdic_part(emit: bool, dict: Option<Seq<u8>>, level: i32) -> Result<(Seq<u8>, bool), CafeError> {
    if emit {
        match dict {
            None => Ok((Seq::empty(), false)),
            Some(d) => then_chunk(Ok((Seq::empty(), false)), packed_chunk(CHUNK_ZDIC@, d, level)),
        }
    } else {
        Ok((Seq::empty(), false))
    }
}

/// The file once the layout is known: signature, `IHDR` (its compression
/// method says whether any chunk is compressed), the header chunks, `zDIC`
/// when written, the `IDAT`s, `IEND`.
#[verifier::opaque]
pub open spec fn assemble_spec(raw: Seq<u8>, w: u32, h: u32, ct: u8, bd: u8, sf: u8, bpp: nat, bpr: nat, o: EncodeOptions) -> Result<Seq<u8>, CafeError> {
    match header_chunks(o) {
        Err(e) => Err(e),
        Ok((hc, hz)) => match final_dict_spec(raw, w, h, bpr, bpp, o) {
            Err(e) => Err(e),
            Ok(dict) => match idats_and_zdic(raw, w, h, bd, bpr, bpp, o, dict) {
                Err(e) => Err(e),
                Ok((idat, iz, emit)) => match zdic_part(emit, dict, o.level) {
                    Err(e) => Err(e),
                    Ok((zc, zz)) => {
                        let cm: u8 = if hz || iz || zz { COMPRESSION_METHOD_ZSTD_BIT } else { 0 };
                        Ok(SIGNATURE@ + ihdr_chunk_spec(w, h, bd, sf, ct, cm, filter_method_of(o), o.interlace_method)
                            + hc + zc + idat + iend_chunk())
                    },
                },
            },
        },
    }
}

/// The file for samples `raw` of a `w` x `h` image of color type `ct`, bit
/// depth `bd` and sample format `sf`, or the error.
pub open spec fn encode_raw_spec(raw: Seq<u8>, w: u32, h: u32, ct: u8, bd: u8, sf: u8, o: EncodeOptions) -> Result<Seq<u8>, CafeError> {
    match encode_layout(w, ct, bd, sf, o) {
        Err(e) => Err(e),
        Ok((bpp, bpr)) => if raw.len() < h * bpr {
            Err(CafeError::TruncatedFile("raw data shorter than the image rows"))
        } else {
            assemble_spec(raw, w, h, ct, bd, sf, bpp as nat, bpr, o)
        },
    }
}

proof fn lemma_sample_payloads_err(raw: Seq<u8>, h: nat, tr: nat, bpr: nat, bpp: nat, w: u32, f: TileFilter, k: nat, m: nat)
    requires k <= m, sample_payloads(raw, h, tr, bpr, bpp, w, f, k) is Err,
    ensures sample_payloads(raw, h, tr, bpr, bpp, w, f, m) == sample_payloads(raw, h, tr, bpr, bpp, w, f, k),
    decreases m,
{
    if k < m {
        lemma_sample_payloads_err(raw, h, tr, bpr, bpp, w, f, k, (m - 1) as nat);
    }
}

fn collect_samples(raw: &[u8], width: u32, height: u32, tile_rows: u32, bpr: usize, bpp: usize, f: TileFilter) -> (r: Result<Vec<Vec<u8>>, CafeError>)
    requires tile_rows > 0, raw@.len() >= height * bpr,
    ensures
        match sample_payloads(raw@, height as nat, tile_rows as nat, bpr as nat, bpp as nat, width, f, sample_count(height as nat, tile_rows as nat)) {
            Ok(sv) => r matches Ok(v) && sample_views(v@) == sv,
            Err(e) => r == Err::<Vec<Vec<u8>>, CafeError>(e),
        },
{
    let h: u64 = height as u64;
    let tr: u64 = tile_rows as u64;
    let ghost n = row_tile_count(height as nat, tile_rows as nat);
    let ghost m = sample_count(height as nat, tile_rows as nat);
    proof {
        lemma_tile_count(height as nat, tile_rows as nat);
        assert(tile_start(0, tile_rows as nat) == 0);
    }
    let mut out: Vec<Vec<u8>> = Vec::new();
    assert(sample_views(out@) =~= Seq::<Seq<u8>>::empty());
    let mut k: u64 = 0;
    let mut start: u64 = 0;
    let rl = raw.len();
    while start < h && k < 10
        invariant
            h == height, tr == tile_rows, tr > 0,
            raw@.len() >= height * bpr,
            rl == raw@.len(),
            k < n ==> start == k * tr,
            start <= h,
            k <= n, k <= 10,
            (start < h) == (k < n),
            n == row_tile_count(height as nat, tile_rows as nat),
            m == sample_count(height as nat, tile_rows as nat),
            forall|j: nat| j < n ==> #[trigger] tile_start(j, tile_rows as nat) < height,
            forall|j: nat| j >= n ==> #[trigger] tile_start(j, tile_rows as nat) >= height,
            sample_payloads(raw@, height as nat, tile_rows as nat, bpr as nat, bpp as nat, width, f, k as nat)
                == Ok::<Seq<Seq<u8>>, CafeError>(sample_views(out@)),
        decreases h - start,
    {
        let end: u64 = if start + tr < h { start + tr } else { h };
        assert(end * bpr <= height * bpr) by (nonlinear_arith) requires end <= height;
        assert(start * bpr <= end * bpr) by (nonlinear_arith) requires start <= end;
        let s0 = (start as usize) * bpr;
        let e0 = (end as usize) * bpr;
        let t = &raw[s0..e0];
        assert(t@ =~= raw@.subrange((start * bpr) as int, (end * bpr) as int));
        let p = match apply_single_tile_filter(t, (end - start) as usize, bpr, bpp, width, f) {
            Ok(p) => p,
            Err(e) => {
                proof {
                    lemma_sample_payloads_err(raw@, height as nat, tile_rows as nat, bpr as nat, bpp as nat, width, f, (k + 1) as nat, m);
                }
                return Err(e);
            },
        };
        let ghost pv = p@;
        let ghost prev = out@;
        out.push(p);
        proof {
            assert(out@ == prev.push(p));
            assert(sample_views(out@) =~= sample_views(prev).push(pv));
            assert((k + 1) * tr == k * tr + tr) by (nonlinear_arith);
            let k1 = (k + 1) as nat;
            assert(tile_start(k1, tile_rows as nat) == (k + 1) * tr);
            assert(start == k * tr);
            if end < h {
                assert(end == (k + 1) * tr);
                assert(k1 < n);
            } else {
                assert(tile_start(k1, tile_rows as nat) >= h);
                assert(k1 >= n);
            }
        }
        k += 1;
        start = end;
    }
    proof {
        assert(k == m);
    }
    Ok(out)
}

fn final_dictionary(raw: &[u8], width: u32, height: u32, bpr: usize, bpp: usize, o: &EncodeOptions) -> (r: Result<Option<Vec<u8>>, CafeError>)
    requires o.tile_rows > 0, raw@.len() >= height * bpr,
    ensures
        match final_dict_spec(raw@, width, height, bpr as nat, bpp as nat, *o) {
            Ok(d) => r matches Ok(v) && opt_vec(v) == d,
            Err(e) => r == Err::<Option<Vec<u8>>, CafeError>(e),
        },
{
    proof {
        reveal(final_dict_spec);
    }
    if o.auto_dictionary && o.zstd_dictionary.is_none() {
        let f = TileFilter {
            use_byte_shuffle: o.use_byte_shuffle,
            use_filter: o.use_filter,
            use_filter_per_row: o.use_filter_per_row,
            heuristic: o.filter_heuristic,
            level: o.level,
        };
        let samples = match collect_samples(raw, width, height, o.tile_rows, bpr, bpp, f) {
            Ok(s) => s,
            Err(e) => return Err(e),
        };
        Ok(train_zstd_dictionary(&samples))
    } else {
        match &o.zstd_dictionary {
            Some(d) => Ok(Some(crate::bytes::copy_bytes(d.as_slice()))),
            None => Ok(None),
        }
    }
}

pub(crate) fn opt_slice(o: &Option<Vec<u8>>) -> (r: Option<&[u8]>)
    ensures opt_bytes(r) == opt_vec(*o),
{
    match o {
        Some(v) => Some(v.as_slice()),
        None => None,
    }
}

fn build_idat_section(raw: &[u8], width: u32, height: u32, bd: u8, bpr: usize, bpp: usize, o: &EncodeOptions, dict: Option<&[u8]>)
    -> (r: Result<(Vec<u8>, bool, bool), CafeError>)
    requires o.tile_rows > 0, raw@.len() >= height * bpr, bpp <= 16,
    ensures
        match idat_section(raw@, width, height, bd, bpr as nat, bpp as nat, *o, opt_bytes(dict)) {
            Ok((c, z, u)) => r matches Ok((v, z2, u2)) && v@ == c && z2 == z && u2 == u,
            Err(e) => r == Err::<(Vec<u8>, bool, bool), CafeError>(e),
        },
        r is Ok && dict is None && o.idim is None ==> idats_unpack(raw@, width, height, bpr as nat, bpp as nat, *o),
{
    let f = TileFilter {
        use_byte_shuffle: o.use_byte_shuffle,
        use_filter: o.use_filter,
        use_filter_per_row: o.use_filter_per_row,
        heuristic: o.filter_heuristic,
        level: o.level,
    };
    let il = o.interlace_method;
    if il == INTERLACE_ADAM7 || il == INTERLACE_EVEN_ODD {
        build_interlaced_idats(il, raw, width, height, o.level, dict)
    } else {
        match &o.idim {
            Some(d) => {
                if bd < 8 {
                    return Err(CafeError::UnsupportedFeature("iDIM (tiling 2D) requires bit_depth >= 8 in encode", None));
                }
                let order = match d.tile_order() {
                    Ok(v) => v,
                    Err(e) => return Err(e),
                };
                build_idim_idats(raw, &order, d, width, height, bpr, bpp, f, dict)
            },
            None => build_row_tiled_idats(raw, height, o.tile_rows, bpr, bpp, width, f, dict),
        }
    }
}

fn build_idats_and_zdic(raw: &[u8], width: u32, height: u32, bd: u8, bpr: usize, bpp: usize, o: &EncodeOptions, dict: &Option<Vec<u8>>)
    -> (r: Result<(Vec<u8>, bool, bool), CafeError>)
    requires o.tile_rows > 0, raw@.len() >= height * bpr, bpp <= 16,
    ensures
        match idats_and_zdic(raw@, width, height, bd, bpr as nat, bpp as nat, *o, opt_vec(*dict)) {
            Ok((c, z, u)) => r matches Ok((v, z2, u2)) && v@ == c && z2 == z && u2 == u,
            Err(e) => r == Err::<(Vec<u8>, bool, bool), CafeError>(e),
        },
        r is Ok && dict is None && !o.auto_dictionary && o.idim is None ==> idats_unpack(raw@, width, height, bpr as nat, bpp as nat, *o),
{
    proof {
        reveal(idats_and_zdic);
    }
    let (idat, iz, used) = match build_idat_section(raw, width, height, bd, bpr, bpp, o, opt_slice(dict)) {
        Ok(x) => x,
        Err(e) => return Err(e),
    };
    let auto = o.auto_dictionary && o.zstd_dictionary.is_none();
    if auto && used && dict.is_some() {
        let d = match dict {
            Some(d) => d,
            None => return Err(CafeError::UnsupportedFeature("zDIC requested without a dictionary", None)),
        };
        let zc = match write_packed_chunk(&CHUNK_ZDIC, d.as_slice(), o.level) {
            Ok(c) => c,
            Err(e) => return Err(e),
        };
        let (idat2, iz2, _u2) = match build_idat_section(raw, width, height, bd, bpr, bpp, o, None) {
            Ok(x) => x,
            Err(e) => return Err(e),
        };
        if (idat2.len() as u128) < (zc.len() as u128) + (idat.len() as u128) {
            Ok((idat2, iz2, false))
        } else {
            Ok((idat, iz, true))
        }
    } else {
        let emit = o.zstd_dictionary.is_some() || (!auto && used);
        Ok((idat, iz, emit))
    }
}

#[verifier::spinoff_prover]
#[verifier::rlimit(30)]
fn append_header_chunks(out: &mut Vec<u8>, o: &EncodeOptions) -> (r: Result<bool, CafeError>)
    ensures
        match header_chunks(*o) {
            Ok((c, z)) => r == Ok::<bool, CafeError>(z) && final(out)@ == old(out)@ + c,
            Err(e) => r == Err::<bool, CafeError>(e),
        },
        r is Ok ==> header_packs_back(*o),
{
    proof {
        reveal(header_chunks);
    }
    let mut z = false;
    let ghost o0 = out@;
    match &o.idim {
        Some(d) => {
            let c = match write_idim_chunk(d) {
                Ok(c) => c,
                Err(e) => return Err(e),
            };
            append_bytes(out, c.as_slice());
        },
        None => {},
    }
    let ghost o1 = out@;
    match &o.chdr_metadata {
        Some(c) => {
            let ch = match write_chdr_chunk(c, o.level) {
                Ok(ch) => ch,
                Err(e) => return Err(e),
            };
            z = chunk_uses_zstd(ch.as_slice());
            append_bytes(out, ch.as_slice());
            assert(Seq::<u8>::empty() + ch@ =~= ch@);
        },
        None => {},
    }
    let ghost o2 = out@;
    let zm = match append_common_metadata_chunks(out, &o.exif, &o.json_metadata, &o.icc_profile, &o.xmp_metadata, o.level) {
        Ok(z) => z,
        Err(e) => return Err(e),
    };
    proof {
        let a = match o.idim {
            None => Seq::<u8>::empty(),
            Some(d) => chunk_bytes(CHUNK_IDIM@, FLAG_RAW, idim_payload(d)),
        };
        assert(o1 =~= o0 + a);
        let m = metadata_chunks(opt_vec(o.exif), json_views(o.json_metadata@), opt_vec(o.icc_profile), opt_vec(o.xmp_metadata), o.level)->Ok_0;
        assert(out@ =~= o0 + ((a + o2.subrange(o1.len() as int, o2.len() as int)) + m.0));
    }
    Ok(z || zm)
}

pub(crate) proof fn lemma_patched_ihdr(w: u32, h: u32, bd: u8, sf: u8, ct: u8, cm: u8, fm: u8, il: u8, rest: Seq<u8>)
    ensures ({
        let pre = SIGNATURE@ + ihdr_chunk_spec(w, h, bd, sf, ct, 0, fm, il) + rest;
        let mid = pre.subrange(0, 29) + seq![cm] + pre.subrange(30, 32);
        &&& pre.len() >= 36
        &&& mid + be32_bytes(crc32_over(mid)) + pre.subrange(36, pre.len() as int)
            == SIGNATURE@ + ihdr_chunk_spec(w, h, bd, sf, ct, cm, fm, il) + rest
    }),
{
    let p0 = ihdr_payload_spec(w, h, bd, sf, ct, 0, fm, il);
    let p1 = ihdr_payload_spec(w, h, bd, sf, ct, cm, fm, il);
    let pre = SIGNATURE@ + ihdr_chunk_spec(w, h, bd, sf, ct, 0, fm, il) + rest;
    let mid = pre.subrange(0, 29) + seq![cm] + pre.subrange(30, 32);
    assert(p0.len() == 14 && p1.len() == 14);
    assert(mid.subrange(13, 32) =~= chunk_body(CHUNK_IHDR@, FLAG_RAW, p1));
    assert(mid + be32_bytes(crc32_over(mid)) + pre.subrange(36, pre.len() as int)
        =~= SIGNATURE@ + ihdr_chunk_spec(w, h, bd, sf, ct, cm, fm, il) + rest);
}

fn check_encode_layout(width: u32, ct: u8, bd: u8, sf: u8, o: &EncodeOptions) -> (r: Result<(usize, usize), CafeError>)
    ensures
        match encode_layout(width, ct, bd, sf, *o) {
            Ok((bpp, bpr)) => r matches Ok((b, rb)) && b == bpp && rb == bpr && bpp <= 16,
            Err(e) => r == Err::<(usize, usize), CafeError>(e),
        },
{
    let bpp = match bytes_per_pixel(ct, bd) {
        Some(b) => b,
        None => return Err(CafeError::UnsupportedFeature("color type and bit depth not supported together", None)),
    };
    if sf != SAMPLE_FORMAT_UINT {
        match bytes_per_pixel_with_format(ct, 8, sf) {
            Some(_) => {},
            None => return Err(CafeError::UnsupportedFeature("sample format not supported for this color type", None)),
        }
    }
    let bpr = match bytes_per_row_for_direct_color(width, ct, bd, bpp) {
        Ok(b) => b,
        Err(e) => return Err(e),
    };
    let il = o.interlace_method;
    if o.use_filter && o.use_filter_per_row && !o.use_byte_shuffle {
        let msad = match o.filter_heuristic {
            FilterHeuristic::Msad => true,
            _ => false,
        };
        if !msad || il != INTERLACE_NONE || o.idim.is_some() {
            return Err(CafeError::UnsupportedFeature("use_filter_per_row needs the Msad heuristic, no interlacing and no iDIM", None));
        }
    }
    if (il == INTERLACE_ADAM7 || il == INTERLACE_EVEN_ODD) && (sf != SAMPLE_FORMAT_UINT || ct != COLOR_TYPE_RGBA || bpp != 4) {
        return Err(CafeError::UnsupportedFeature("interlacing needs 8-bit RGBA integer samples", None));
    }
    if o.use_byte_shuffle && (il != INTERLACE_NONE || !(bpp == 2 || bpp == 4 || bpp == 8 || bpp == 16)) {
        return Err(CafeError::UnsupportedFeature("byte shuffle needs no interlacing and 2, 4, 8 or 16 bytes per pixel", None));
    }
    Ok((bpp, bpr))
}

pub(crate) fn append_zdic_chunk_if_present(out: &mut Vec<u8>, emit: bool, dict: &Option<Vec<u8>>, level: i32) -> (r: Result<bool, CafeError>)
    ensures
        match zdic_part(emit, opt_vec(*dict), level) {
            Ok((c, z)) => r == Ok::<bool, CafeError>(z) && final(out)@ == old(out)@ + c,
            Err(e) => r == Err::<bool, CafeError>(e),
        },
{
    if emit {
        match dict {
            Some(d) => {
                let zc = match write_packed_chunk(&CHUNK_ZDIC, d.as_slice(), level) {
                    Ok(c) => c,
                    Err(e) => return Err(e),
                };
                let zz = chunk_uses_zstd(zc.as_slice());
                append_bytes(out, zc.as_slice());
                assert(Seq::<u8>::empty() + zc@ =~= zc@);
                return Ok(zz);
            },
            None => {},
        }
    }
    assert(old(out)@ + Seq::<u8>::empty() =~= old(out)@);
    Ok(false)
}

proof fn lemma_concat_shape(a: Seq<u8>, b: Seq<u8>, c: Seq<u8>, d: Seq<u8>, e: Seq<u8>, ab: Seq<u8>, abc: Seq<u8>, all: Seq<u8>)
    requires ab == a + b, abc == ab + c, all == abc + d + e,
    ensures all == a + (b + c + d + e),
{
    assert(all =~= a + (b + c + d + e));
}

#[verifier::spinoff_prover]
#[verifier::rlimit(50)]
fn assemble(raw: &[u8], width: u32, height: u32, ct: u8, bd: u8, sf: u8, bpp: usize, bpr: usize, o: &EncodeOptions) -> (r: Result<Vec<u8>, CafeError>)
    requires o.tile_rows > 0, raw@.len() >= height * bpr, bpp <= 16,
    ensures
        match assemble_spec(raw@, width, height, ct, bd, sf, bpp as nat, bpr as nat, *o) {
            Ok(f) => r matches Ok(v) && v@ == f,
            Err(e) => r == Err::<Vec<u8>, CafeError>(e),
        },
        r is Ok && plain_idats(*o) ==> idats_unpack(raw@, width, height, bpr as nat, bpp as nat, *o),
        r is Ok ==> header_packs_back(*o),
{
    proof {
        reveal(assemble_spec);
    }
    let fm = if o.use_byte_shuffle {
        FILTER_METHOD_BYTE_SHUFFLE
    } else if o.use_filter && o.use_filter_per_row {
        FILTER_METHOD_PREDICTIVE_PER_ROW
    } else if o.use_filter {
        FILTER_METHOD_PREDICTIVE
    } else {
        FILTER_METHOD_NONE
    };
    let il = o.interlace_method;
    let mut out: Vec<u8> = Vec::new();
    append_bytes(&mut out, SIGNATURE.as_slice());
    let ihdr = build_ihdr_payload(width, height, bd, sf, ct, 0, fm, il);
    let ihdr_c = write_chunk(&CHUNK_IHDR, FLAG_RAW, ihdr.as_slice());
    append_bytes(&mut out, ihdr_c.as_slice());
    let ghost after_ihdr = out@;
    let hz = match append_header_chunks(&mut out, o) {
        Ok(z) => z,
        Err(e) => return Err(e),
    };
    let ghost after_header = out@;
    let dict = match final_dictionary(raw, width, height, bpr, bpp, o) {
        Ok(d) => d,
        Err(e) => return Err(e),
    };
    assert(plain_idats(*o) ==> dict is None) by {
        reveal(final_dict_spec);
    }
    let (idat, iz, emit) = match build_idats_and_zdic(raw, width, height, bd, bpr, bpp, o, &dict) {
        Ok(x) => x,
        Err(e) => return Err(e),
    };
    let zz = match append_zdic_chunk_if_present(&mut out, emit, &dict, o.level) {
        Ok(z) => z,
        Err(e) => return Err(e),
    };
    let ghost after_zdic = out@;
    append_bytes(&mut out, idat.as_slice());
    let empty: Vec<u8> = Vec::new();
    let iend = write_chunk(&CHUNK_IEND, FLAG_RAW, empty.as_slice());
    append_bytes(&mut out, iend.as_slice());
    let cm: u8 = if hz || iz || zz { COMPRESSION_METHOD_ZSTD_BIT } else { 0 };
    proof {
        let hc = header_chunks(*o)->Ok_0.0;
        let zc = zdic_part(emit, opt_vec(dict), o.level)->Ok_0.0;
        assert(empty@ =~= Seq::<u8>::empty());
        let i0 = ihdr_chunk_spec(width, height, bd, sf, ct, 0, fm, il);
        assert(after_ihdr =~= SIGNATURE@ + i0);
        lemma_concat_shape(SIGNATURE@ + i0, hc, zc, idat@, iend_chunk(), after_header, after_zdic, out@);
        lemma_patched_ihdr(width, height, bd, sf, ct, cm, fm, il, hc + zc + idat@ + iend_chunk());
    }
    patch_ihdr_compression_method(&mut out, cm);
    Ok(out)
}

/// Encodes samples `raw` (already in color type `ct`, bit depth `bd` and
/// sample format `sf`, rows of whole bytes) of a `width` x `height` image:
/// checks the options, writes the signature, `IHDR`, `iDIM`, `cHDR`,
/// `eXIF`, `jSON`, `iCCP`, `xMPd`, `zDIC` when the dictionary is kept, the
/// `IDAT`s (interlace passes, 2D tiles or row tiles) and `IEND`, then sets
/// the `IHDR` compression method.
pub fn encode_raw(raw: &[u8], width: u32, height: u32, ct: u8, bd: u8, sf: u8, o: &EncodeOptions) -> (r: Result<Vec<u8>, CafeError>)
    requires o.tile_rows > 0,
    ensures
        match encode_raw_spec(raw@, width, height, ct, bd, sf, *o) {
            Ok(f) => r matches Ok(v) && v@ == f,
            Err(e) => r == Err::<Vec<u8>, CafeError>(e),
        },
        // decoding the file gives the stored samples back
        r matches Ok(bytes) ==> (raw_roundtrip(width, height, ct, bd, sf, *o) && idat_payloads_ok(raw@, width, height, ct, bd, sf, *o)
            ==> decodes_to(bytes@, stored_rows(raw@, width, height, ct, bd, sf, *o), width, height, ct, bd, sf)),
        // and reports the metadata written
        r matches Ok(bytes) ==> (raw_roundtrip(width, height, ct, bd, sf, *o) && idat_payloads_ok(raw@, width, height, ct, bd, sf, *o)
            ==> (decode_spec(bytes@) matches Ok((_, v)) ==> meta_reported(v, *o))),
{
    let (bpp, bpr) = match check_encode_layout(width, ct, bd, sf, o) {
        Ok(x) => x,
        Err(e) => return Err(e),
    };
    assert((height as u128) * (bpr as u128) <= 0xffff_ffff * 0xffff_ffff_ffff_ffff) by (nonlinear_arith)
        requires height <= 0xffff_ffff, bpr <= 0xffff_ffff_ffff_ffff;
    if (raw.len() as u128) < (height as u128) * (bpr as u128) {
        return Err(CafeError::TruncatedFile("raw data shorter than the image rows"));
    }
    let r = assemble(raw, width, height, ct, bd, sf, bpp, bpr, o);
    proof {
        if r is Ok && raw_roundtrip(width, height, ct, bd, sf, *o) && idat_payloads_ok(raw@, width, height, ct, bd, sf, *o) {
            lemma_encode_raw_decodes(raw@, width, height, ct, bd, sf, *o, r->Ok_0@);
        }
    }
    r
}

} // verus!
