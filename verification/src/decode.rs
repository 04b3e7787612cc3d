//! Decoding a CAFE file held in memory: the chunk walk, what each chunk
//! does to the decoder's state, and the reconstruction of the pixels.

use vstd::prelude::*;

use crate::ancillary::{check_idim, check_idim_spec, iDim, parse_chdr_spec, read_chdr_chunk, read_idim_chunk, read_idim_spec, read_plte_chunk, read_plte_spec, ChdrFields};
use crate::codec::{decompress_chunk, decompress_with_limit_spec};
use crate::color::{bytes_per_row_for_bit_depth, packable_depth, row_bytes};
use crate::constants::{
    CHUNK_EXIF, CHUNK_ICCP, CHUNK_JSON, CHUNK_PLTE, CHUNK_XMPD, CHUNK_ZDIC, COLOR_TYPE_INDEXED,
    MAX_DECOMPRESSED_CHUNK_SIZE,
};
use crate::error::CafeError;
use crate::header::DecodeState;
use crate::palette::{Palette, PaletteEntry};
use crate::zorder::tile_order_spec;
use crate::ancillary::tile_extent;
use crate::bytes::{append_bytes, copy_into};
use crate::codec::{decompress_chunk_dict_limited, opt_bytes};
use crate::color::{bytes_per_pixel, bytes_per_pixel_spec, unpack_indices_row, unpack_row_spec};
use crate::constants::{
    CHUNK_IDAT, FILTER_METHOD_BYTE_SHUFFLE, FILTER_METHOD_PREDICTIVE, FILTER_METHOD_PREDICTIVE_PER_ROW,
    INTERLACE_ADAM7, INTERLACE_EVEN_ODD,
};
use crate::filter::{undo_predictive_filter, undo_predictive_filter_spec};
use crate::shuffle::{shuffle_result, undo_byte_shuffle};
use crate::chunk::{read_chunk, read_chunk_spec};
use crate::color::{color_type_to_rgba_spec, convert_color_type_to_rgba, samples_per_pixel_spec};
use crate::constants::{
    CHUNK_CHDR, CHUNK_IDIM, CHUNK_IEND, CHUNK_IHDR, SAMPLE_FORMAT_FLOAT, SAMPLE_FORMAT_HALF, SIGNATURE,
};
use crate::header::{handle_ihdr_chunk, ihdr_step};
use crate::indexed::{dequantize_from_palette, dequantize_spec};
use crate::interlace::{reconstruct_adam7, reconstruct_adam7_spec, reconstruct_even_odd, reconstruct_even_odd_spec};

verus! {

// ---------------------------------------------------------------------------
// Outside checks on text
// ---------------------------------------------------------------------------

/// Whether `bytes` are well-formed UTF-8, as `std::str::from_utf8` decides.
pub uninterp spec fn utf8_valid(bytes: Seq<u8>) -> bool;

/// Whether `text` parses as one JSON value, as `serde_json` decides.
pub uninterp spec fn json_parses(text: Seq<u8>) -> bool;

/// `std::str::from_utf8(bytes).is_ok()`: whether the bytes are UTF-8.
#[verifier::external_body]
fn is_utf8(bytes: &[u8]) -> (r: bool)
    ensures r == utf8_valid(bytes@),
{
    std::str::from_utf8(bytes).is_ok()
}

/// `serde_json::from_slice::<serde_json::Value>(text).is_ok()`: whether the
/// text is one JSON value.
#[verifier::external_body]
fn is_json_value(text: &[u8]) -> (r: bool)
    ensures r == json_parses(text@),
{
    serde_json::from_slice::<serde_json::Value>(text).is_ok()
}

// ---------------------------------------------------------------------------
// State
// ---------------------------------------------------------------------------

/// Sizes of one chunk's payload: decompressed, and as stored.
#[derive(Clone, Copy, Debug)]
pub struct ChunkStats {
    pub chunk_type: [u8; 4],
    pub original_size: u32,
    pub compressed_size: u32,
}

/// Everything a decoder accumulates while it walks a file's chunks.
pub struct DecoderState {
    pub header: DecodeState,
    pub pixel_rows: Vec<u8>,
    pub decompressed_total: u64,
    pub adam7_passes: [Vec<u8>; 7],
    pub even_pass: Vec<u8>,
    pub odd_pass: Vec<u8>,
    pub palette: Option<Palette>,
    pub idim: Option<iDim>,
    pub idim_tile_order: Option<Vec<(u16, u16)>>,
    pub tiles_seen: usize,
    pub exif: Option<Vec<u8>>,
    pub icc_profile: Option<Vec<u8>>,
    pub xmp_metadata: Option<Vec<u8>>,
    pub zstd_dictionary: Option<Vec<u8>>,
    pub chdr: Option<ChdrFields>,
    /// `(namespace, JSON text)` pairs, one per namespace.
    pub json_metadata: Vec<(Vec<u8>, Vec<u8>)>,
    pub chunk_stats: Vec<ChunkStats>,
}

/// The decoder state as values.
pub struct DecView {
    pub header: DecodeState,
    pub pixel_rows: Seq<u8>,
    pub decompressed_total: u64,
    pub adam7_passes: Seq<Seq<u8>>,
    pub even_odd_passes: Seq<Seq<u8>>,
    pub palette: Option<(Seq<PaletteEntry>, bool)>,
    pub idim: Option<iDim>,
    pub idim_tile_order: Option<Seq<(u16, u16)>>,
    pub tiles_seen: nat,
    pub exif: Option<Seq<u8>>,
    pub icc_profile: Option<Seq<u8>>,
    pub xmp_metadata: Option<Seq<u8>>,
    pub zstd_dictionary: Option<Seq<u8>>,
    pub chdr: Option<ChdrFields>,
    pub json_metadata: Seq<(Seq<u8>, Seq<u8>)>,
    pub chunk_stats: Seq<ChunkStats>,
}

pub open spec fn opt_seq(o: Option<Vec<u8>>) -> Option<Seq<u8>> {
    match o {
        Some(v) => Some(v@),
        None => None,
    }
}

pub open spec fn seqs_of(v: Seq<Vec<u8>>) -> Seq<Seq<u8>> {
    v.map_values(|x: Vec<u8>| x@)
}

pub open spec fn pairs_of(v: Seq<(Vec<u8>, Vec<u8>)>) -> Seq<(Seq<u8>, Seq<u8>)> {
    v.map_values(|p: (Vec<u8>, Vec<u8>)| (p.0@, p.1@))
}

impl View for DecoderState {
    type V = DecView;

    open spec fn view(&self) -> DecView {
        DecView {
            header: self.header,
            pixel_rows: self.pixel_rows@,
            decompressed_total: self.decompressed_total,
            adam7_passes: seqs_of(self.adam7_passes@),
            even_odd_passes: seq![self.even_pass@, self.odd_pass@],
            palette: match self.palette {
                Some(p) => Some((p.entries@, p.has_alpha)),
                None => None,
            },
            idim: self.idim,
            idim_tile_order: match self.idim_tile_order {
                Some(v) => Some(v@),
                None => None,
            },
            tiles_seen: self.tiles_seen as nat,
            exif: opt_seq(self.exif),
            icc_profile: opt_seq(self.icc_profile),
            xmp_metadata: opt_seq(self.xmp_metadata),
            zstd_dictionary: opt_seq(self.zstd_dictionary),
            chdr: self.chdr,
            json_metadata: pairs_of(self.json_metadata@),
            chunk_stats: self.chunk_stats@,
        }
    }
}

/// The state before the first chunk.
pub open spec fn initial_view() -> DecView {
    DecView {
        header: crate::header::initial_decode_state(),
        pixel_rows: Seq::empty(),
        decompressed_total: 0,
        adam7_passes: Seq::new(7, |i: int| Seq::<u8>::empty()),
        even_odd_passes: Seq::new(2, |i: int| Seq::<u8>::empty()),
        palette: None,
        idim: None,
        idim_tile_order: None,
        tiles_seen: 0,
        exif: None,
        icc_profile: None,
        xmp_metadata: None,
        zstd_dictionary: None,
        chdr: None,
        json_metadata: Seq::empty(),
        chunk_stats: Seq::empty(),
    }
}

impl DecoderState {
    /// The state before the first chunk.
    pub fn new() -> (s: DecoderState)
        ensures s@ == initial_view(),
    {
        let adam7: [Vec<u8>; 7] = [Vec::new(), Vec::new(), Vec::new(), Vec::new(), Vec::new(), Vec::new(), Vec::new()];
        assert(seqs_of(adam7@) =~= Seq::new(7, |j: int| Seq::<u8>::empty()));
        let s = DecoderState {
            header: DecodeState::default(),
            pixel_rows: Vec::new(),
            decompressed_total: 0,
            adam7_passes: adam7,
            even_pass: Vec::new(),
            odd_pass: Vec::new(),
            palette: None,
            idim: None,
            idim_tile_order: None,
            tiles_seen: 0,
            exif: None,
            icc_profile: None,
            xmp_metadata: None,
            zstd_dictionary: None,
            chdr: None,
            json_metadata: Vec::new(),
            chunk_stats: Vec::new(),
        };
        assert(s@.json_metadata =~= Seq::<(Seq<u8>, Seq<u8>)>::empty());
        assert(s@.even_odd_passes =~= Seq::new(2, |i: int| Seq::<u8>::empty()));
        s
    }
}

/// The image the two headers describe is the same: size, color type and
/// bit depth.
pub open spec fn same_image(a: DecodeState, b: DecodeState) -> bool {
    &&& a.width == b.width
    &&& a.height == b.height
    &&& a.color_type == b.color_type
    &&& a.bit_depth == b.bit_depth
}

/// `v` with one more chunk's sizes recorded (each cut to 32 bits).
pub open spec fn with_stat(v: DecView, t: [u8; 4], original: nat, compressed: nat) -> DecView {
    DecView {
        chunk_stats: v.chunk_stats.push(ChunkStats {
            chunk_type: t,
            original_size: original as u32,
            compressed_size: compressed as u32,
        }),
        ..v
    }
}

fn record_chunk_stats(state: &mut DecoderState, t: [u8; 4], original: usize, compressed: usize)
    ensures
        final(state)@ == with_stat(old(state)@, t, original as nat, compressed as nat),
        final(state).adam7_passes == old(state).adam7_passes,
{
    #[verifier::truncate]
    let o = original as u32;
    #[verifier::truncate]
    let c = compressed as u32;
    state.chunk_stats.push(ChunkStats { chunk_type: t, original_size: o, compressed_size: c });
}

/// A chunk payload decompressed under the 1 GiB ceiling.
pub open spec fn unpacked(flag: u8, data: Seq<u8>) -> Result<Seq<u8>, CafeError> {
    decompress_with_limit_spec(flag, data, None, MAX_DECOMPRESSED_CHUNK_SIZE)
}

// ---------------------------------------------------------------------------
// Ancillary chunks
// ---------------------------------------------------------------------------

/// `eXIF`: the first one is kept, decompressed.
pub open spec fn exif_step(v: DecView, flag: u8, data: Seq<u8>) -> Result<DecView, CafeError> {
    if v.exif is Some {
        Ok(v)
    } else {
        match unpacked(flag, data) {
            Err(e) => Err(e),
            Ok(d) => Ok(DecView { exif: Some(d), ..with_stat(v, CHUNK_EXIF, d.len(), data.len()) }),
        }
    }
}

/// A chunk whose payload is kept as decompressed (`iCCP`, `zDIC`): the first
/// one that decompresses is kept; one that does not is dropped.
pub open spec fn kept_payload(current: Option<Seq<u8>>, flag: u8, data: Seq<u8>) -> Option<Seq<u8>> {
    if current is Some {
        current
    } else {
        match unpacked(flag, data) {
            Err(_) => current,
            Ok(d) => Some(d),
        }
    }
}

/// `iCCP`: the first profile that decompresses is kept.
pub open spec fn iccp_step(v: DecView, flag: u8, data: Seq<u8>) -> DecView {
    if v.icc_profile is None && unpacked(flag, data) is Ok {
        DecView { icc_profile: kept_payload(v.icc_profile, flag, data),
            ..with_stat(v, CHUNK_ICCP, unpacked(flag, data)->Ok_0.len(), data.len()) }
    } else {
        v
    }
}

/// `zDIC`: the first dictionary that decompresses is kept.
pub open spec fn zdic_step(v: DecView, flag: u8, data: Seq<u8>) -> DecView {
    if v.zstd_dictionary is None && unpacked(flag, data) is Ok {
        DecView { zstd_dictionary: kept_payload(v.zstd_dictionary, flag, data),
            ..with_stat(v, CHUNK_ZDIC, unpacked(flag, data)->Ok_0.len(), data.len()) }
    } else {
        v
    }
}

/// `xMPd`: the first packet that decompresses to UTF-8 text is kept.
pub open spec fn xmpd_step(v: DecView, flag: u8, data: Seq<u8>) -> DecView {
    if v.xmp_metadata is None && unpacked(flag, data) is Ok && utf8_valid(unpacked(flag, data)->Ok_0) {
        let d = unpacked(flag, data)->Ok_0;
        DecView { xmp_metadata: Some(d), ..with_stat(v, CHUNK_XMPD, d.len(), data.len()) }
    } else {
        v
    }
}

/// `cHDR`: the first one that reads is kept; one that does not is dropped.
pub open spec fn chdr_step(v: DecView, flag: u8, data: Seq<u8>) -> DecView {
    if v.chdr is None && unpacked(flag, data) is Ok && parse_chdr_spec(unpacked(flag, data)->Ok_0) is Ok {
        DecView { chdr: Some(parse_chdr_spec(unpacked(flag, data)->Ok_0)->Ok_0), ..v }
    } else {
        v
    }
}

pub(crate) fn handle_exif_chunk(state: &mut DecoderState, flag: u8, data: &[u8]) -> (r: Result<(), CafeError>)
    ensures
        final(state).header == old(state).header,
        match exif_step(old(state)@, flag, data@) {
            Ok(v) => r is Ok && final(state)@ == v,
            Err(e) => r == Err::<(), CafeError>(e),
        },
{
    if state.exif.is_none() {
        let d = match decompress_chunk(flag, data) {
            Ok(d) => d,
            Err(e) => return Err(e),
        };
        record_chunk_stats(state, CHUNK_EXIF, d.len(), data.len());
        state.exif = Some(d);
    }
    Ok(())
}

pub(crate) fn handle_iccp_chunk(state: &mut DecoderState, flag: u8, data: &[u8])
    ensures final(state)@ == iccp_step(old(state)@, flag, data@),
{
    if state.icc_profile.is_none() {
        match decompress_chunk(flag, data) {
            Ok(d) => {
                record_chunk_stats(state, CHUNK_ICCP, d.len(), data.len());
                state.icc_profile = Some(d);
            },
            Err(_) => {},
        }
    }
}

pub(crate) fn handle_zdic_chunk(state: &mut DecoderState, flag: u8, data: &[u8])
    ensures final(state)@ == zdic_step(old(state)@, flag, data@),
{
    if state.zstd_dictionary.is_none() {
        match decompress_chunk(flag, data) {
            Ok(d) => {
                record_chunk_stats(state, CHUNK_ZDIC, d.len(), data.len());
                state.zstd_dictionary = Some(d);
            },
            Err(_) => {},
        }
    }
}

pub(crate) fn handle_xmpd_chunk(state: &mut DecoderState, flag: u8, data: &[u8])
    ensures final(state)@ == xmpd_step(old(state)@, flag, data@),
{
    if state.xmp_metadata.is_none() {
        match decompress_chunk(flag, data) {
            Ok(d) => {
                if is_utf8(d.as_slice()) {
                    record_chunk_stats(state, CHUNK_XMPD, d.len(), data.len());
                    state.xmp_metadata = Some(d);
                }
            },
            Err(_) => {},
        }
    }
}

pub(crate) fn handle_chdr_chunk(state: &mut DecoderState, flag: u8, data: &[u8])
    ensures final(state)@ == chdr_step(old(state)@, flag, data@),
{
    if state.chdr.is_none() {
        match read_chdr_chunk(flag, data) {
            Ok(c) => {
                state.chdr = Some(c);
            },
            Err(_) => {},
        }
    }
}

// ---------------------------------------------------------------------------
// jSON
// ---------------------------------------------------------------------------

/// The first of entries `0..k` with namespace `ns`.
pub open spec fn first_ns_index(entries: Seq<(Seq<u8>, Seq<u8>)>, ns: Seq<u8>, k: nat) -> Option<int>
    decreases k,
{
    if k == 0 {
        None
    } else {
        match first_ns_index(entries, ns, (k - 1) as nat) {
            Some(i) => Some(i),
            None => if entries[k - 1].0 == ns { Some(k - 1) } else { None },
        }
    }
}

/// `entries` with `(ns, text)` set: the entry of the same namespace is
/// replaced in place, else the pair is appended.
pub open spec fn json_insert(entries: Seq<(Seq<u8>, Seq<u8>)>, ns: Seq<u8>, text: Seq<u8>) -> Seq<(Seq<u8>, Seq<u8>)> {
    match first_ns_index(entries, ns, entries.len()) {
        Some(i) => entries.update(i, (ns, text)),
        None => entries.push((ns, text)),
    }
}

proof fn lemma_first_ns_index_stable(entries: Seq<(Seq<u8>, Seq<u8>)>, ns: Seq<u8>, k: nat, m: nat)
    requires k <= m, first_ns_index(entries, ns, k) is Some,
    ensures first_ns_index(entries, ns, m) == first_ns_index(entries, ns, k),
    decreases m,
{
    if k < m {
        lemma_first_ns_index_stable(entries, ns, k, (m - 1) as nat);
    }
}

/// What a decompressed `jSON` payload reads as: its namespace (length byte,
/// then UTF-8 bytes) and its UTF-8 text.
pub open spec fn json_payload_spec(d: Seq<u8>) -> Result<(Seq<u8>, Seq<u8>), CafeError> {
    if d.len() == 0 {
        Err(CafeError::TruncatedFile("jSON: empty chunk"))
    } else if d.len() < 1 + d[0] {
        Err(CafeError::TruncatedFile("jSON: namespace longer than the chunk"))
    } else {
        let ns = d.subrange(1, 1 + d[0]);
        let text = d.subrange(1 + d[0], d.len() as int);
        if !utf8_valid(ns) || !utf8_valid(text) {
            Err(CafeError::TruncatedFile("jSON: namespace or text is not UTF-8"))
        } else {
            Ok((ns, text))
        }
    }
}

/// `jSON`: each namespace keeps its last text that parses as JSON; text
/// that does not parse is dropped.
pub open spec fn json_step(v: DecView, flag: u8, data: Seq<u8>) -> Result<DecView, CafeError> {
    match unpacked(flag, data) {
        Err(e) => Err(e),
        Ok(d) => {
            let v1 = with_stat(v, CHUNK_JSON, d.len(), data.len());
            match json_payload_spec(d) {
                Err(e) => Err(e),
                Ok((ns, text)) => if json_parses(text) {
                    Ok(DecView { json_metadata: json_insert(v.json_metadata, ns, text), ..v1 })
                } else {
                    Ok(v1)
                },
            }
        },
    }
}

fn bytes_equal(a: &[u8], b: &[u8]) -> (r: bool)
    ensures r == (a@ == b@),
{
    if a.len() != b.len() {
        return false;
    }
    let mut i: usize = 0;
    while i < a.len()
        invariant i <= a@.len(), a@.len() == b@.len(), forall|t: int| 0 <= t < i ==> a@[t] == b@[t],
        decreases a@.len() - i,
    {
        if a[i] != b[i] {
            return false;
        }
        i += 1;
    }
    assert(a@ =~= b@);
    true
}

fn json_insert_exec(entries: &mut Vec<(Vec<u8>, Vec<u8>)>, ns: Vec<u8>, text: Vec<u8>)
    ensures pairs_of(final(entries)@) == json_insert(pairs_of(old(entries)@), ns@, text@),
{
    let ghost pre = pairs_of(entries@);
    let mut i: usize = 0;
    while i < entries.len()
        invariant
            i <= entries@.len(),
            pre == pairs_of(entries@),
            pre == pairs_of(old(entries)@),
            first_ns_index(pre, ns@, i as nat) is None,
        decreases entries@.len() - i,
    {
        if bytes_equal(entries[i].0.as_slice(), ns.as_slice()) {
            proof {
                assert(first_ns_index(pre, ns@, (i + 1) as nat) == Some(i as int));
                lemma_first_ns_index_stable(pre, ns@, (i + 1) as nat, pre.len());
            }
            let ghost nsv = ns@;
            let ghost tv = text@;
            entries.set(i, (ns, text));
            assert(pairs_of(entries@) =~= pre.update(i as int, (nsv, tv)));
            return;
        }
        i += 1;
    }
    entries.push((ns, text));
    assert(pairs_of(entries@) =~= pre.push((ns@, text@)));
}

pub(crate) fn handle_json_chunk(state: &mut DecoderState, flag: u8, data: &[u8]) -> (r: Result<(), CafeError>)
    ensures
        final(state).header == old(state).header,
        match json_step(old(state)@, flag, data@) {
            Ok(v) => r is Ok && final(state)@ == v,
            Err(e) => r == Err::<(), CafeError>(e),
        },
{
    let d = match decompress_chunk(flag, data) {
        Ok(d) => d,
        Err(e) => return Err(e),
    };
    record_chunk_stats(state, CHUNK_JSON, d.len(), data.len());
    if d.len() == 0 {
        return Err(CafeError::TruncatedFile("jSON: empty chunk"));
    }
    let ns_len = d[0] as usize;
    if d.len() < 1 + ns_len {
        return Err(CafeError::TruncatedFile("jSON: namespace longer than the chunk"));
    }
    let ns = crate::bytes::copy_bytes(&d.as_slice()[1..1 + ns_len]);
    let text = crate::bytes::copy_bytes(&d.as_slice()[1 + ns_len..d.len()]);
    assert(ns@ =~= d@.subrange(1, 1 + d@[0]));
    assert(text@ =~= d@.subrange(1 + d@[0], d@.len() as int));
    if !is_utf8(ns.as_slice()) || !is_utf8(text.as_slice()) {
        return Err(CafeError::TruncatedFile("jSON: namespace or text is not UTF-8"));
    }
    if is_json_value(text.as_slice()) {
        json_insert_exec(&mut state.json_metadata, ns, text);
    }
    Ok(())
}

// ---------------------------------------------------------------------------
// PLTE and iDIM
// ---------------------------------------------------------------------------

/// `PLTE`: the first palette is kept; for indexed color with a known width
/// the row size becomes that of packed indices.
pub open spec fn plte_step(v: DecView, flag: u8, data: Seq<u8>) -> Result<DecView, CafeError> {
    if v.palette is Some {
        Ok(v)
    } else {
        let v1 = match unpacked(flag, data) {
            Ok(d) => with_stat(v, CHUNK_PLTE, d.len(), data.len()),
            Err(_) => v,
        };
        match read_plte_spec(flag, data) {
            Err(e) => Err(e),
            Ok(p) => {
                let v2 = DecView { palette: Some(p), ..v1 };
                if v.header.color_type == COLOR_TYPE_INDEXED && v.header.width is Some {
                    if !packable_depth(v.header.bit_depth) {
                        Err(CafeError::UnsupportedFeature("bit_depth not allowed for packing (only 1, 2, 4, 8)", None))
                    } else {
                        Ok(DecView {
                            header: DecodeState {
                                bytes_per_row: row_bytes(v.header.width->0 as nat, v.header.bit_depth as nat) as usize,
                                ..v.header
                            },
                            ..v2
                        })
                    }
                } else {
                    Ok(v2)
                }
            },
        }
    }
}

pub(crate) fn handle_plte_chunk(state: &mut DecoderState, flag: u8, data: &[u8]) -> (r: Result<(), CafeError>)
    ensures
        same_image(final(state).header, old(state).header),
        match plte_step(old(state)@, flag, data@) {
            Ok(v) => r is Ok && final(state)@ == v,
            Err(e) => r == Err::<(), CafeError>(e),
        },
{
    if state.palette.is_none() {
        match decompress_chunk(flag, data) {
            Ok(d) => {
                record_chunk_stats(state, CHUNK_PLTE, d.len(), data.len());
            },
            Err(_) => {},
        }
        let p = match read_plte_chunk(flag, data) {
            Ok(p) => p,
            Err(e) => return Err(e),
        };
        state.palette = Some(p);
        if state.header.color_type == COLOR_TYPE_INDEXED {
            match state.header.width {
                Some(w) => {
                    let bpr = match bytes_per_row_for_bit_depth(w, state.header.bit_depth) {
                        Ok(b) => b,
                        Err(e) => return Err(e),
                    };
                    state.header.bytes_per_row = bpr;
                },
                None => {},
            }
        }
    }
    Ok(())
}

/// The decompression budget widened by one byte per tile (the filter byte
/// each predictive-filtered tile carries), saturating at `u64::MAX`.
pub open spec fn tiled_budget(budget: Option<u64>, tiles: nat) -> Option<u64> {
    match budget {
        None => None,
        Some(b) => Some(if b + tiles > u64::MAX { u64::MAX } else { (b + tiles) as u64 }),
    }
}

/// `iDIM`: the first tiling is kept, once checked against the `IHDR`
/// dimensions, with its tile visiting order; the decompression budget
/// makes room for one filter byte per tile.
pub open spec fn idim_step(v: DecView, data: Seq<u8>) -> Result<DecView, CafeError> {
    if v.idim is Some {
        Ok(v)
    } else {
        match read_idim_spec(data) {
            Err(e) => Err(e),
            Ok(d) => match check_idim_spec(d, v.header.width, v.header.height) {
                Err(e) => Err(e),
                Ok(_) => match tile_order_spec(d) {
                    Err(e) => Err(e),
                    Ok(order) => Ok(DecView {
                        idim: Some(d),
                        idim_tile_order: Some(order),
                        header: DecodeState {
                            decompress_budget: tiled_budget(v.header.decompress_budget, (d.tiles_x * d.tiles_y) as nat),
                            ..v.header
                        },
                        ..v
                    }),
                },
            },
        }
    }
}

pub(crate) fn handle_idim_chunk(state: &mut DecoderState, flag: u8, data: &[u8]) -> (r: Result<(), CafeError>)
    ensures
        same_image(final(state).header, old(state).header),
        final(state).header == (DecodeState { decompress_budget: final(state).header.decompress_budget, ..old(state).header }),
        match idim_step(old(state)@, data@) {
            Ok(v) => r is Ok && final(state)@ == v,
            Err(e) => r == Err::<(), CafeError>(e),
        },
{
    if state.idim.is_none() {
        let d = match read_idim_chunk(flag, data) {
            Ok(d) => d,
            Err(e) => return Err(e),
        };
        match check_idim(&d, state.header.width, state.header.height) {
            Ok(_) => {},
            Err(e) => return Err(e),
        }
        let order = match d.tile_order() {
            Ok(o) => o,
            Err(e) => return Err(e),
        };
        assert((d.tiles_x as u64) * (d.tiles_y as u64) <= 0xffff * 0xffff) by (nonlinear_arith)
            requires d.tiles_x <= 0xffff, d.tiles_y <= 0xffff;
        let tiles: u64 = (d.tiles_x as u64) * (d.tiles_y as u64);
        state.header.decompress_budget = match state.header.decompress_budget {
            Some(b) => Some(b.saturating_add(tiles)),
            None => None,
        };
        state.idim_tile_order = Some(order);
        state.idim = Some(d);
    }
    Ok(())
}

// ---------------------------------------------------------------------------
// IDAT
// ---------------------------------------------------------------------------

/// Decompressing an `IDAT` payload under what is left of the image's
/// decompression budget (with the `zDIC` dictionary when there is one).
pub open spec fn idat_unpack_step(v: DecView, flag: u8, data: Seq<u8>) -> Result<(DecView, Seq<u8>), CafeError> {
    match v.header.decompress_budget {
        None => Err(CafeError::TruncatedFile("IDAT before IHDR")),
        Some(budget) => {
            let remaining: u64 = if budget >= v.decompressed_total { (budget - v.decompressed_total) as u64 } else { 0 };
            match decompress_with_limit_spec(flag, data, v.zstd_dictionary, remaining) {
                Err(e) => Err(e),
                Ok(d) => if v.decompressed_total + d.len() > u64::MAX {
                    Err(CafeError::TruncatedFile("decompressed byte count overflows"))
                } else {
                    Ok((DecView {
                        decompressed_total: (v.decompressed_total + d.len()) as u64,
                        ..with_stat(v, CHUNK_IDAT, d.len(), data.len())
                    }, d))
                },
            }
        },
    }
}

pub(crate) fn decompress_idat_payload(state: &mut DecoderState, flag: u8, data: &[u8]) -> (r: Result<Vec<u8>, CafeError>)
    ensures
        final(state).header == old(state).header,
        final(state).adam7_passes == old(state).adam7_passes,
        match idat_unpack_step(old(state)@, flag, data@) {
            Ok((v, d)) => r matches Ok(out) && out@ == d && final(state)@ == v,
            Err(e) => r == Err::<Vec<u8>, CafeError>(e),
        },
{
    let budget = match state.header.decompress_budget {
        Some(b) => b,
        None => return Err(CafeError::TruncatedFile("IDAT before IHDR")),
    };
    let remaining: u64 = if budget >= state.decompressed_total { budget - state.decompressed_total } else { 0 };
    let d = match &state.zstd_dictionary {
        Some(dict) => decompress_chunk_dict_limited(flag, data, Some(dict.as_slice()), remaining),
        None => decompress_chunk_dict_limited(flag, data, None, remaining),
    };
    let d = match d {
        Ok(d) => d,
        Err(e) => return Err(e),
    };
    if d.len() as u128 + state.decompressed_total as u128 > u64::MAX as u128 {
        return Err(CafeError::TruncatedFile("decompressed byte count overflows"));
    }
    state.decompressed_total = state.decompressed_total + d.len() as u64;
    record_chunk_stats(state, CHUNK_IDAT, d.len(), data.len());
    Ok(d)
}

/// An interlaced `IDAT`: a pass number byte, then that pass's data. An
/// Adam7 pass replaces what the pass held; an even/odd pass is appended to.
pub open spec fn interlaced_step(v: DecView, d: Seq<u8>) -> Result<DecView, CafeError> {
    if d.len() == 0 {
        Err(CafeError::UnsupportedFeature("interlaced IDAT without a pass number", None))
    } else if v.header.interlace_method_read == INTERLACE_ADAM7 {
        if d[0] == 0 || d[0] > 7 {
            Err(CafeError::UnsupportedFeature("invalid Adam7 pass number", None))
        } else {
            Ok(DecView { adam7_passes: v.adam7_passes.update(d[0] - 1, d.skip(1)), ..v })
        }
    } else if d[0] == 0 || d[0] > 2 {
        Err(CafeError::UnsupportedFeature("invalid even/odd pass number", None))
    } else {
        Ok(DecView { even_odd_passes: v.even_odd_passes.update(d[0] - 1, v.even_odd_passes[d[0] - 1] + d.skip(1)), ..v })
    }
}

fn handle_interlaced_idat(state: &mut DecoderState, d: Vec<u8>) -> (r: Result<(), CafeError>)
    ensures
        match interlaced_step(old(state)@, d@) {
            Ok(v) => r is Ok && final(state)@ == v,
            Err(e) => r == Err::<(), CafeError>(e),
        },
{
    if d.len() == 0 {
        return Err(CafeError::UnsupportedFeature("interlaced IDAT without a pass number", None));
    }
    let pass = d[0];
    if state.header.interlace_method_read == INTERLACE_ADAM7 {
        if pass == 0 || pass > 7 {
            return Err(CafeError::UnsupportedFeature("invalid Adam7 pass number", None));
        }
        let data = crate::bytes::copy_bytes(&d.as_slice()[1..d.len()]);
        assert(data@ =~= d@.skip(1));
        let ghost pre = state@;
        state.adam7_passes[(pass - 1) as usize] = data;
        assert(state@.adam7_passes =~= pre.adam7_passes.update(pass - 1, d@.skip(1)));
    } else {
        if pass == 0 || pass > 2 {
            return Err(CafeError::UnsupportedFeature("invalid even/odd pass number", None));
        }
        let ghost pre = state@;
        let tail = &d.as_slice()[1..d.len()];
        assert(tail@ =~= d@.skip(1));
        if pass == 1 {
            append_bytes(&mut state.even_pass, tail);
        } else {
            append_bytes(&mut state.odd_pass, tail);
        }
        assert(state@.even_odd_passes =~= pre.even_odd_passes.update(pass - 1, pre.even_odd_passes[pass - 1] + d@.skip(1)));
    }
    Ok(())
}

/// Undoing the row filters of a row-strip payload of `bpp`-byte pixels:
/// byte-shuffle first, then the block predictive filter (one filter byte);
/// yields the raw rows and their count. The per-row predictive method is
/// not decoded.
pub open spec fn tile_filters_spec(v: DecView, payload: Seq<u8>, bpp: nat) -> Result<(Seq<u8>, nat), CafeError> {
    match v.header.width {
        None => Err(CafeError::MissingIhdr),
        Some(w) => {
            let bpr = v.header.bytes_per_row as nat;
            let fm = v.header.filter_method;
            if bpr == 0 {
                Err(CafeError::TruncatedFile("image rows have no bytes"))
            } else {
                let p2 = if fm == FILTER_METHOD_BYTE_SHUFFLE {
                    shuffle_result(payload, bpp, w as nat, ((payload.len() / bpr) as u32) as nat, false)
                } else {
                    Ok(payload)
                };
                match p2 {
                    Err(e) => Err(e),
                    Ok(p) => if fm == FILTER_METHOD_PREDICTIVE {
                        let th: nat = if p.len() == 0 { 0 } else { ((p.len() - 1) as nat / bpr) as nat };
                        if bpr > usize::MAX / 4 {
                            Err(CafeError::TruncatedFile("row too long for the predictive filter"))
                        } else {
                            match undo_predictive_filter_spec(p, th, bpr, bpp) {
                                Err(e) => Err(e),
                                Ok(raw) => Ok((raw, th)),
                            }
                        }
                    } else if fm == FILTER_METHOD_PREDICTIVE_PER_ROW {
                        Err(CafeError::UnsupportedFeature("per-row predictive filter (filter_method=3) not supported in this tile layout", None))
                    } else {
                        Ok((p, p.len() / bpr))
                    },
                }
            }
        },
    }
}

pub(crate) fn undo_tile_filters(state: &DecoderState, payload: Vec<u8>, bpp: usize) -> (r: Result<(Vec<u8>, usize), CafeError>)
    requires 1 <= bpp <= 16,
    ensures
        match tile_filters_spec(state@, payload@, bpp as nat) {
            Ok((raw, th)) => r matches Ok((out, n)) && out@ == raw && n == th,
            Err(e) => r == Err::<(Vec<u8>, usize), CafeError>(e),
        },
{
    let w = match state.header.width {
        Some(w) => w,
        None => return Err(CafeError::MissingIhdr),
    };
    let bpr = state.header.bytes_per_row;
    let fm = state.header.filter_method;
    if bpr == 0 {
        return Err(CafeError::TruncatedFile("image rows have no bytes"));
    }
    let p = if fm == FILTER_METHOD_BYTE_SHUFFLE {
        #[verifier::truncate]
        let th = (payload.len() / bpr) as u32;
        match undo_byte_shuffle(payload.as_slice(), bpp, w, th) {
            Ok(p) => p,
            Err(e) => return Err(e),
        }
    } else {
        payload
    };
    if fm == FILTER_METHOD_PREDICTIVE {
        let th: usize = if p.len() == 0 { 0 } else { (p.len() - 1) / bpr };
        if bpr > usize::MAX / 4 {
            return Err(CafeError::TruncatedFile("row too long for the predictive filter"));
        }
        match undo_predictive_filter(p.as_slice(), th, bpr, bpp) {
            Ok(raw) => Ok((raw, th)),
            Err(e) => Err(e),
        }
    } else if fm == FILTER_METHOD_PREDICTIVE_PER_ROW {
        Err(CafeError::UnsupportedFeature("per-row predictive filter (filter_method=3) not supported in this tile layout", None))
    } else {
        let n = p.len() / bpr;
        Ok((p, n))
    }
}

/// Appending `k` packed index rows (of `bpr` bytes each, unpacked to `w`
/// indices) to `acc`, never beyond `expected` indices in all.
pub open spec fn indexed_rows(acc: Seq<u8>, packed: Seq<u8>, bd: u8, w: nat, bpr: nat, expected: nat, k: nat) -> Result<Seq<u8>, CafeError>
    decreases k,
{
    if k == 0 {
        Ok(acc)
    } else {
        match indexed_rows(acc, packed, bd, w, bpr, expected, (k - 1) as nat) {
            Err(e) => Err(e),
            Ok(a) => if k * bpr > packed.len() {
                Err(CafeError::TruncatedFile("index rows shorter than the tile"))
            } else {
                match unpack_row_spec(packed.subrange((k - 1) * bpr, (k * bpr) as int), bd, w) {
                    Err(e) => Err(e),
                    Ok(ix) => if a.len() + ix.len() > expected { Err(CafeError::TruncatedFile("more indices than the image holds")) } else { Ok(a + ix) },
                }
            },
        }
    }
}

proof fn lemma_indexed_rows_err(acc: Seq<u8>, packed: Seq<u8>, bd: u8, w: nat, bpr: nat, expected: nat, k: nat, m: nat)
    requires k <= m, indexed_rows(acc, packed, bd, w, bpr, expected, k) is Err,
    ensures indexed_rows(acc, packed, bd, w, bpr, expected, m) == indexed_rows(acc, packed, bd, w, bpr, expected, k),
    decreases m,
{
    if k < m {
        lemma_indexed_rows_err(acc, packed, bd, w, bpr, expected, k, (m - 1) as nat);
    }
}

/// A row-strip `IDAT` of an indexed image: needs a palette; the unfiltered
/// rows are unpacked to one index per byte and appended, never beyond
/// `width * height` indices.
pub open spec fn indexed_step(v: DecView, payload: Seq<u8>) -> Result<DecView, CafeError> {
    if v.palette is None {
        Err(CafeError::TruncatedFile("Color type=3 requires PLTE chunk before first IDAT"))
    } else {
        match tile_filters_spec(v, payload, 1) {
            Err(e) => Err(e),
            Ok((packed, th)) => {
                let w = v.header.width->0 as nat;
                match v.header.height {
                    None => Err(CafeError::MissingIhdr),
                    Some(h) => if w * h > usize::MAX {
                        Err(CafeError::TruncatedFile("image dimensions overflow"))
                    } else {
                        match indexed_rows(v.pixel_rows, packed, v.header.bit_depth, w, v.header.bytes_per_row as nat, (w * h) as nat, th) {
                            Err(e) => Err(e),
                            Ok(rows) => Ok(DecView { pixel_rows: rows, ..v }),
                        }
                    },
                }
            },
        }
    }
}

fn handle_idat_indexed(state: &mut DecoderState, payload: Vec<u8>) -> (r: Result<(), CafeError>)
    ensures
        final(state).adam7_passes == old(state).adam7_passes,
        match indexed_step(old(state)@, payload@) {
            Ok(v) => r is Ok && final(state)@ == v,
            Err(e) => r == Err::<(), CafeError>(e),
        },
{
    if state.palette.is_none() {
        return Err(CafeError::TruncatedFile("Color type=3 requires PLTE chunk before first IDAT"));
    }
    let (packed, th) = match undo_tile_filters(state, payload, 1) {
        Ok(x) => x,
        Err(e) => return Err(e),
    };
    let w = match state.header.width {
        Some(w) => w as usize,
        None => return Err(CafeError::MissingIhdr),
    };
    let h = match state.header.height {
        Some(h) => h as usize,
        None => return Err(CafeError::MissingIhdr),
    };
    assert((w as u128) * (h as u128) <= 0xffff_ffff * 0xffff_ffff) by (nonlinear_arith)
        requires w <= 0xffff_ffff, h <= 0xffff_ffff;
    if (w as u128) * (h as u128) > usize::MAX as u128 {
        return Err(CafeError::TruncatedFile("image dimensions overflow"));
    }
    let expected = w * h;
    let bpr = state.header.bytes_per_row;
    let bd = state.header.bit_depth;
    let ghost acc0 = state.pixel_rows@;
    let ghost pre = state@;
    let ghost total = indexed_rows(acc0, packed@, bd, w as nat, bpr as nat, expected as nat, th as nat);
    assert(indexed_step(pre, payload@) == match total {
        Err(e) => Err(e),
        Ok(rows) => Ok::<DecView, CafeError>(DecView { pixel_rows: rows, ..pre }),
    });
    let mut r: usize = 0;
    while r < th
        invariant
            r <= th,
            indexed_rows(acc0, packed@, bd, w as nat, bpr as nat, expected as nat, r as nat) == Ok::<Seq<u8>, CafeError>(state.pixel_rows@),
            total == indexed_rows(acc0, packed@, bd, w as nat, bpr as nat, expected as nat, th as nat),
            state@ == (DecView { pixel_rows: state.pixel_rows@, ..pre }),
            state.adam7_passes == old(state).adam7_passes,
            indexed_step(old(state)@, payload@) == match total {
                Err(e) => Err(e),
                Ok(rows) => Ok::<DecView, CafeError>(DecView { pixel_rows: rows, ..pre }),
            },
        ensures
            total == Ok::<Seq<u8>, CafeError>(state.pixel_rows@),
            state@ == (DecView { pixel_rows: state.pixel_rows@, ..pre }),
            state.adam7_passes == old(state).adam7_passes,
        decreases th - r,
    {
        assert((r as u128 + 1) * (bpr as u128) <= 0x1_0000_0000_0000_0000 * 0xffff_ffff_ffff_ffff) by (nonlinear_arith)
            requires r < 0xffff_ffff_ffff_ffff, bpr <= 0xffff_ffff_ffff_ffff;
        if (r as u128 + 1) * (bpr as u128) > packed.len() as u128 {
            proof {
                lemma_indexed_rows_err(acc0, packed@, bd, w as nat, bpr as nat, expected as nat, (r + 1) as nat, th as nat);
            }
            return Err(CafeError::TruncatedFile("index rows shorter than the tile"));
        }
        assert((r + 1) * bpr == r * bpr + bpr) by (nonlinear_arith);
        let start = r * bpr;
        let end = start + bpr;
        let row = &packed.as_slice()[start..end];
        assert(row@ =~= packed@.subrange(r * bpr, (r + 1) * bpr));
        let ix = match unpack_indices_row(row, bd, w) {
            Ok(ix) => ix,
            Err(e) => {
                proof {
                    lemma_indexed_rows_err(acc0, packed@, bd, w as nat, bpr as nat, expected as nat, (r + 1) as nat, th as nat);
                }
                return Err(e);
            },
        };
        if state.pixel_rows.len() as u128 + ix.len() as u128 > expected as u128 {
            proof {
                lemma_indexed_rows_err(acc0, packed@, bd, w as nat, bpr as nat, expected as nat, (r + 1) as nat, th as nat);
            }
            return Err(CafeError::TruncatedFile("more indices than the image holds"));
        }
        append_bytes(&mut state.pixel_rows, ix.as_slice());
        r += 1;
    }
    Ok(())
}

/// A row-strip `IDAT` of a direct-color image: the unfiltered rows are
/// appended, never beyond `bytes_per_row * height` bytes.
pub open spec fn direct_step(v: DecView, payload: Seq<u8>) -> Result<DecView, CafeError> {
    match bytes_per_pixel_spec(v.header.color_type, v.header.bit_depth) {
        None => Err(CafeError::UnsupportedFeature("color type and bit depth not supported together", None)),
        Some(bpp) => match tile_filters_spec(v, payload, bpp as nat) {
            Err(e) => Err(e),
            Ok((raw, _)) => match v.header.height {
                None => Err(CafeError::MissingIhdr),
                Some(h) => {
                    let expected = v.header.bytes_per_row * h;
                    if expected > usize::MAX || v.pixel_rows.len() + raw.len() > expected {
                        Err(CafeError::TruncatedFile("more pixel data than the image holds"))
                    } else {
                        Ok(DecView { pixel_rows: v.pixel_rows + raw, ..v })
                    }
                },
            },
        },
    }
}

fn handle_idat_direct_color(state: &mut DecoderState, payload: Vec<u8>) -> (r: Result<(), CafeError>)
    ensures
        final(state).adam7_passes == old(state).adam7_passes,
        match direct_step(old(state)@, payload@) {
            Ok(v) => r is Ok && final(state)@ == v,
            Err(e) => r == Err::<(), CafeError>(e),
        },
{
    let bpp = match bytes_per_pixel(state.header.color_type, state.header.bit_depth) {
        Some(b) => b,
        None => return Err(CafeError::UnsupportedFeature("color type and bit depth not supported together", None)),
    };
    let (raw, _th) = match undo_tile_filters(state, payload, bpp) {
        Ok(x) => x,
        Err(e) => return Err(e),
    };
    let h = match state.header.height {
        Some(h) => h as usize,
        None => return Err(CafeError::MissingIhdr),
    };
    let bpr = state.header.bytes_per_row;
    assert((bpr as u128) * (h as u128) <= 0xffff_ffff_ffff_ffff * 0xffff_ffff) by (nonlinear_arith)
        requires bpr <= 0xffff_ffff_ffff_ffff, h <= 0xffff_ffff;
    if (bpr as u128) * (h as u128) > usize::MAX as u128 {
        return Err(CafeError::TruncatedFile("more pixel data than the image holds"));
    }
    let expected = bpr * h;
    if state.pixel_rows.len() as u128 + raw.len() as u128 > expected as u128 {
        return Err(CafeError::TruncatedFile("more pixel data than the image holds"));
    }
    append_bytes(&mut state.pixel_rows, raw.as_slice());
    Ok(())
}

/// The next tile of a tiled image, unfiltered: its grid position, size and
/// raw bytes, with the tile counter advanced.
pub open spec fn idim_tile_raw_spec(v: DecView, payload: Seq<u8>) -> Result<(DecView, (u16, u16, nat, nat, Seq<u8>)), CafeError> {
    match v.idim {
        None => Err(CafeError::TruncatedFile("iDIM tile handler invoked without iDIM chunk")),
        Some(d) => if v.header.color_type == COLOR_TYPE_INDEXED || v.header.bit_depth < 8 {
            Err(CafeError::UnsupportedFeature("iDIM (2D tiling) needs direct color with bit_depth >= 8 in decode", None))
        } else {
            match bytes_per_pixel_spec(v.header.color_type, v.header.bit_depth) {
                None => Err(CafeError::UnsupportedFeature("color type and bit depth not supported together", None)),
                Some(bpp) => if v.header.width is None || v.header.height is None {
                    Err(CafeError::MissingIhdr)
                } else if v.tiles_seen >= d.tiles_x * d.tiles_y {
                    Err(CafeError::TruncatedFile("Excess IDAT: more tiles than the iDIM grid holds"))
                } else {
                    match v.idim_tile_order {
                        None => Err(CafeError::TruncatedFile("iDIM tile order not computed (internal error)")),
                        Some(order) => if v.tiles_seen >= order.len() {
                            Err(CafeError::TruncatedFile("iDIM tile order index out of range"))
                        } else {
                            let (tx, ty) = order[v.tiles_seen as int];
                            let v1 = DecView { tiles_seen: v.tiles_seen + 1, ..v };
                            let tw = tile_extent(tx as int, d.tile_width as int, v.header.width->0 as int) as nat;
                            let th = tile_extent(ty as int, d.tile_height as int, v.header.height->0 as int) as nat;
                            let stride: nat = tw * (bpp as nat);
                            let fm = v.header.filter_method;
                            if stride > usize::MAX {
                                Err(CafeError::UnsupportedFeature("overflow in tile stride (iDIM)", None))
                            } else {
                                let raw = if fm == FILTER_METHOD_BYTE_SHUFFLE {
                                    shuffle_result(payload, bpp as nat, tw, th, false)
                                } else if fm == FILTER_METHOD_PREDICTIVE {
                                    let est: nat = if payload.len() == 0 { 0 } else {
                                        ((payload.len() - 1) as nat / (if stride == 0 { 1nat } else { stride })) as nat
                                    };
                                    if est != th || stride > usize::MAX / 4 {
                                        Err(CafeError::TruncatedFile("tile with inconsistent height (iDIM)"))
                                    } else {
                                        undo_predictive_filter_spec(payload, th, stride, bpp as nat)
                                    }
                                } else if fm == FILTER_METHOD_PREDICTIVE_PER_ROW {
                                    Err(CafeError::UnsupportedFeature("Predictive per-row (filter_method=3) is incompatible with iDIM (2D tiling)", None))
                                } else {
                                    Ok(payload)
                                };
                                match raw {
                                    Err(e) => Err(e),
                                    Ok(raw) => if stride * th > usize::MAX || raw.len() != stride * th {
                                        Err(CafeError::TruncatedFile("tile with unexpected size (iDIM)"))
                                    } else {
                                        Ok((v1, (tx, ty, tw, th, raw)))
                                    },
                                }
                            }
                        },
                    }
                },
            }
        },
    }
}

/// `buf` with `raw`'s row `r` (of `stride` bytes) copied to row `row0 + r`
/// (of `bpr` bytes), `cb` bytes in, for the first `k` rows; the copy must
/// fall inside `buf`.
pub open spec fn place_rows(buf: Seq<u8>, raw: Seq<u8>, row0: nat, cb: nat, bpr: nat, stride: nat, k: nat) -> Result<Seq<u8>, CafeError>
    decreases k,
{
    if k == 0 {
        Ok(buf)
    } else {
        match place_rows(buf, raw, row0, cb, bpr, stride, (k - 1) as nat) {
            Err(e) => Err(e),
            Ok(b) => {
                let r = (k - 1) as nat;
                let dst = (row0 + r) * bpr + cb;
                if dst > usize::MAX || dst + stride > b.len() {
                    Err(CafeError::TruncatedFile("tile exceeds image buffer (iDIM)"))
                } else {
                    Ok(b.subrange(0, dst as int) + raw.subrange((r * stride) as int, (r * stride + stride) as int)
                        + b.subrange((dst + stride) as int, b.len() as int))
                }
            },
        }
    }
}

/// A tile `IDAT` of a tiled image: the image buffer is allocated (zeroed)
/// on the first tile, then the next tile in visiting order is unfiltered
/// and copied to its place.
pub open spec fn tile_idim_step(v: DecView, payload: Seq<u8>) -> Result<DecView, CafeError> {
    match v.idim {
        None => Err(CafeError::TruncatedFile("iDIM tile handler invoked without iDIM chunk")),
        Some(d) => match bytes_per_pixel_spec(v.header.color_type, v.header.bit_depth) {
            None => Err(CafeError::UnsupportedFeature("color type and bit depth not supported together", None)),
            Some(bpp) => match v.header.height {
                None => Err(CafeError::MissingIhdr),
                Some(h) => {
                    let full = v.header.bytes_per_row * h;
                    if full > usize::MAX {
                        Err(CafeError::TruncatedFile("overflow in bytes_per_row x height (iDIM)"))
                    } else {
                        let rows0 = if v.pixel_rows.len() == 0 { Seq::new(full as nat, |i: int| 0u8) } else { v.pixel_rows };
                        if rows0.len() != full {
                            Err(CafeError::TruncatedFile("tile buffer inconsistent with IHDR (iDIM)"))
                        } else {
                            match idim_tile_raw_spec(DecView { pixel_rows: rows0, ..v }, payload) {
                                Err(e) => Err(e),
                                Ok((v1, (tx, ty, tw, th, raw))) => match place_rows(
                                    rows0, raw, (ty * d.tile_height) as nat, (tx * d.tile_width * bpp) as nat,
                                    v.header.bytes_per_row as nat, tw * (bpp as nat), th,
                                ) {
                                    Err(e) => Err(e),
                                    Ok(buf) => Ok(DecView { pixel_rows: buf, ..v1 }),
                                },
                            }
                        }
                    }
                },
            },
        },
    }
}

/// The next tile of a tiled image, unfiltered, as `idim_tile_raw_spec`
/// says: the tile counter moves on only when the tile is returned.
pub(crate) fn decode_idim_tile_raw(state: &mut DecoderState, payload: Vec<u8>) -> (r: Result<(u16, u16, u32, u32, Vec<u8>), CafeError>)
    ensures
        final(state).header == old(state).header,
        final(state).adam7_passes == old(state).adam7_passes,
        match idim_tile_raw_spec(old(state)@, payload@) {
            Ok((v, (tx, ty, tw, th, raw))) => r matches Ok(t) && t.0 == tx && t.1 == ty && t.2 == tw && t.3 == th
                && t.4@ == raw && final(state)@ == v,
            Err(e) => r == Err::<(u16, u16, u32, u32, Vec<u8>), CafeError>(e) && final(state)@ == old(state)@,
        },
{
    let d = match state.idim {
        Some(d) => d,
        None => return Err(CafeError::TruncatedFile("iDIM tile handler invoked without iDIM chunk")),
    };
    if state.header.color_type == COLOR_TYPE_INDEXED || state.header.bit_depth < 8 {
        return Err(CafeError::UnsupportedFeature("iDIM (2D tiling) needs direct color with bit_depth >= 8 in decode", None));
    }
    let bpp = match bytes_per_pixel(state.header.color_type, state.header.bit_depth) {
        Some(b) => b,
        None => return Err(CafeError::UnsupportedFeature("color type and bit depth not supported together", None)),
    };
    let (w, h) = match (state.header.width, state.header.height) {
        (Some(w), Some(h)) => (w, h),
        _ => return Err(CafeError::MissingIhdr),
    };
    assert((d.tiles_x as u64) * (d.tiles_y as u64) <= 0xffff * 0xffff) by (nonlinear_arith)
        requires d.tiles_x <= 0xffff, d.tiles_y <= 0xffff;
    let count: u64 = (d.tiles_x as u64) * (d.tiles_y as u64);
    if state.tiles_seen as u64 >= count {
        return Err(CafeError::TruncatedFile("Excess IDAT: more tiles than the iDIM grid holds"));
    }
    let (tx, ty) = match &state.idim_tile_order {
        None => return Err(CafeError::TruncatedFile("iDIM tile order not computed (internal error)")),
        Some(order) => {
            if state.tiles_seen >= order.len() {
                return Err(CafeError::TruncatedFile("iDIM tile order index out of range"));
            }
            order[state.tiles_seen]
        },
    };
    let (tw, th) = d.tile_dimensions(tx, ty, w, h);
    assert((tw as u128) * (bpp as u128) <= 0xffff_ffff * 16) by (nonlinear_arith)
        requires tw <= 0xffff_ffff, bpp <= 16;
    if (tw as u128) * (bpp as u128) > usize::MAX as u128 {
        return Err(CafeError::UnsupportedFeature("overflow in tile stride (iDIM)", None));
    }
    let stride = (tw as usize) * bpp;
    let fm = state.header.filter_method;
    let raw = if fm == FILTER_METHOD_BYTE_SHUFFLE {
        match undo_byte_shuffle(payload.as_slice(), bpp, tw, th) {
            Ok(x) => x,
            Err(e) => return Err(e),
        }
    } else if fm == FILTER_METHOD_PREDICTIVE {
        let div = if stride == 0 { 1 } else { stride };
        let est: usize = if payload.len() == 0 { 0 } else { (payload.len() - 1) / div };
        if est != th as usize || stride > usize::MAX / 4 {
            return Err(CafeError::TruncatedFile("tile with inconsistent height (iDIM)"));
        }
        match undo_predictive_filter(payload.as_slice(), th as usize, stride, bpp) {
            Ok(x) => x,
            Err(e) => return Err(e),
        }
    } else if fm == FILTER_METHOD_PREDICTIVE_PER_ROW {
        return Err(CafeError::UnsupportedFeature("Predictive per-row (filter_method=3) is incompatible with iDIM (2D tiling)", None));
    } else {
        payload
    };
    assert((stride as u128) * (th as u128) <= 0xffff_ffff_ffff_ffff * 0xffff_ffff) by (nonlinear_arith)
        requires stride <= 0xffff_ffff_ffff_ffff, th <= 0xffff_ffff;
    if (stride as u128) * (th as u128) > usize::MAX as u128 || raw.len() != stride * (th as usize) {
        return Err(CafeError::TruncatedFile("tile with unexpected size (iDIM)"));
    }
    state.tiles_seen = state.tiles_seen + 1;
    Ok((tx, ty, tw, th, raw))
}

proof fn lemma_place_rows_err(buf: Seq<u8>, raw: Seq<u8>, row0: nat, cb: nat, bpr: nat, stride: nat, k: nat, m: nat)
    requires k <= m, place_rows(buf, raw, row0, cb, bpr, stride, k) is Err,
    ensures place_rows(buf, raw, row0, cb, bpr, stride, m) == place_rows(buf, raw, row0, cb, bpr, stride, k),
    decreases m,
{
    if k < m {
        lemma_place_rows_err(buf, raw, row0, cb, bpr, stride, k, (m - 1) as nat);
    }
}

proof fn lemma_place_rows_len(buf: Seq<u8>, raw: Seq<u8>, row0: nat, cb: nat, bpr: nat, stride: nat, k: nat)
    requires raw.len() >= k * stride,
    ensures place_rows(buf, raw, row0, cb, bpr, stride, k) matches Ok(b) ==> b.len() == buf.len(),
    decreases k,
{
    if k > 0 {
        assert(raw.len() >= (k - 1) * stride) by (nonlinear_arith) requires raw.len() >= k * stride, k >= 1;
        lemma_place_rows_len(buf, raw, row0, cb, bpr, stride, (k - 1) as nat);
        assert((k - 1) * stride + stride == k * stride) by (nonlinear_arith);
    }
}

fn handle_idat_tile_idim(state: &mut DecoderState, payload: Vec<u8>) -> (r: Result<(), CafeError>)
    ensures
        final(state).adam7_passes == old(state).adam7_passes,
        match tile_idim_step(old(state)@, payload@) {
            Ok(v) => r is Ok && final(state)@ == v,
            Err(e) => r == Err::<(), CafeError>(e),
        },
{
    let d = match state.idim {
        Some(d) => d,
        None => return Err(CafeError::TruncatedFile("iDIM tile handler invoked without iDIM chunk")),
    };
    let bpp = match bytes_per_pixel(state.header.color_type, state.header.bit_depth) {
        Some(b) => b,
        None => return Err(CafeError::UnsupportedFeature("color type and bit depth not supported together", None)),
    };
    let h = match state.header.height {
        Some(h) => h as usize,
        None => return Err(CafeError::MissingIhdr),
    };
    let bpr = state.header.bytes_per_row;
    assert((bpr as u128) * (h as u128) <= 0xffff_ffff_ffff_ffff * 0xffff_ffff) by (nonlinear_arith)
        requires bpr <= 0xffff_ffff_ffff_ffff, h <= 0xffff_ffff;
    if (bpr as u128) * (h as u128) > usize::MAX as u128 {
        return Err(CafeError::TruncatedFile("overflow in bytes_per_row x height (iDIM)"));
    }
    let full = bpr * h;
    let ghost v0 = state@;
    if state.pixel_rows.len() == 0 {
        let z: Vec<u8> = vec![0u8; full];
        assert(z@ =~= Seq::new(full as nat, |i: int| 0u8));
        state.pixel_rows = z;
    }
    if state.pixel_rows.len() != full {
        return Err(CafeError::TruncatedFile("tile buffer inconsistent with IHDR (iDIM)"));
    }
    let ghost rows0 = state.pixel_rows@;
    assert(state@ == (DecView { pixel_rows: rows0, ..v0 }));
    let (tx, ty, tw, th, raw) = match decode_idim_tile_raw(state, payload) {
        Ok(t) => t,
        Err(e) => return Err(e),
    };
    let ghost v1 = state@;
    let stride = (tw as usize) * bpp;
    assert((ty as u64) * (d.tile_height as u64) <= 0xffff * 0xffff) by (nonlinear_arith)
        requires ty <= 0xffff, d.tile_height <= 0xffff;
    let row0: u64 = (ty as u64) * (d.tile_height as u64);
    assert((tx as u128) * (d.tile_width as u128) <= 0xffff * 0xffff) by (nonlinear_arith)
        requires tx <= 0xffff, d.tile_width <= 0xffff;
    let cx: u128 = (tx as u128) * (d.tile_width as u128);
    assert(cx * (bpp as u128) <= 0xffff * 0xffff * 16) by (nonlinear_arith)
        requires cx <= 0xffff * 0xffff, bpp <= 16;
    let cb: u128 = cx * (bpp as u128);
    let ghost spec_row0 = (ty * d.tile_height) as nat;
    let ghost spec_cb = (tx * d.tile_width * bpp) as nat;
    let ghost total = place_rows(rows0, raw@, spec_row0, spec_cb, bpr as nat, stride as nat, th as nat);
    proof {
        assert(th * stride == stride * th) by (nonlinear_arith);
        lemma_place_rows_len(rows0, raw@, spec_row0, spec_cb, bpr as nat, stride as nat, th as nat);
    }
    let rl = raw.len();
    let mut r: u32 = 0;
    while r < th
        invariant
            r <= th,
            raw@.len() == stride * th,
            row0 == spec_row0, cb == spec_cb, row0 <= 0xffff * 0xffff, cb <= 0xffff * 0xffff * 16,
            rl == raw@.len(),
            bpr == state.header.bytes_per_row,
            stride <= usize::MAX,
            place_rows(rows0, raw@, spec_row0, spec_cb, bpr as nat, stride as nat, r as nat) == Ok::<Seq<u8>, CafeError>(state.pixel_rows@),
            total == place_rows(rows0, raw@, spec_row0, spec_cb, bpr as nat, stride as nat, th as nat),
            state@ == (DecView { pixel_rows: state.pixel_rows@, ..v1 }),
            state.adam7_passes == old(state).adam7_passes,
            tile_idim_step(old(state)@, payload@) == match total {
                Err(e) => Err(e),
                Ok(buf) => Ok::<DecView, CafeError>(DecView { pixel_rows: buf, ..v1 }),
            },
        ensures
            total == Ok::<Seq<u8>, CafeError>(state.pixel_rows@),
            state@ == (DecView { pixel_rows: state.pixel_rows@, ..v1 }),
            state.adam7_passes == old(state).adam7_passes,
            tile_idim_step(old(state)@, payload@) == match total {
                Err(e) => Err(e),
                Ok(buf) => Ok::<DecView, CafeError>(DecView { pixel_rows: buf, ..v1 }),
            },
        decreases th - r,
    {
        assert(((row0 as u128) + (r as u128)) * (bpr as u128) <= 0x2_0000_0000 * 0xffff_ffff_ffff_ffff) by (nonlinear_arith)
            requires row0 <= 0xffff * 0xffff, r <= 0xffff_ffff, bpr <= 0xffff_ffff_ffff_ffff;
        let a: u128 = (row0 as u128) + (r as u128);
        assert(a * (bpr as u128) <= 0x2_0000_0000 * 0xffff_ffff_ffff_ffff) by (nonlinear_arith)
            requires a <= 0x2_0000_0000, bpr <= 0xffff_ffff_ffff_ffff;
        let m: u128 = a * (bpr as u128);
        let dst: u128 = m + cb;
        if dst > usize::MAX as u128 || dst + stride as u128 > state.pixel_rows.len() as u128 {
            proof {
                lemma_place_rows_err(rows0, raw@, spec_row0, spec_cb, bpr as nat, stride as nat, (r + 1) as nat, th as nat);
            }
            return Err(CafeError::TruncatedFile("tile exceeds image buffer (iDIM)"));
        }
        assert((r as int) * stride + stride == (r + 1) * stride) by (nonlinear_arith);
        assert((r + 1) * stride <= stride * th) by (nonlinear_arith) requires r + 1 <= th;
        assert((r as int) * stride + stride <= raw@.len());
        let ru = r as usize;
        assert(ru * stride + stride <= raw@.len());
        let start = ru * stride;
        let src = &raw.as_slice()[start..start + stride];
        assert(src@ =~= raw@.subrange(r * stride, r * stride + stride));
        copy_into(&mut state.pixel_rows, dst as usize, src);
        r += 1;
    }
    Ok(())
}

/// What an `IDAT` chunk does: decompress within the budget, then store the
/// payload as an interlace pass, a tile, or rows of indices or pixels.
pub open spec fn idat_step(v: DecView, flag: u8, data: Seq<u8>) -> Result<DecView, CafeError> {
    match idat_unpack_step(v, flag, data) {
        Err(e) => Err(e),
        Ok((v1, d)) => if v1.header.interlace_method_read == INTERLACE_ADAM7 || v1.header.interlace_method_read == INTERLACE_EVEN_ODD {
            interlaced_step(v1, d)
        } else if v1.idim is Some {
            tile_idim_step(v1, d)
        } else if v1.header.color_type == COLOR_TYPE_INDEXED {
            indexed_step(v1, d)
        } else {
            direct_step(v1, d)
        },
    }
}

fn handle_idat_chunk(state: &mut DecoderState, flag: u8, data: &[u8]) -> (r: Result<(), CafeError>)
    ensures
        match idat_step(old(state)@, flag, data@) {
            Ok(v) => r is Ok && final(state)@ == v,
            Err(e) => r == Err::<(), CafeError>(e),
        },
{
    let d = match decompress_idat_payload(state, flag, data) {
        Ok(d) => d,
        Err(e) => return Err(e),
    };
    let il = state.header.interlace_method_read;
    if il == INTERLACE_ADAM7 || il == INTERLACE_EVEN_ODD {
        handle_interlaced_idat(state, d)
    } else if state.idim.is_some() {
        handle_idat_tile_idim(state, d)
    } else if state.header.color_type == COLOR_TYPE_INDEXED {
        handle_idat_indexed(state, d)
    } else {
        handle_idat_direct_color(state, d)
    }
}

// ---------------------------------------------------------------------------
// The chunk walk
// ---------------------------------------------------------------------------

/// What one chunk of type `t` does to the state. An unknown chunk is
/// skipped when ancillary (lowercase first letter) and rejected when
/// critical (uppercase first letter).
#[verifier::opaque]
pub open spec fn chunk_step(v: DecView, t: Seq<u8>, flag: u8, data: Seq<u8>) -> Result<DecView, CafeError> {
    if t == CHUNK_IHDR@ {
        let (r, h) = ihdr_step(v.header, data);
        match r {
            Err(e) => Err(e),
            Ok(_) => Ok(DecView { header: h, ..v }),
        }
    } else if t == CHUNK_PLTE@ {
        plte_step(v, flag, data)
    } else if t == CHUNK_EXIF@ {
        exif_step(v, flag, data)
    } else if t == CHUNK_JSON@ {
        json_step(v, flag, data)
    } else if t == CHUNK_ICCP@ {
        Ok(iccp_step(v, flag, data))
    } else if t == CHUNK_XMPD@ {
        Ok(xmpd_step(v, flag, data))
    } else if t == CHUNK_ZDIC@ {
        Ok(zdic_step(v, flag, data))
    } else if t == CHUNK_IDIM@ {
        idim_step(v, data)
    } else if t == CHUNK_CHDR@ {
        Ok(chdr_step(v, flag, data))
    } else if t == CHUNK_IDAT@ {
        idat_step(v, flag, data)
    } else if 65 <= t[0] <= 90 {
        Err(CafeError::UnsupportedFeature("unknown critical chunk", None))
    } else {
        Ok(v)
    }
}

/// The state after the chunks of `buf` from `offset` up to `IEND` or the
/// end of the buffer, or the first error.
pub open spec fn walk(buf: Seq<u8>, offset: nat, v: DecView) -> Result<DecView, CafeError>
    decreases buf.len() - offset,
{
    if offset >= buf.len() {
        Ok(v)
    } else {
        match read_chunk_spec(buf, offset) {
            Err(e) => Err(e),
            Ok((t, flag, data, next)) => if t == CHUNK_IEND@ {
                Ok(v)
            } else {
                match chunk_step(v, t, flag, data) {
                    Err(e) => Err(e),
                    Ok(v2) => if next <= offset { Ok(v2) } else {
                        proof {
                            crate::chunk::lemma_read_chunk_end(buf, offset);
                        }
                        walk(buf, next, v2)
                    },
                }
            },
        }
    }
}

/// Bit depths above 8 that the color conversion takes.
pub open spec fn depth_ok(ct: u8, bd: u8) -> bool {
    bd > 8 && samples_per_pixel_spec(ct) is Some ==> (bd == 10 || bd == 12 || bd == 16 || bd == 32)
}

/// What every reachable state satisfies.
pub open spec fn dec_inv(v: DecView) -> bool {
    &&& v.adam7_passes.len() == 7
    &&& v.even_odd_passes.len() == 2
    &&& (v.header.width is Some ==> depth_ok(v.header.color_type, v.header.bit_depth))
}

pub(crate) proof fn lemma_ihdr_depth(st: DecodeState, data: Seq<u8>)
    ensures ihdr_step(st, data).0 is Ok ==> depth_ok(ihdr_step(st, data).1.color_type, ihdr_step(st, data).1.bit_depth),
{
}

proof fn lemma_idat_step_inv(v: DecView, flag: u8, data: Seq<u8>)
    requires dec_inv(v),
    ensures idat_step(v, flag, data) matches Ok(v2) ==> dec_inv(v2),
{
    match idat_unpack_step(v, flag, data) {
        Err(_) => {},
        Ok((v1, d)) => {
            assert(dec_inv(v1));
        },
    }
}

proof fn lemma_chunk_step_inv(v: DecView, t: Seq<u8>, flag: u8, data: Seq<u8>)
    requires dec_inv(v),
    ensures chunk_step(v, t, flag, data) matches Ok(v2) ==> dec_inv(v2),
{
    reveal(chunk_step);
    if t == CHUNK_IHDR@ {
        lemma_ihdr_depth(v.header, data);
    } else if t == CHUNK_IDAT@ {
        lemma_idat_step_inv(v, flag, data);
    }
}

pub(crate) fn same_type(t: &[u8; 4], u: &[u8; 4]) -> (r: bool)
    ensures r == (t@ == u@),
{
    let r = t[0] == u[0] && t[1] == u[1] && t[2] == u[2] && t[3] == u[3];
    proof {
        if r {
            assert(t@ =~= u@);
        } else if t@ == u@ {
            assert(t@[0] == u@[0] && t@[1] == u@[1] && t@[2] == u@[2] && t@[3] == u@[3]);
        }
    }
    r
}

fn dispatch_chunk(state: &mut DecoderState, t: &[u8; 4], flag: u8, data: &[u8]) -> (r: Result<(), CafeError>)
    requires dec_inv(old(state)@),
    ensures
        match chunk_step(old(state)@, t@, flag, data@) {
            Ok(v) => r is Ok && final(state)@ == v,
            Err(e) => r == Err::<(), CafeError>(e),
        },
{
    proof {
        reveal(chunk_step);
    }
    if same_type(t, &CHUNK_IHDR) {
        handle_ihdr_chunk(&mut state.header, data)
    } else if same_type(t, &CHUNK_PLTE) {
        handle_plte_chunk(state, flag, data)
    } else if same_type(t, &CHUNK_EXIF) {
        handle_exif_chunk(state, flag, data)
    } else if same_type(t, &CHUNK_JSON) {
        handle_json_chunk(state, flag, data)
    } else if same_type(t, &CHUNK_ICCP) {
        handle_iccp_chunk(state, flag, data);
        Ok(())
    } else if same_type(t, &CHUNK_XMPD) {
        handle_xmpd_chunk(state, flag, data);
        Ok(())
    } else if same_type(t, &CHUNK_ZDIC) {
        handle_zdic_chunk(state, flag, data);
        Ok(())
    } else if same_type(t, &CHUNK_IDIM) {
        handle_idim_chunk(state, flag, data)
    } else if same_type(t, &CHUNK_CHDR) {
        handle_chdr_chunk(state, flag, data);
        Ok(())
    } else if same_type(t, &CHUNK_IDAT) {
        handle_idat_chunk(state, flag, data)
    } else if 65 <= t[0] && t[0] <= 90 {
        Err(CafeError::UnsupportedFeature("unknown critical chunk", None))
    } else {
        Ok(())
    }
}

// ---------------------------------------------------------------------------
// Reconstruction and the whole decode
// ---------------------------------------------------------------------------

/// Per-chunk sizes and their totals.
pub struct CompressionStats {
    pub total_original: u64,
    pub total_compressed: u64,
    pub chunks: Vec<ChunkStats>,
}

/// What decoding yields besides the pixels: the image size and sample
/// layout, and the ancillary data.
pub struct DecodeResult {
    pub width: u32,
    pub height: u32,
    pub color_type: u8,
    pub bit_depth: u8,
    pub sample_format: u8,
    pub exif: Option<Vec<u8>>,
    /// `(namespace, JSON text)` pairs, one per namespace.
    pub json_metadata: Vec<(Vec<u8>, Vec<u8>)>,
    pub compression_stats: Option<CompressionStats>,
    pub icc_profile: Option<Vec<u8>>,
    /// UTF-8 text.
    pub xmp_metadata: Option<Vec<u8>>,
    pub zstd_dictionary: Option<Vec<u8>>,
    pub chdr_metadata: Option<ChdrFields>,
}

/// Sum of the decompressed sizes.
pub open spec fn sum_original(s: Seq<ChunkStats>) -> int
    decreases s.len(),
{
    if s.len() == 0 { 0 } else { sum_original(s.drop_last()) + s.last().original_size }
}

/// Sum of the stored sizes.
pub open spec fn sum_compressed(s: Seq<ChunkStats>) -> int
    decreases s.len(),
{
    if s.len() == 0 { 0 } else { sum_compressed(s.drop_last()) + s.last().compressed_size }
}

/// The image bytes before color conversion: the interlace passes put back
/// together, or the rows as stored.
pub open spec fn deinterlaced_spec(v: DecView, w: u32, h: u32) -> Result<Seq<u8>, CafeError> {
    if v.header.interlace_method_read == INTERLACE_ADAM7 {
        reconstruct_adam7_spec(v.adam7_passes, w as nat, h as nat)
    } else if v.header.interlace_method_read == INTERLACE_EVEN_ODD {
        reconstruct_even_odd_spec(v.even_odd_passes[0], v.even_odd_passes[1], w as nat, h as nat)
    } else {
        Ok(v.pixel_rows)
    }
}

/// An RGBA buffer of a `w` x `h` image must hold `w * h * 4` bytes.
pub open spec fn sized_rgba(px: Seq<u8>, w: u32, h: u32) -> Result<Seq<u8>, CafeError> {
    if w * h * 4 > u64::MAX || px.len() != ((w * h * 4) as u64) as usize {
        Err(CafeError::TruncatedFile("decoded pixels do not match the image size"))
    } else {
        Ok(px)
    }
}

/// The decoded pixels: indices through the palette, integer samples
/// converted to 8-bit RGBA; floating-point samples (single or half
/// precision) are handed back as stored, for the caller to convert.
pub open spec fn final_pixels_spec(v: DecView, w: u32, h: u32) -> Result<Seq<u8>, CafeError> {
    match deinterlaced_spec(v, w, h) {
        Err(e) => Err(e),
        Ok(data) => if v.header.color_type == COLOR_TYPE_INDEXED {
            match v.palette {
                None => Err(CafeError::UnsupportedFeature("Color type=3 found without PLTE chunk", None)),
                Some((entries, _)) => if data.len() * 4 > usize::MAX {
                    Err(CafeError::TruncatedFile("image dimensions overflow"))
                } else {
                    sized_rgba(dequantize_spec(data, entries), w, h)
                },
            }
        } else if v.header.sample_format == SAMPLE_FORMAT_FLOAT || v.header.sample_format == SAMPLE_FORMAT_HALF {
            Ok(data)
        } else {
            match bytes_per_pixel_spec(v.header.color_type, v.header.bit_depth) {
                None => Err(CafeError::UnsupportedFeature("color type and bit depth not supported together", None)),
                Some(_) => match color_type_to_rgba_spec(data, w as nat, h as nat, v.header.color_type, v.header.bit_depth) {
                    Err(e) => Err(e),
                    Ok(px) => sized_rgba(px, w, h),
                },
            }
        },
    }
}

/// What decoding `buf` yields: the pixels and the state after its chunks.
pub open spec fn decode_spec(buf: Seq<u8>) -> Result<(Seq<u8>, DecView), CafeError> {
    if buf.len() < 9 || buf.subrange(0, 9) != SIGNATURE@ {
        Err(CafeError::InvalidSignature)
    } else {
        match walk(buf, 9, initial_view()) {
            Err(e) => Err(e),
            Ok(v) => match (v.header.width, v.header.height) {
                (Some(w), Some(h)) => match final_pixels_spec(v, w, h) {
                    Err(e) => Err(e),
                    Ok(px) => Ok((px, v)),
                },
                _ => Err(CafeError::MissingIhdr),
            },
        }
    }
}

/// The result reports the state `v`.
pub open spec fn result_matches(res: DecodeResult, v: DecView) -> bool {
    &&& v.header.width == Some(res.width)
    &&& v.header.height == Some(res.height)
    &&& res.color_type == v.header.color_type
    &&& res.bit_depth == v.header.bit_depth
    &&& res.sample_format == v.header.sample_format
    &&& opt_seq(res.exif) == v.exif
    &&& pairs_of(res.json_metadata@) == v.json_metadata
    &&& opt_seq(res.icc_profile) == v.icc_profile
    &&& opt_seq(res.xmp_metadata) == v.xmp_metadata
    &&& opt_seq(res.zstd_dictionary) == v.zstd_dictionary
    &&& res.chdr_metadata == v.chdr
    &&& match res.compression_stats {
        None => v.chunk_stats.len() == 0,
        Some(cs) => v.chunk_stats.len() > 0 && cs.chunks@ == v.chunk_stats
            && cs.total_original == sum_original(v.chunk_stats) as u64
            && cs.total_compressed == sum_compressed(v.chunk_stats) as u64,
    }
}

fn sized_rgba_exec(px: Vec<u8>, w: u32, h: u32) -> (r: Result<Vec<u8>, CafeError>)
    ensures
        match sized_rgba(px@, w, h) {
            Ok(p) => r matches Ok(out) && out@ == p,
            Err(e) => r == Err::<Vec<u8>, CafeError>(e),
        },
{
    assert((w as u128) * (h as u128) * 4 <= 0xffff_ffff * 0xffff_ffff * 4) by (nonlinear_arith)
        requires w <= 0xffff_ffff, h <= 0xffff_ffff;
    let n: u128 = (w as u128) * (h as u128) * 4;
    if n > u64::MAX as u128 {
        return Err(CafeError::TruncatedFile("decoded pixels do not match the image size"));
    }
    #[verifier::truncate]
    let expected = (n as u64) as usize;
    if px.len() != expected {
        return Err(CafeError::TruncatedFile("decoded pixels do not match the image size"));
    }
    Ok(px)
}

/// The fields of the state that the decode result reports.
pub open spec fn same_report(a: DecView, b: DecView) -> bool {
    &&& a.header == b.header
    &&& a.palette == b.palette
    &&& a.exif == b.exif
    &&& a.json_metadata == b.json_metadata
    &&& a.icc_profile == b.icc_profile
    &&& a.xmp_metadata == b.xmp_metadata
    &&& a.zstd_dictionary == b.zstd_dictionary
    &&& a.chdr == b.chdr
    &&& a.chunk_stats == b.chunk_stats
}

fn reconstruct_final_pixels(state: &mut DecoderState, w: u32, h: u32) -> (r: Result<Vec<u8>, CafeError>)
    requires dec_inv(old(state)@), old(state)@.header.width == Some(w), old(state)@.header.height == Some(h),
    ensures
        same_report(final(state)@, old(state)@),
        match final_pixels_spec(old(state)@, w, h) {
            Ok(px) => r matches Ok(out) && out@ == px,
            Err(e) => r == Err::<Vec<u8>, CafeError>(e),
        },
{
    let ghost v = state@;
    let il = state.header.interlace_method_read;
    let data: Vec<u8> = if il == INTERLACE_ADAM7 {
        match reconstruct_adam7(&state.adam7_passes, w, h) {
            Ok(o) => o,
            Err(e) => return Err(e),
        }
    } else if il == INTERLACE_EVEN_ODD {
        let mut even: Vec<u8> = Vec::new();
        let mut odd: Vec<u8> = Vec::new();
        std::mem::swap(&mut even, &mut state.even_pass);
        std::mem::swap(&mut odd, &mut state.odd_pass);
        let arr = [even, odd];
        assert(arr@[0]@ == v.even_odd_passes[0] && arr@[1]@ == v.even_odd_passes[1]);
        match reconstruct_even_odd(&arr, w, h) {
            Ok(o) => o,
            Err(e) => return Err(e),
        }
    } else {
        crate::bytes::copy_bytes(state.pixel_rows.as_slice())
    };
    assert(same_report(state@, v));
    let ct = state.header.color_type;
    let sf = state.header.sample_format;
    if ct == COLOR_TYPE_INDEXED {
        let px = match &state.palette {
            None => return Err(CafeError::UnsupportedFeature("Color type=3 found without PLTE chunk", None)),
            Some(p) => {
                if data.len() > usize::MAX / 4 {
                    return Err(CafeError::TruncatedFile("image dimensions overflow"));
                }
                dequantize_from_palette(data.as_slice(), p, w, h)
            },
        };
        sized_rgba_exec(px, w, h)
    } else if sf == SAMPLE_FORMAT_FLOAT || sf == SAMPLE_FORMAT_HALF {
        Ok(data)
    } else {
        match bytes_per_pixel(ct, state.header.bit_depth) {
            None => return Err(CafeError::UnsupportedFeature("color type and bit depth not supported together", None)),
            Some(_) => {},
        }
        let px = match convert_color_type_to_rgba(data.as_slice(), w, h, ct, state.header.bit_depth) {
            Ok(p) => p,
            Err(e) => return Err(e),
        };
        sized_rgba_exec(px, w, h)
    }
}

pub(crate) fn stats_totals(s: &Vec<ChunkStats>) -> (r: (u64, u64))
    ensures r.0 == sum_original(s@) as u64, r.1 == sum_compressed(s@) as u64,
{
    let mut o: u128 = 0;
    let mut c: u128 = 0;
    let mut i: usize = 0;
    while i < s.len()
        invariant
            i <= s@.len(),
            o == sum_original(s@.take(i as int)),
            c == sum_compressed(s@.take(i as int)),
            o <= i * 0x1_0000_0000, c <= i * 0x1_0000_0000,
        decreases s@.len() - i,
    {
        assert(s@.take(i + 1).drop_last() =~= s@.take(i as int));
        o = o + s[i].original_size as u128;
        c = c + s[i].compressed_size as u128;
        i += 1;
    }
    assert(s@.take(s@.len() as int) =~= s@);
    #[verifier::truncate]
    let ro = o as u64;
    #[verifier::truncate]
    let rc = c as u64;
    (ro, rc)
}

/// Walks the chunks of `buf` after the signature.
fn walk_chunks(buf: &[u8]) -> (r: Result<DecoderState, CafeError>)
    requires buf@.len() >= 9,
    ensures
        match walk(buf@, 9, initial_view()) {
            Ok(v) => r matches Ok(st) && st@ == v && dec_inv(v),
            Err(e) => r matches Err(e2) && e2 == e,
        },
{
    let mut state = DecoderState::new();
    let ghost target = walk(buf@, 9, initial_view());
    let mut offset: usize = 9;
    loop
        invariant_except_break
            walk(buf@, offset as nat, state@) == target,
        invariant
            dec_inv(state@),
            target == walk(buf@, 9, initial_view()),
        ensures
            target == Ok::<DecView, CafeError>(state@),
            dec_inv(state@),
        decreases buf@.len() - offset,
    {
        if offset >= buf.len() {
            break;
        }
        let chunk = match read_chunk(buf, offset) {
            Ok(c) => c,
            Err(e) => return Err(e),
        };
        proof {
            crate::chunk::lemma_read_chunk_end(buf@, offset as nat);
        }
        if same_type(&chunk.chunk_type, &CHUNK_IEND) {
            break;
        }
        let ghost before = state@;
        match dispatch_chunk(&mut state, &chunk.chunk_type, chunk.flag, chunk.data.as_slice()) {
            Ok(_) => {},
            Err(e) => return Err(e),
        }
        proof {
            lemma_chunk_step_inv(before, chunk.chunk_type@, chunk.flag, chunk.data@);
        }
        if chunk.next_offset <= offset {
            break;
        }
        offset = chunk.next_offset;
    }
    Ok(state)
}

/// Decodes a CAFE file held in memory: checks the signature, walks the
/// chunks up to `IEND` (each chunk's CRC checked, each handled as its type
/// says, unknown critical chunks rejected), then puts interlace passes back
/// together and converts the samples to 8-bit RGBA (indices through the
/// palette). Floating-point samples are returned as stored, for the caller
/// to convert. Returns the pixels and what the file declared besides.
pub fn decode_bytes(buf: &[u8]) -> (r: Result<(Vec<u8>, DecodeResult), CafeError>)
    ensures
        match decode_spec(buf@) {
            Ok((px, v)) => r matches Ok((p, res)) && p@ == px && result_matches(res, v),
            Err(e) => r matches Err(e2) && e2 == e,
        },
{
    if buf.len() < 9 {
        return Err(CafeError::InvalidSignature);
    }
    let mut k: usize = 0;
    while k < 9
        invariant k <= 9, buf@.len() >= 9, forall|j: int| 0 <= j < k ==> buf@[j] == SIGNATURE@[j],
        decreases 9 - k,
    {
        if buf[k] != SIGNATURE[k] {
            proof {
                assert(buf@.subrange(0, 9)[k as int] != SIGNATURE@[k as int]);
            }
            return Err(CafeError::InvalidSignature);
        }
        k += 1;
    }
    assert(buf@.subrange(0, 9) =~= SIGNATURE@);
    let mut state = match walk_chunks(buf) {
        Ok(st) => st,
        Err(e) => return Err(e),
    };
    let (w, h) = match (state.header.width, state.header.height) {
        (Some(w), Some(h)) => (w, h),
        _ => return Err(CafeError::MissingIhdr),
    };
    let pixels = match reconstruct_final_pixels(&mut state, w, h) {
        Ok(x) => x,
        Err(e) => return Err(e),
    };
    let stats = if state.chunk_stats.len() == 0 {
        None
    } else {
        let (o, c) = stats_totals(&state.chunk_stats);
        Some(CompressionStats { total_original: o, total_compressed: c, chunks: state.chunk_stats })
    };
    let res = DecodeResult {
        width: w,
        height: h,
        color_type: state.header.color_type,
        bit_depth: state.header.bit_depth,
        sample_format: state.header.sample_format,
        exif: state.exif,
        json_metadata: state.json_metadata,
        compression_stats: stats,
        icc_profile: state.icc_profile,
        xmp_metadata: state.xmp_metadata,
        zstd_dictionary: state.zstd_dictionary,
        chdr_metadata: state.chdr,
    };
    Ok((pixels, res))
}

} // verus!
