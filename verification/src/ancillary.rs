//! The palette (`PLTE`), tiling (`iDIM`) and HDR metadata (`cHDR`) chunks.

use vstd::prelude::*;

use crate::chunk::{chunk_bytes, read_chunk_spec, write_chunk};
use crate::codec::{compress_with_fallback, compress_with_fallback_spec, decompress_chunk, decompress_with_limit_spec, packs_back};
use crate::color::{be16_at, be16_bytes, be32_at, be32_bytes};
use crate::constants::{CHUNK_CHDR, CHUNK_IDIM, CHUNK_PLTE, FLAG_RAW, MAX_DECOMPRESSED_CHUNK_SIZE, MAX_PALETTE_ENTRIES, MAX_TILE_COUNT};
use crate::error::CafeError;
use crate::palette::{Palette, PaletteEntry};

verus! {

// ---------------------------------------------------------------------------
// PLTE
// ---------------------------------------------------------------------------

/// The bytes of one palette entry: RGB, plus A when the palette has alpha.
pub open spec fn entry_bytes(e: PaletteEntry, has_alpha: bool) -> Seq<u8> {
    if has_alpha { seq![e.r, e.g, e.b, e.a] } else { seq![e.r, e.g, e.b] }
}

/// The bytes of the first `k` entries.
pub open spec fn entries_bytes(entries: Seq<PaletteEntry>, has_alpha: bool, k: nat) -> Seq<u8>
    decreases k,
{
    if k == 0 { Seq::empty() } else { entries_bytes(entries, has_alpha, (k - 1) as nat) + entry_bytes(entries[k - 1], has_alpha) }
}

/// The `PLTE` payload: the entry format (1: RGBA, 0: RGB), then the entries.
pub open spec fn plte_payload(entries: Seq<PaletteEntry>, has_alpha: bool) -> Seq<u8> {
    seq![if has_alpha { 1u8 } else { 0u8 }] + entries_bytes(entries, has_alpha, entries.len())
}

/// Entry `k` of a `PLTE` entry list; alpha is 255 without an alpha channel.
pub open spec fn entry_at(payload: Seq<u8>, k: int, has_alpha: bool) -> PaletteEntry {
    let bpe = if has_alpha { 4int } else { 3int };
    let o = k * bpe;
    PaletteEntry { r: payload[o], g: payload[o + 1], b: payload[o + 2], a: if has_alpha { payload[o + 3] } else { 255 } }
}

/// What reading a `PLTE` chunk with flag `flag` and data `data` yields: its
/// entries and alpha flag. At most 256 whole entries are accepted; a
/// trailing partial entry is ignored.
pub open spec fn read_plte_spec(flag: u8, data: Seq<u8>) -> Result<(Seq<PaletteEntry>, bool), CafeError> {
    match decompress_with_limit_spec(flag, data, None, MAX_DECOMPRESSED_CHUNK_SIZE) {
        Err(e) => Err(e),
        Ok(d) => {
            if d.len() == 0 {
                Err(CafeError::TruncatedFile("PLTE: empty chunk"))
            } else {
                let has_alpha = d[0] != 0;
                let payload = d.skip(1);
                let n = payload.len() / (if has_alpha { 4nat } else { 3nat });
                if n > MAX_PALETTE_ENTRIES {
                    Err(CafeError::UnsupportedFeature("PLTE: entry count exceeds maximum allowed (256)", Some(n as u64)))
                } else {
                    Ok((Seq::new(n, |k: int| entry_at(payload, k, has_alpha)), has_alpha))
                }
            }
        },
    }
}

/// Reads a `PLTE` chunk: decompresses it (1 GiB ceiling), reads the entry
/// format byte and the entries. Rejects an empty payload and more than 256
/// entries.
pub fn read_plte_chunk(flag: u8, data: &[u8]) -> (r: Result<Palette, CafeError>)
    ensures
        match r {
            Ok(p) => read_plte_spec(flag, data@) == Ok::<(Seq<PaletteEntry>, bool), CafeError>((p.entries@, p.has_alpha)),
            Err(e) => read_plte_spec(flag, data@) == Err::<(Seq<PaletteEntry>, bool), CafeError>(e),
        },
{
    let d = match decompress_chunk(flag, data) {
        Ok(d) => d,
        Err(e) => return Err(e),
    };
    if d.len() == 0 {
        return Err(CafeError::TruncatedFile("PLTE: empty chunk"));
    }
    let has_alpha = d[0] != 0;
    let bpe: usize = if has_alpha { 4 } else { 3 };
    let plen = d.len() - 1;
    let n = plen / bpe;
    let ghost payload = d@.skip(1);
    if n > MAX_PALETTE_ENTRIES {
        return Err(CafeError::UnsupportedFeature("PLTE: entry count exceeds maximum allowed (256)", Some(n as u64)));
    }
    let mut entries: Vec<PaletteEntry> = Vec::with_capacity(n);
    let mut k: usize = 0;
    while k < n
        invariant
            payload == d@.skip(1),
            plen == payload.len(),
            d@.len() == plen + 1,
            bpe == if has_alpha { 4usize } else { 3usize },
            n == plen / bpe,
            n <= 256,
            k <= n,
            entries@ == Seq::new(k as nat, |j: int| entry_at(payload, j, has_alpha)),
        decreases n - k,
    {
        proof {
            assert((k + 1) * bpe <= n * bpe) by (nonlinear_arith) requires k < n;
            assert(n * bpe <= plen) by {
                vstd::arithmetic::div_mod::lemma_fundamental_div_mod(plen as int, bpe as int);
                vstd::arithmetic::div_mod::lemma_mod_bound(plen as int, bpe as int);
                assert(n * bpe == bpe * n) by (nonlinear_arith);
            }
            assert((k + 1) * bpe == k * bpe + bpe) by (nonlinear_arith);
        }
        let o = 1 + k * bpe;
        let e = PaletteEntry {
            r: d[o],
            g: d[o + 1],
            b: d[o + 2],
            a: if has_alpha { d[o + 3] } else { 255 },
        };
        entries.push(e);
        k += 1;
        assert(entries@ =~= Seq::new(k as nat, |j: int| entry_at(payload, j, has_alpha)));
    }
    Ok(Palette { entries, has_alpha })
}

fn plte_payload_exec(palette: &Palette) -> (out: Vec<u8>)
    ensures out@ == plte_payload(palette.entries@, palette.has_alpha),
{
    let mut out: Vec<u8> = Vec::new();
    out.push(if palette.has_alpha { 1 } else { 0 });
    let mut k: usize = 0;
    while k < palette.entries.len()
        invariant
            k <= palette.entries@.len(),
            out@ == seq![if palette.has_alpha { 1u8 } else { 0u8 }] + entries_bytes(palette.entries@, palette.has_alpha, k as nat),
        decreases palette.entries@.len() - k,
    {
        let e = palette.entries[k];
        out.push(e.r);
        out.push(e.g);
        out.push(e.b);
        if palette.has_alpha {
            out.push(e.a);
        }
        k += 1;
        assert(out@ =~= seq![if palette.has_alpha { 1u8 } else { 0u8 }] + entries_bytes(palette.entries@, palette.has_alpha, k as nat));
    }
    out
}

proof fn lemma_entries_bytes(entries: Seq<PaletteEntry>, has_alpha: bool, k: nat)
    requires k <= entries.len(),
    ensures
        entries_bytes(entries, has_alpha, k).len() == k * (if has_alpha { 4int } else { 3int }),
        forall|j: int| 0 <= j < k ==> #[trigger] entry_at(entries_bytes(entries, has_alpha, k), j, has_alpha)
            == (if has_alpha { entries[j] } else { PaletteEntry { a: 255, ..entries[j] } }),
    decreases k,
{
    let bpe = if has_alpha { 4int } else { 3int };
    if k > 0 {
        lemma_entries_bytes(entries, has_alpha, (k - 1) as nat);
        let prev = entries_bytes(entries, has_alpha, (k - 1) as nat);
        let cur = entries_bytes(entries, has_alpha, k);
        assert(k * bpe == (k - 1) * bpe + bpe) by (nonlinear_arith);
        assert forall|j: int| 0 <= j < k implies #[trigger] entry_at(cur, j, has_alpha)
            == (if has_alpha { entries[j] } else { PaletteEntry { a: 255, ..entries[j] } }) by {
            assert(j * bpe + bpe <= k * bpe) by (nonlinear_arith) requires j < k, bpe > 0;
            assert(0 <= j * bpe) by (nonlinear_arith) requires j >= 0, bpe > 0;
            if j < k - 1 {
                assert(j * bpe + bpe <= (k - 1) * bpe) by (nonlinear_arith) requires j < k - 1, bpe > 0;
                assert(entry_at(cur, j, has_alpha) == entry_at(prev, j, has_alpha));
            } else {
                assert(j * bpe == (k - 1) * bpe);
            }
        }
    }
}

/// The palette a reader sees: without an alpha channel every alpha is 255.
pub open spec fn palette_as_read(entries: Seq<PaletteEntry>, has_alpha: bool) -> Seq<PaletteEntry> {
    if has_alpha { entries } else { entries.map_values(|e: PaletteEntry| PaletteEntry { a: 255, ..e }) }
}

/// `PLTE` round trip: a `PLTE` chunk whose data decompresses to the payload
/// of at most 256 entries reads back as those entries (alpha 255 without an
/// alpha channel).
pub proof fn lemma_plte_roundtrip(entries: Seq<PaletteEntry>, has_alpha: bool, flag: u8, data: Seq<u8>)
    requires
        entries.len() <= MAX_PALETTE_ENTRIES,
        data.len() <= u32::MAX,
        decompress_with_limit_spec(flag, data, None, MAX_DECOMPRESSED_CHUNK_SIZE)
            == Ok::<Seq<u8>, CafeError>(plte_payload(entries, has_alpha)),
    ensures
        read_chunk_spec(chunk_bytes(CHUNK_PLTE@, flag, data), 0) matches Ok((t, f, d, _))
            && t == CHUNK_PLTE@
            && read_plte_spec(f, d) == Ok::<(Seq<PaletteEntry>, bool), CafeError>((palette_as_read(entries, has_alpha), has_alpha)),
{
    assert(CHUNK_PLTE@ =~= seq![0x50u8, 0x4Cu8, 0x54u8, 0x45u8]);
    assert(crate::chunk::valid_chunk_type(CHUNK_PLTE@));
    crate::chunk::lemma_chunk_roundtrip(CHUNK_PLTE@, flag, data, Seq::empty());
    assert(chunk_bytes(CHUNK_PLTE@, flag, data) + Seq::<u8>::empty() =~= chunk_bytes(CHUNK_PLTE@, flag, data));
    lemma_entries_bytes(entries, has_alpha, entries.len());
    let p = plte_payload(entries, has_alpha);
    let body = p.skip(1);
    assert(body =~= entries_bytes(entries, has_alpha, entries.len()));
    let bpe = if has_alpha { 4nat } else { 3nat };
    assert(body.len() / bpe == entries.len()) by {
        vstd::arithmetic::div_mod::lemma_fundamental_div_mod_converse(body.len() as int, bpe as int, entries.len() as int, 0);
    }
    assert(Seq::new(entries.len(), |k: int| entry_at(body, k, has_alpha)) =~= palette_as_read(entries, has_alpha));
}

/// Writes a `PLTE` chunk: the entry format byte and the entries, compressed
/// when that is smaller.
pub fn write_plte_chunk(palette: &Palette, level: i32) -> (r: Result<Vec<u8>, CafeError>)
    ensures
        match r {
            Ok(bytes) => compress_with_fallback_spec(plte_payload(palette.entries@, palette.has_alpha), level)
                matches Ok((flag, data)) && bytes@ == chunk_bytes(CHUNK_PLTE@, flag, data),
            Err(e) => compress_with_fallback_spec(plte_payload(palette.entries@, palette.has_alpha), level)
                == Err::<(u8, Seq<u8>), CafeError>(e),
        },
        // reading the chunk back gives the palette, alpha forced to 255 without alpha
        palette.entries@.len() <= MAX_PALETTE_ENTRIES ==> (r matches Ok(bytes) ==> (read_chunk_spec(bytes@, 0)
            matches Ok((t, f, d, _)) && t == CHUNK_PLTE@
            && read_plte_spec(f, d) == Ok::<(Seq<PaletteEntry>, bool), CafeError>((
                palette_as_read(palette.entries@, palette.has_alpha), palette.has_alpha)))),
{
    let payload = plte_payload_exec(palette);
    proof {
        lemma_entries_bytes(palette.entries@, palette.has_alpha, palette.entries@.len());
    }
    let (flag, data) = match compress_with_fallback(payload.as_slice(), level) {
        Ok(c) => c,
        Err(e) => return Err(e),
    };
    let bytes = write_chunk(&CHUNK_PLTE, flag, data.as_slice());
    proof {
        if palette.entries@.len() <= MAX_PALETTE_ENTRIES {
            lemma_plte_roundtrip(palette.entries@, palette.has_alpha, flag, data@);
        }
    }
    Ok(bytes)
}

// ---------------------------------------------------------------------------
// iDIM
// ---------------------------------------------------------------------------

/// Tiling of an image: tile size, tile grid, and scan order (0: row-major,
/// 1: Z-order).
#[allow(non_camel_case_types)]
#[derive(Clone, Copy, Debug, PartialEq, Eq, Structural)]
pub struct iDim {
    pub tile_width: u16,
    pub tile_height: u16,
    pub tiles_x: u16,
    pub tiles_y: u16,
    pub scan_order: u8,
}

/// `ceil(a / b)` for `b > 0`.
pub open spec fn div_ceil_spec(a: int, b: int) -> int {
    (a + b - 1) / b
}

fn div_ceil_u32(a: u32, b: u32) -> (r: u32)
    requires b > 0,
    ensures r == div_ceil_spec(a as int, b as int),
{
    let q = a / b;
    let m = a % b;
    proof {
        vstd::arithmetic::div_mod::lemma_fundamental_div_mod(a as int, b as int);
        vstd::arithmetic::div_mod::lemma_mod_bound(a as int, b as int);
        assert((q + 1) * b == b * q + b) by (nonlinear_arith);
        assert(q * b == b * q) by (nonlinear_arith);
        if m == 0 {
            vstd::arithmetic::div_mod::lemma_fundamental_div_mod_converse(a + b - 1, b as int, q as int, b - 1);
        } else {
            vstd::arithmetic::div_mod::lemma_fundamental_div_mod_converse(a + b - 1, b as int, q + 1, m - 1);
        }
        assert(q < u32::MAX || m == 0) by (nonlinear_arith)
            requires a == b * q + m, 0 <= m < b, a <= u32::MAX, b >= 1;
    }
    if m != 0 { q + 1 } else { q }
}

impl iDim {
    /// The tiling of a `width` x `height` image into tiles of
    /// `tile_width` x `tile_height`: `ceil(width / tile_width)` by
    /// `ceil(height / tile_height)` tiles, counts cut to 16 bits.
    pub fn new(tile_width: u16, tile_height: u16, width: u32, height: u32, scan_order: u8) -> (r: iDim)
        requires tile_width > 0, tile_height > 0,
        ensures
            r.tile_width == tile_width, r.tile_height == tile_height, r.scan_order == scan_order,
            r.tiles_x == div_ceil_spec(width as int, tile_width as int) as u16,
            r.tiles_y == div_ceil_spec(height as int, tile_height as int) as u16,
    {
        let tx = div_ceil_u32(width, tile_width as u32);
        let ty = div_ceil_u32(height, tile_height as u32);
        #[verifier::truncate]
        let tiles_x = tx as u16;
        #[verifier::truncate]
        let tiles_y = ty as u16;
        iDim { tile_width, tile_height, tiles_x, tiles_y, scan_order }
    }

    /// Width and height of tile `(tx, ty)` of a `width` x `height` image:
    /// the tile size, cut at the right and bottom edges (zero past them).
    pub fn tile_dimensions(&self, tx: u16, ty: u16, width: u32, height: u32) -> (r: (u32, u32))
        ensures
            r.0 == tile_extent(tx as int, self.tile_width as int, width as int),
            r.1 == tile_extent(ty as int, self.tile_height as int, height as int),
    {
        assert((tx as u64) * (self.tile_width as u64) <= 0xffff * 0xffff) by (nonlinear_arith)
            requires tx <= 0xffff, self.tile_width <= 0xffff;
        assert((ty as u64) * (self.tile_height as u64) <= 0xffff * 0xffff) by (nonlinear_arith)
            requires ty <= 0xffff, self.tile_height <= 0xffff;
        let x0: u64 = (tx as u64) * (self.tile_width as u64);
        let y0: u64 = (ty as u64) * (self.tile_height as u64);
        let w = if (width as u64) > x0 {
            let rem = (width as u64) - x0;
            if rem < self.tile_width as u64 { rem as u32 } else { self.tile_width as u32 }
        } else {
            0
        };
        let h = if (height as u64) > y0 {
            let rem = (height as u64) - y0;
            if rem < self.tile_height as u64 { rem as u32 } else { self.tile_height as u32 }
        } else {
            0
        };
        (w, h)
    }

    /// The tile positions in row-major order, or `UnsupportedFeature` for
    /// a scan order other than row-major.
    pub fn tile_order_row_major(&self) -> (r: Vec<(u16, u16)>)
        ensures r@ == row_major_order(self.tiles_x as nat, self.tiles_y as nat),
    {
        let mut out: Vec<(u16, u16)> = Vec::new();
        let mut ty: u16 = 0;
        while ty < self.tiles_y
            invariant
                ty <= self.tiles_y,
                out@ == Seq::new((ty * self.tiles_x) as nat, |i: int| row_major_at(self.tiles_x as nat, i)),
            decreases self.tiles_y - ty,
        {
            let mut tx: u16 = 0;
            while tx < self.tiles_x
                invariant
                    ty < self.tiles_y,
                    tx <= self.tiles_x,
                    out@ == Seq::new((ty * self.tiles_x + tx) as nat, |i: int| row_major_at(self.tiles_x as nat, i)),
                decreases self.tiles_x - tx,
            {
                proof {
                    vstd::arithmetic::div_mod::lemma_fundamental_div_mod_converse(
                        ty * self.tiles_x + tx, self.tiles_x as int, ty as int, tx as int);
                }
                out.push((tx, ty));
                tx += 1;
                assert(out@ =~= Seq::new((ty * self.tiles_x + tx) as nat, |i: int| row_major_at(self.tiles_x as nat, i)));
            }
            proof {
                assert((ty + 1) * self.tiles_x == ty * self.tiles_x + self.tiles_x) by (nonlinear_arith);
            }
            ty += 1;
        }
        assert(self.tiles_y * self.tiles_x == self.tiles_x * self.tiles_y) by (nonlinear_arith);
        out
    }
}

/// Extent of tile number `t` of size `size` along an image side of `len`.
pub open spec fn tile_extent(t: int, size: int, len: int) -> int {
    let start = t * size;
    if len > start { if len - start < size { len - start } else { size } } else { 0 }
}

/// Position `i` of the row-major scan of a grid `tiles_x` wide.
pub open spec fn row_major_at(tiles_x: nat, i: int) -> (u16, u16) {
    ((i % (tiles_x as int)) as u16, (i / (tiles_x as int)) as u16)
}

/// The row-major scan of a `tiles_x` x `tiles_y` grid.
pub open spec fn row_major_order(tiles_x: nat, tiles_y: nat) -> Seq<(u16, u16)> {
    Seq::new(tiles_x * tiles_y, |i: int| row_major_at(tiles_x, i))
}

/// The 9-byte `iDIM` payload.
pub open spec fn idim_payload(d: iDim) -> Seq<u8> {
    be16_bytes(d.tile_width) + be16_bytes(d.tile_height) + be16_bytes(d.tiles_x) + be16_bytes(d.tiles_y) + seq![d.scan_order]
}

/// Writes an `iDIM` chunk (uncompressed).
pub fn write_idim_chunk(idim: &iDim) -> (r: Result<Vec<u8>, CafeError>)
    ensures r matches Ok(bytes) && bytes@ == chunk_bytes(CHUNK_IDIM@, FLAG_RAW, idim_payload(*idim)),
{
    let mut payload: Vec<u8> = Vec::with_capacity(9);
    crate::color::push_be16(&mut payload, idim.tile_width);
    crate::color::push_be16(&mut payload, idim.tile_height);
    crate::color::push_be16(&mut payload, idim.tiles_x);
    crate::color::push_be16(&mut payload, idim.tiles_y);
    payload.push(idim.scan_order);
    assert(payload@ =~= idim_payload(*idim));
    Ok(write_chunk(&CHUNK_IDIM, FLAG_RAW, payload.as_slice()))
}

/// What reading an `iDIM` payload yields (the payload is never compressed).
pub open spec fn read_idim_spec(data: Seq<u8>) -> Result<iDim, CafeError> {
    if data.len() < 9 {
        Err(CafeError::TruncatedFile("iDIM: insufficient data"))
    } else if data[8] > 1 {
        Err(CafeError::UnsupportedFeature("iDIM: Unknown scan order", Some(data[8] as u64)))
    } else {
        Ok(iDim {
            tile_width: be16_at(data, 0),
            tile_height: be16_at(data, 2),
            tiles_x: be16_at(data, 4),
            tiles_y: be16_at(data, 6),
            scan_order: data[8],
        })
    }
}

/// Reads an `iDIM` payload; rejects fewer than 9 bytes and a scan order
/// other than 0 (row-major) or 1 (Z-order).
pub fn read_idim_chunk(_flag: u8, data: &[u8]) -> (r: Result<iDim, CafeError>)
    ensures
        match r {
            Ok(d) => read_idim_spec(data@) == Ok::<iDim, CafeError>(d),
            Err(e) => read_idim_spec(data@) == Err::<iDim, CafeError>(e),
        },
{
    if data.len() < 9 {
        return Err(CafeError::TruncatedFile("iDIM: insufficient data"));
    }
    let tile_width = (data[0] as u16) * 256 + data[1] as u16;
    let tile_height = (data[2] as u16) * 256 + data[3] as u16;
    let tiles_x = (data[4] as u16) * 256 + data[5] as u16;
    let tiles_y = (data[6] as u16) * 256 + data[7] as u16;
    let scan_order = data[8];
    if scan_order > 1 {
        return Err(CafeError::UnsupportedFeature("iDIM: Unknown scan order", Some(scan_order as u64)));
    }
    Ok(iDim { tile_width, tile_height, tiles_x, tiles_y, scan_order })
}

proof fn lemma_be16_at_bytes(v: u16, s: Seq<u8>, o: int)
    requires 0 <= o, o + 2 <= s.len(), s[o] == be16_bytes(v)[0], s[o + 1] == be16_bytes(v)[1],
    ensures be16_at(s, o) == v,
{
    vstd::arithmetic::div_mod::lemma_fundamental_div_mod(v as int, 256);
}

/// `iDIM` round trip: the payload written for a tiling with a valid scan
/// order reads back as that tiling.
pub proof fn lemma_idim_roundtrip(d: iDim)
    requires d.scan_order <= 1,
    ensures read_idim_spec(idim_payload(d)) == Ok::<iDim, CafeError>(d),
{
    let p = idim_payload(d);
    lemma_be16_at_bytes(d.tile_width, p, 0);
    lemma_be16_at_bytes(d.tile_height, p, 2);
    lemma_be16_at_bytes(d.tiles_x, p, 4);
    lemma_be16_at_bytes(d.tiles_y, p, 6);
}

/// What accepting an `iDIM` against the image size from `IHDR` yields:
/// nonzero tile size and grid, an `IHDR` first, a grid matching
/// `ceil(width / tile_width)` by `ceil(height / tile_height)`, and at most
/// `MAX_TILE_COUNT` tiles.
pub open spec fn check_idim_spec(d: iDim, width: Option<u32>, height: Option<u32>) -> Result<(), CafeError> {
    if d.tile_width == 0 || d.tile_height == 0 {
        Err(CafeError::UnsupportedFeature("iDIM: tile_width and tile_height must be nonzero", None))
    } else if d.tiles_x == 0 || d.tiles_y == 0 {
        Err(CafeError::UnsupportedFeature("iDIM: tiles_x and tiles_y must be nonzero", None))
    } else if width is None || height is None {
        Err(CafeError::MissingIhdr)
    } else if d.tiles_x != div_ceil_spec(width->0 as int, d.tile_width as int)
        || d.tiles_y != div_ceil_spec(height->0 as int, d.tile_height as int) {
        Err(CafeError::UnsupportedFeature("iDIM: tiles_x/tiles_y inconsistent with IHDR dimensions and tile size", None))
    } else if d.tiles_x * d.tiles_y > MAX_TILE_COUNT {
        Err(CafeError::UnsupportedFeature("iDIM: tiles_x * tiles_y exceeds maximum allowed tile count", Some((d.tiles_x * d.tiles_y) as u64)))
    } else {
        Ok(())
    }
}

/// Checks an `iDIM` against the image size an `IHDR` declared.
pub fn check_idim(d: &iDim, width: Option<u32>, height: Option<u32>) -> (r: Result<(), CafeError>)
    ensures r == check_idim_spec(*d, width, height),
{
    if d.tile_width == 0 || d.tile_height == 0 {
        return Err(CafeError::UnsupportedFeature("iDIM: tile_width and tile_height must be nonzero", None));
    }
    if d.tiles_x == 0 || d.tiles_y == 0 {
        return Err(CafeError::UnsupportedFeature("iDIM: tiles_x and tiles_y must be nonzero", None));
    }
    let w = match width {
        Some(w) => w,
        None => return Err(CafeError::MissingIhdr),
    };
    let h = match height {
        Some(h) => h,
        None => return Err(CafeError::MissingIhdr),
    };
    let ex = div_ceil_u32(w, d.tile_width as u32);
    let ey = div_ceil_u32(h, d.tile_height as u32);
    if d.tiles_x as u32 != ex || d.tiles_y as u32 != ey {
        return Err(CafeError::UnsupportedFeature("iDIM: tiles_x/tiles_y inconsistent with IHDR dimensions and tile size", None));
    }
    assert((d.tiles_x as u64) * (d.tiles_y as u64) <= 0xffff * 0xffff) by (nonlinear_arith)
        requires d.tiles_x <= 0xffff, d.tiles_y <= 0xffff;
    if (d.tiles_x as u64) * (d.tiles_y as u64) > MAX_TILE_COUNT {
        return Err(CafeError::UnsupportedFeature("iDIM: tiles_x * tiles_y exceeds maximum allowed tile count", Some((d.tiles_x as u64) * (d.tiles_y as u64))));
    }
    Ok(())
}

// ---------------------------------------------------------------------------
// cHDR
// ---------------------------------------------------------------------------

/// HDR metadata as stored: transfer function, color primaries, the bit
/// patterns of the maximum and minimum luminance (IEEE-754 single
/// precision), and the optional content light levels.
#[derive(Clone, Copy, Debug, PartialEq, Eq, Structural)]
pub struct ChdrFields {
    pub transfer_function: u8,
    pub color_primaries: u8,
    pub max_luminance_bits: u32,
    pub min_luminance_bits: u32,
    pub max_cll: Option<u32>,
    pub max_fall: Option<u32>,
}

/// The `cHDR` payload: 10 bytes, then `max_cll` and `max_fall` when present.
pub open spec fn chdr_payload(c: ChdrFields) -> Seq<u8> {
    seq![c.transfer_function, c.color_primaries] + be32_bytes(c.max_luminance_bits) + be32_bytes(c.min_luminance_bits)
        + (match c.max_cll { Some(v) => be32_bytes(v), None => Seq::empty() })
        + (match c.max_fall { Some(v) => be32_bytes(v), None => Seq::empty() })
}

/// What reading a decompressed `cHDR` payload yields: it must be 10, 14 or
/// 18 bytes long.
pub open spec fn parse_chdr_spec(d: Seq<u8>) -> Result<ChdrFields, CafeError> {
    if !(d.len() == 10 || d.len() == 14 || d.len() == 18) {
        Err(CafeError::TruncatedFile("cHDR: payload must be 10, 14 or 18 bytes"))
    } else {
        Ok(ChdrFields {
            transfer_function: d[0],
            color_primaries: d[1],
            max_luminance_bits: be32_at(d, 2),
            min_luminance_bits: be32_at(d, 6),
            max_cll: if d.len() >= 14 { Some(be32_at(d, 10)) } else { None },
            max_fall: if d.len() >= 18 { Some(be32_at(d, 14)) } else { None },
        })
    }
}

/// Reads a `cHDR` chunk: decompresses it, then checks its size (10, 14 or
/// 18 bytes) and reads its fields.
pub fn read_chdr_chunk(flag: u8, data: &[u8]) -> (r: Result<ChdrFields, CafeError>)
    ensures
        match r {
            Ok(c) => decompress_with_limit_spec(flag, data@, None, MAX_DECOMPRESSED_CHUNK_SIZE) matches Ok(d)
                && parse_chdr_spec(d) == Ok::<ChdrFields, CafeError>(c),
            Err(e) => match decompress_with_limit_spec(flag, data@, None, MAX_DECOMPRESSED_CHUNK_SIZE) {
                Err(e2) => e == e2,
                Ok(d) => parse_chdr_spec(d) == Err::<ChdrFields, CafeError>(e),
            },
        },
{
    let d = match decompress_chunk(flag, data) {
        Ok(d) => d,
        Err(e) => return Err(e),
    };
    let n = d.len();
    if !(n == 10 || n == 14 || n == 18) {
        return Err(CafeError::TruncatedFile("cHDR: payload must be 10, 14 or 18 bytes"));
    }
    let s = d.as_slice();
    let max_l = match crate::color::read_u32_be(s, 2) { Ok(v) => v, Err(e) => return Err(e) };
    let min_l = match crate::color::read_u32_be(s, 6) { Ok(v) => v, Err(e) => return Err(e) };
    let max_cll = if n >= 14 {
        match crate::color::read_u32_be(s, 10) { Ok(v) => Some(v), Err(e) => return Err(e) }
    } else {
        None
    };
    let max_fall = if n >= 18 {
        match crate::color::read_u32_be(s, 14) { Ok(v) => Some(v), Err(e) => return Err(e) }
    } else {
        None
    };
    Ok(ChdrFields {
        transfer_function: d[0],
        color_primaries: d[1],
        max_luminance_bits: max_l,
        min_luminance_bits: min_l,
        max_cll,
        max_fall,
    })
}

/// Writes a `cHDR` chunk, compressed when that is smaller.
pub fn write_chdr_chunk(chdr: &ChdrFields, level: i32) -> (r: Result<Vec<u8>, CafeError>)
    ensures
        match r {
            Ok(bytes) => compress_with_fallback_spec(chdr_payload(*chdr), level)
                matches Ok((flag, data)) && bytes@ == chunk_bytes(CHUNK_CHDR@, flag, data),
            Err(e) => compress_with_fallback_spec(chdr_payload(*chdr), level) == Err::<(u8, Seq<u8>), CafeError>(e),
        },
        packs_back(chdr_payload(*chdr), level),
{
    let mut payload: Vec<u8> = Vec::with_capacity(18);
    payload.push(chdr.transfer_function);
    payload.push(chdr.color_primaries);
    crate::color::push_be32(&mut payload, chdr.max_luminance_bits);
    crate::color::push_be32(&mut payload, chdr.min_luminance_bits);
    match chdr.max_cll {
        Some(v) => crate::color::push_be32(&mut payload, v),
        None => {},
    }
    match chdr.max_fall {
        Some(v) => crate::color::push_be32(&mut payload, v),
        None => {},
    }
    assert(payload@ =~= chdr_payload(*chdr));
    let (flag, data) = match compress_with_fallback(payload.as_slice(), level) {
        Ok(c) => c,
        Err(e) => return Err(e),
    };
    Ok(write_chunk(&CHUNK_CHDR, flag, data.as_slice()))
}

/// `cHDR` round trip: the payload written for `c` reads back as `c`,
/// whenever `max_fall` comes with `max_cll` (the payload has no room to
/// tell a lone `max_fall` from a lone `max_cll`).
pub proof fn lemma_chdr_roundtrip(c: ChdrFields)
    requires c.max_fall is Some ==> c.max_cll is Some,
    ensures parse_chdr_spec(chdr_payload(c)) == Ok::<ChdrFields, CafeError>(c),
{
    let p = chdr_payload(c);
    assert(p.subrange(2, 6) =~= be32_bytes(c.max_luminance_bits));
    assert(p.subrange(6, 10) =~= be32_bytes(c.min_luminance_bits));
    crate::header::lemma_be32_at_bytes(c.max_luminance_bits, p, 2);
    crate::header::lemma_be32_at_bytes(c.min_luminance_bits, p, 6);
    match c.max_cll {
        Some(v) => {
            assert(p.subrange(10, 14) =~= be32_bytes(v));
            crate::header::lemma_be32_at_bytes(v, p, 10);
            match c.max_fall {
                Some(u) => {
                    assert(p.subrange(14, 18) =~= be32_bytes(u));
                    crate::header::lemma_be32_at_bytes(u, p, 14);
                },
                None => {},
            }
        },
        None => {},
    }
}

/// Whatever the fields, the `cHDR` payload has a length the parser takes.
pub proof fn lemma_chdr_parses(c: ChdrFields)
    ensures parse_chdr_spec(chdr_payload(c)) is Ok,
{
}

} // verus!
