//! Chunk framing: `Length (4, big-endian) | Type (4) | Flag (1) | Data |
//! CRC32 (4, big-endian)`, the CRC32 taken over Type, Flag and Data.

use vstd::prelude::*;

use crate::color::{be32_at, be32_bytes};
use crate::constants::MAX_DECOMPRESSED_CHUNK_SIZE;
use crate::error::CafeError;

verus! {

/// The CRC-32 (IEEE) checksum of `bytes`, as computed by `crc32fast`.
pub uninterp spec fn crc32_of(bytes: Seq<u8>) -> u32;

/// Calls `crc32fast::hash`, which returns the CRC-32 (IEEE 802.3) checksum of
/// its input. The contract names that value `crc32_of(bytes)` and says
/// nothing more about it.
#[verifier::external_body]
pub(crate) fn crc32(bytes: &[u8]) -> (r: u32)
    ensures r == crc32_of(bytes@),
{
    crc32fast::hash(bytes)
}

/// The bytes a chunk's CRC32 covers: Type, Flag, Data.
pub open spec fn chunk_body(chunk_type: Seq<u8>, flag: u8, data: Seq<u8>) -> Seq<u8> {
    chunk_type + seq![flag] + data
}

/// The CRC32 of a chunk.
pub open spec fn chunk_crc(chunk_type: Seq<u8>, flag: u8, data: Seq<u8>) -> u32 {
    crc32_of(chunk_body(chunk_type, flag, data))
}

/// A whole chunk as written: the Length field holds the data length cut to
/// 32 bits.
pub open spec fn chunk_bytes(chunk_type: Seq<u8>, flag: u8, data: Seq<u8>) -> Seq<u8> {
    be32_bytes(data.len() as u32) + chunk_type + seq![flag] + data + be32_bytes(chunk_crc(chunk_type, flag, data))
}

/// Computes the CRC32 of a chunk's Type, Flag and Data.
pub fn compute_chunk_crc(chunk_type: &[u8; 4], flag: u8, data: &[u8]) -> (r: u32)
    ensures r == chunk_crc(chunk_type@, flag, data@),
{
    let mut body: Vec<u8> = Vec::with_capacity(5);
    crate::bytes::append_bytes(&mut body, chunk_type.as_slice());
    body.push(flag);
    crate::bytes::append_bytes(&mut body, data);
    assert(body@ =~= chunk_body(chunk_type@, flag, data@));
    crc32(body.as_slice())
}

/// A chunk type byte must be an ASCII letter.
pub open spec fn is_chunk_type_byte(b: u8) -> bool {
    (65 <= b <= 90) || (97 <= b <= 122)
}

/// All four bytes of a chunk type are ASCII letters.
pub open spec fn valid_chunk_type(t: Seq<u8>) -> bool {
    forall|i: int| 0 <= i < t.len() ==> #[trigger] is_chunk_type_byte(t[i])
}

/// Checks that a chunk type is four ASCII letters; `TruncatedFile` otherwise.
pub fn validate_chunk_type(chunk_type: &[u8; 4]) -> (r: Result<(), CafeError>)
    ensures
        r is Ok <==> valid_chunk_type(chunk_type@),
        r matches Err(e) ==> e == CafeError::TruncatedFile("invalid chunk type (bytes must be A-Z or a-z)"),
{
    let mut i: usize = 0;
    while i < 4
        invariant
            i <= 4, chunk_type@.len() == 4,
            forall|k: int| 0 <= k < i ==> #[trigger] is_chunk_type_byte(chunk_type@[k]),
        decreases 4 - i,
    {
        let b = chunk_type[i];
        if !((b >= 65 && b <= 90) || (b >= 97 && b <= 122)) {
            assert(!is_chunk_type_byte(chunk_type@[i as int]));
            return Err(CafeError::TruncatedFile("invalid chunk type (bytes must be A-Z or a-z)"));
        }
        i += 1;
    }
    Ok(())
}

/// Assembles a chunk: Length, Type, Flag, Data and the CRC32 of Type, Flag
/// and Data.
pub fn write_chunk(chunk_type: &[u8; 4], flag: u8, data: &[u8]) -> (out: Vec<u8>)
    ensures out@ == chunk_bytes(chunk_type@, flag, data@),
{
    let crc = compute_chunk_crc(chunk_type, flag, data);
    let mut out: Vec<u8> = Vec::with_capacity(13);
    #[verifier::truncate]
    let len32: u32 = data.len() as u32;
    crate::color::push_be32(&mut out, len32);
    crate::bytes::append_bytes(&mut out, chunk_type.as_slice());
    out.push(flag);
    crate::bytes::append_bytes(&mut out, data);
    crate::color::push_be32(&mut out, crc);
    assert(out@ =~= chunk_bytes(chunk_type@, flag, data@));
    out
}

/// A chunk read from a buffer, and where the next chunk starts.
#[derive(Debug)]
pub struct ReadChunk {
    pub chunk_type: [u8; 4],
    pub flag: u8,
    pub data: Vec<u8>,
    pub next_offset: usize,
}

/// What reading the chunk at `offset` of `buf` yields: its type, flag, data
/// and end, or the error.
#[verifier::opaque]
pub open spec fn read_chunk_spec(buf: Seq<u8>, offset: nat) -> Result<(Seq<u8>, u8, Seq<u8>, nat), CafeError> {
    let o = offset as int;
    if o + 9 > buf.len() {
        Err(CafeError::TruncatedFile("chunk header extends past the end of the file"))
    } else {
        let length = be32_at(buf, o) as int;
        let t = buf.subrange(o + 4, o + 8);
        let flag = buf[o + 8];
        let data_start = o + 9;
        if !valid_chunk_type(t) {
            Err(CafeError::TruncatedFile("invalid chunk type (bytes must be A-Z or a-z)"))
        } else if data_start + length + 4 > buf.len() {
            Err(CafeError::TruncatedFile("chunk data extends past the end of the file"))
        } else {
            let data = buf.subrange(data_start, data_start + length);
            let expected = be32_at(buf, data_start + length);
            let actual = chunk_crc(t, flag, data);
            if actual != expected {
                Err(CafeError::CrcMismatch { chunk_type: be32_at(t, 0), expected, actual })
            } else {
                Ok((t, flag, data, (data_start + length + 4) as nat))
            }
        }
    }
}

/// A chunk that reads ends after where it starts, within the buffer.
pub proof fn lemma_read_chunk_end(buf: Seq<u8>, offset: nat)
    ensures read_chunk_spec(buf, offset) matches Ok((_, _, _, n)) ==> offset < n <= buf.len(),
{
    reveal(read_chunk_spec);
}

/// Reads the chunk at `offset`, checking its bounds, type and CRC32.
pub fn read_chunk(buf: &[u8], offset: usize) -> (r: Result<ReadChunk, CafeError>)
    ensures
        match r {
            Ok(c) => read_chunk_spec(buf@, offset as nat)
                == Ok::<(Seq<u8>, u8, Seq<u8>, nat), CafeError>((c.chunk_type@, c.flag, c.data@, c.next_offset as nat)),
            Err(e) => read_chunk_spec(buf@, offset as nat) == Err::<(Seq<u8>, u8, Seq<u8>, nat), CafeError>(e),
        },
{
    proof {
        reveal(read_chunk_spec);
    }
    let len = buf.len();
    if offset > len || len - offset < 9 {
        return Err(CafeError::TruncatedFile("chunk header extends past the end of the file"));
    }
    let length = match crate::color::read_u32_be(buf, offset) {
        Ok(v) => v as usize,
        Err(e) => return Err(e),
    };
    let chunk_type: [u8; 4] = [buf[offset + 4], buf[offset + 5], buf[offset + 6], buf[offset + 7]];
    assert(chunk_type@ =~= buf@.subrange(offset + 4, offset + 8));
    match validate_chunk_type(&chunk_type) {
        Ok(()) => {},
        Err(e) => return Err(e),
    }
    let flag = buf[offset + 8];
    let data_start = offset + 9;
    if length > len - data_start || len - data_start - length < 4 {
        return Err(CafeError::TruncatedFile("chunk data extends past the end of the file"));
    }
    let data_end = data_start + length;
    let data = crate::bytes::copy_bytes(&buf[data_start..data_end]);
    let expected = match crate::color::read_u32_be(buf, data_end) {
        Ok(v) => v,
        Err(e) => return Err(e),
    };
    let actual = compute_chunk_crc(&chunk_type, flag, data.as_slice());
    if actual != expected {
        return Err(CafeError::CrcMismatch { chunk_type: type_code(&chunk_type), expected, actual });
    }
    Ok(ReadChunk { chunk_type, flag, data, next_offset: data_end + 4 })
}

proof fn lemma_be32_roundtrip(v: u32, s: Seq<u8>, o: int)
    requires 0 <= o, o + 4 <= s.len(), s.subrange(o, o + 4) == be32_bytes(v),
    ensures be32_at(s, o) == v,
{
    assert(s[o] == be32_bytes(v)[0]);
    assert(s[o + 1] == be32_bytes(v)[1]);
    assert(s[o + 2] == be32_bytes(v)[2]);
    assert(s[o + 3] == be32_bytes(v)[3]);
    let a = v / 0x100_0000;
    let b = (v / 0x1_0000) % 256;
    let c = (v / 0x100) % 256;
    let d = v % 256;
    assert(a * 0x100_0000 + b * 0x1_0000 + c * 0x100 + d == v) by {
        vstd::arithmetic::div_mod::lemma_fundamental_div_mod(v as int, 256);
        vstd::arithmetic::div_mod::lemma_fundamental_div_mod(v as int / 256, 256);
        vstd::arithmetic::div_mod::lemma_fundamental_div_mod(v as int / 0x1_0000, 256);
        vstd::arithmetic::div_mod::lemma_div_denominator(v as int, 256, 256);
        vstd::arithmetic::div_mod::lemma_div_denominator(v as int, 0x1_0000, 256);
    }
}

/// Chunk round trip: reading a chunk written with a four-letter type and at
/// most `u32::MAX` data bytes gives back its type, flag and data, and the
/// offset just past it, whatever follows it.
pub proof fn lemma_chunk_roundtrip(chunk_type: Seq<u8>, flag: u8, data: Seq<u8>, rest: Seq<u8>)
    requires
        chunk_type.len() == 4,
        valid_chunk_type(chunk_type),
        data.len() <= u32::MAX,
    ensures
        read_chunk_spec(chunk_bytes(chunk_type, flag, data) + rest, 0)
            == Ok::<(Seq<u8>, u8, Seq<u8>, nat), CafeError>((chunk_type, flag, data, 13 + data.len())),
{
    reveal(read_chunk_spec);
    let bytes = chunk_bytes(chunk_type, flag, data);
    let buf = bytes + rest;
    let n = data.len() as int;
    assert(buf.subrange(0, 4) =~= be32_bytes(data.len() as u32));
    lemma_be32_roundtrip(data.len() as u32, buf, 0);
    assert(buf.subrange(4, 8) =~= chunk_type);
    assert(buf[8] == flag);
    assert(buf.subrange(9, 9 + n) =~= data);
    assert(buf.subrange(9 + n, 13 + n) =~= be32_bytes(chunk_crc(chunk_type, flag, data)));
    lemma_be32_roundtrip(chunk_crc(chunk_type, flag, data), buf, 9 + n);
}

// ---------------------------------------------------------------------------
// Chunks read from a stream
// ---------------------------------------------------------------------------

/// Bytes of a chunk header: Length, Type, Flag.
pub const CHUNK_HEADER_LEN: usize = 9;

/// What the nine header bytes of a streamed chunk say: type, flag and data
/// length, or the error (a non-letter type; a Length above the 1 GiB
/// ceiling, checked before any data is read).
pub open spec fn chunk_header_spec(header: Seq<u8>) -> Result<(Seq<u8>, u8, nat), CafeError> {
    let t = header.subrange(4, 8);
    if !valid_chunk_type(t) {
        Err(CafeError::TruncatedFile("invalid chunk type (bytes must be A-Z or a-z)"))
    } else if be32_at(header, 0) > MAX_DECOMPRESSED_CHUNK_SIZE {
        Err(CafeError::DecompressionLimitExceeded { limit: MAX_DECOMPRESSED_CHUNK_SIZE })
    } else {
        Ok((t, header[8], be32_at(header, 0) as nat))
    }
}

/// Streamed chunk round trip: the nine header bytes of a chunk written with
/// a four-letter type and at most 1 GiB of data give back its type, flag and
/// data length; the data follows them, and the four bytes after the data
/// hold the CRC32 that `finish_streamed_chunk` checks.
pub proof fn lemma_streamed_chunk_roundtrip(chunk_type: Seq<u8>, flag: u8, data: Seq<u8>)
    requires
        chunk_type.len() == 4,
        valid_chunk_type(chunk_type),
        data.len() <= MAX_DECOMPRESSED_CHUNK_SIZE,
    ensures ({
        let b = chunk_bytes(chunk_type, flag, data);
        let n = data.len() as int;
        &&& b.len() == 13 + n
        &&& chunk_header_spec(b.take(9)) == Ok::<(Seq<u8>, u8, nat), CafeError>((chunk_type, flag, data.len()))
        &&& b.subrange(9, 9 + n) == data
        &&& be32_at(b.subrange(9 + n, 13 + n), 0) == chunk_crc(chunk_type, flag, data)
    }),
{
    let b = chunk_bytes(chunk_type, flag, data);
    let n = data.len() as int;
    let h = b.take(9);
    assert(h.subrange(0, 4) =~= be32_bytes(data.len() as u32));
    lemma_be32_roundtrip(data.len() as u32, h, 0);
    assert(h.subrange(4, 8) =~= chunk_type);
    assert(h[8] == flag);
    assert(b.subrange(9, 9 + n) =~= data);
    let c = b.subrange(9 + n, 13 + n);
    assert(c.subrange(0, 4) =~= be32_bytes(chunk_crc(chunk_type, flag, data)));
    lemma_be32_roundtrip(chunk_crc(chunk_type, flag, data), c, 0);
}

/// Decodes the nine header bytes of a streamed chunk into its type, flag and
/// data length.
pub fn parse_chunk_header(header: &[u8; 9]) -> (r: Result<([u8; 4], u8, usize), CafeError>)
    ensures
        match r {
            Ok((t, f, n)) => chunk_header_spec(header@) == Ok::<(Seq<u8>, u8, nat), CafeError>((t@, f, n as nat)),
            Err(e) => chunk_header_spec(header@) == Err::<(Seq<u8>, u8, nat), CafeError>(e),
        },
{
    let length = match crate::color::read_u32_be(header.as_slice(), 0) {
        Ok(v) => v,
        Err(e) => return Err(e),
    };
    let chunk_type: [u8; 4] = [header[4], header[5], header[6], header[7]];
    assert(chunk_type@ =~= header@.subrange(4, 8));
    match validate_chunk_type(&chunk_type) {
        Ok(()) => {},
        Err(e) => return Err(e),
    }
    if length as u64 > MAX_DECOMPRESSED_CHUNK_SIZE {
        return Err(CafeError::DecompressionLimitExceeded { limit: MAX_DECOMPRESSED_CHUNK_SIZE });
    }
    Ok((chunk_type, header[8], length as usize))
}

/// A chunk type's four bytes read as a big-endian number.
fn type_code(t: &[u8; 4]) -> (r: u32)
    ensures r == be32_at(t@, 0),
{
    (t[0] as u32) * 0x100_0000 + (t[1] as u32) * 0x1_0000 + (t[2] as u32) * 0x100 + (t[3] as u32)
}

/// Checks a streamed chunk's CRC32 footer against its type, flag and data.
pub fn finish_streamed_chunk(chunk_type: [u8; 4], flag: u8, data: Vec<u8>, crc_bytes: &[u8; 4]) -> (r: Result<ReadChunk, CafeError>)
    ensures
        match r {
            Ok(c) => c.chunk_type == chunk_type && c.flag == flag && c.data@ == data@ && c.next_offset == 0
                && chunk_crc(chunk_type@, flag, data@) == be32_at(crc_bytes@, 0),
            Err(e) => e == (CafeError::CrcMismatch { chunk_type: be32_at(chunk_type@, 0), expected: be32_at(crc_bytes@, 0), actual: chunk_crc(chunk_type@, flag, data@) })
                && chunk_crc(chunk_type@, flag, data@) != be32_at(crc_bytes@, 0),
        },
{
    let expected = match crate::color::read_u32_be(crc_bytes.as_slice(), 0) {
        Ok(v) => v,
        Err(e) => return Err(e),
    };
    let actual = compute_chunk_crc(&chunk_type, flag, data.as_slice());
    if actual != expected {
        return Err(CafeError::CrcMismatch { chunk_type: type_code(&chunk_type), expected, actual });
    }
    Ok(ReadChunk { chunk_type, flag, data, next_offset: 0 })
}

} // verus!
