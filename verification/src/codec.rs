//! Chunk payload compression: Zstandard with a fallback to raw storage, and
//! decompression bounded by a byte limit (protection against decompression
//! bombs).

use vstd::prelude::*;
use crate::constants::{FLAG_RAW, FLAG_ZSTD, MAX_DECOMPRESSED_CHUNK_SIZE};
use crate::error::CafeError;
use crate::bytes::copy_bytes;

verus! {

/// `std::io::Error`, the error type of the Zstandard crate's calls.
#[verifier::external_type_specification]
#[verifier::external_body]
pub struct ExIoError(std::io::Error);

/// The frame `zstd::encode_all` produces for `raw` at `level`, or `None`
/// when it reports an error.
pub uninterp spec fn zstd_encoded(raw: Seq<u8>, level: i32) -> Option<Seq<u8>>;

/// The frame a `zstd::bulk::Compressor` built with dictionary `dict` at
/// `level` produces for `raw`, or `None` when it reports an error.
pub uninterp spec fn zstd_dict_encoded(raw: Seq<u8>, level: i32, dict: Seq<u8>) -> Option<Seq<u8>>;

/// The first (at most `cap`) bytes a `zstd::stream::read::Decoder` yields for
/// `data`, or `None` when reading them reports an error.
pub uninterp spec fn zstd_decoded_prefix(data: Seq<u8>, cap: u64) -> Option<Seq<u8>>;

/// Same as `zstd_decoded_prefix`, for a decoder built with dictionary `dict`.
pub uninterp spec fn zstd_dict_decoded_prefix(data: Seq<u8>, dict: Seq<u8>, cap: u64) -> Option<Seq<u8>>;

/// Calls `zstd::encode_all(raw, level)`. The contract names its result and
/// states the crate's purpose: decoding the frame gives `raw` back whenever
/// the decoder may yield at least `raw.len()` bytes.
#[verifier::external_body]
fn zstd_encode_all(raw: &[u8], level: i32) -> (r: Result<Vec<u8>, std::io::Error>)
    ensures
        match r {
            Ok(v) => zstd_encoded(raw@, level) == Some(v@),
            Err(_) => zstd_encoded(raw@, level) is None,
        },
        r matches Ok(v) ==> forall|cap: u64| cap >= raw@.len() ==> #[trigger] zstd_decoded_prefix(v@, cap) == Some(raw@),
{
    zstd::encode_all(raw, level)
}

/// Calls `zstd::bulk::Compressor::with_dictionary(level, dict)` and then its
/// `compress(raw)`. The contract names the result and states what the
/// crate documents of it: a decoder given the same dictionary gives `raw`
/// back whenever it may yield at least `raw.len()` bytes.
#[verifier::external_body]
fn zstd_compress_with_dict(raw: &[u8], level: i32, dict: &[u8]) -> (r: Result<Vec<u8>, std::io::Error>)
    ensures
        match r {
            Ok(v) => zstd_dict_encoded(raw@, level, dict@) == Some(v@),
            Err(_) => zstd_dict_encoded(raw@, level, dict@) is None,
        },
        r matches Ok(v) ==> forall|cap: u64| cap >= raw@.len() ==> #[trigger] zstd_dict_decoded_prefix(v@, dict@, cap) == Some(raw@),
{
    zstd::bulk::Compressor::with_dictionary(level, dict)?.compress(raw)
}

/// Reads at most `cap` bytes from `zstd::stream::read::Decoder::new` over
/// `data` (`Read::take` then `Read::read_to_end`); the contract names the
/// result and states that no more than `cap` bytes come back.
#[verifier::external_body]
fn zstd_decode_capped(data: &[u8], cap: u64) -> (r: Result<Vec<u8>, std::io::Error>)
    ensures
        match r {
            Ok(v) => zstd_decoded_prefix(data@, cap) == Some(v@) && v@.len() <= cap,
            Err(_) => zstd_decoded_prefix(data@, cap) is None,
        },
{
    let decoder = zstd::stream::read::Decoder::new(std::io::Cursor::new(data))?;
    let mut out = Vec::new();
    std::io::Read::read_to_end(&mut std::io::Read::take(decoder, cap), &mut out)?;
    Ok(out)
}

/// Same as `zstd_decode_capped`, with a decoder built by
/// `zstd::stream::read::Decoder::with_dictionary`.
#[verifier::external_body]
fn zstd_decode_capped_dict(data: &[u8], dict: &[u8], cap: u64) -> (r: Result<Vec<u8>, std::io::Error>)
    ensures
        match r {
            Ok(v) => zstd_dict_decoded_prefix(data@, dict@, cap) == Some(v@) && v@.len() <= cap,
            Err(_) => zstd_dict_decoded_prefix(data@, dict@, cap) is None,
        },
{
    let decoder = zstd::stream::read::Decoder::with_dictionary(std::io::Cursor::new(data), dict)?;
    let mut out = Vec::new();
    std::io::Read::read_to_end(&mut std::io::Read::take(decoder, cap), &mut out)?;
    Ok(out)
}

/// Raw-versus-Zstandard fallback: the compressed form is kept only when it is
/// strictly smaller than the input.
pub open spec fn compress_with_fallback_spec(raw: Seq<u8>, level: i32) -> Result<(u8, Seq<u8>), CafeError> {
    match zstd_encoded(raw, level) {
        None => Err(CafeError::Zstd),
        Some(c) => if c.len() < raw.len() { Ok((FLAG_ZSTD, c)) } else { Ok((FLAG_RAW, raw)) },
    }
}

/// Decompressing what the fallback rule stores for `raw` gives `raw` back,
/// when `raw` fits under the 1 GiB ceiling.
pub open spec fn packs_back(raw: Seq<u8>, level: i32) -> bool {
    compress_with_fallback_spec(raw, level) matches Ok((flag, data))
        ==> (raw.len() <= MAX_DECOMPRESSED_CHUNK_SIZE
            ==> decompress_with_limit_spec(flag, data, None, MAX_DECOMPRESSED_CHUNK_SIZE) == Ok::<Seq<u8>, CafeError>(raw))
}

/// Compresses `raw` and keeps the result only if it is smaller than `raw`;
/// returns the chunk flag and the payload.
pub fn compress_with_fallback(raw: &[u8], level: i32) -> (r: Result<(u8, Vec<u8>), CafeError>)
    ensures
        match r {
            Ok((flag, data)) => compress_with_fallback_spec(raw@, level) == Ok::<(u8, Seq<u8>), CafeError>((flag, data@)),
            Err(e) => compress_with_fallback_spec(raw@, level) == Err::<(u8, Seq<u8>), CafeError>(e),
        },
        // decompressing the payload gives the input back
        raw@.len() <= MAX_DECOMPRESSED_CHUNK_SIZE ==> (r matches Ok((flag, data))
            ==> decompress_with_limit_spec(flag, data@, None, MAX_DECOMPRESSED_CHUNK_SIZE) == Ok::<Seq<u8>, CafeError>(raw@)),
        packs_back(raw@, level),
{
    match zstd_encode_all(raw, level) {
        Err(_) => Err(CafeError::Zstd),
        Ok(compressed) => {
            if compressed.len() < raw.len() {
                assert(zstd_decoded_prefix(compressed@, (MAX_DECOMPRESSED_CHUNK_SIZE + 1) as u64) == Some(raw@)
                    || raw@.len() > MAX_DECOMPRESSED_CHUNK_SIZE);
                Ok((FLAG_ZSTD, compressed))
            } else {
                Ok((FLAG_RAW, copy_bytes(raw)))
            }
        }
    }
}

/// The fallback rule with an optional dictionary: the smallest of raw,
/// Zstandard without dictionary and Zstandard with dictionary wins (ties keep
/// the earlier candidate); the flag says whether the dictionary won.
pub open spec fn compress_with_fallback_dict_spec(raw: Seq<u8>, level: i32, dict: Option<Seq<u8>>) -> Result<(u8, Seq<u8>, bool), CafeError> {
    match zstd_encoded(raw, level) {
        None => Err(CafeError::Zstd),
        Some(plain) => {
            let best: Result<(Seq<u8>, bool), CafeError> = match dict {
                None => Ok((plain, false)),
                Some(d) => match zstd_dict_encoded(raw, level, d) {
                    None => Err(CafeError::Zstd),
                    Some(with_dict) => if with_dict.len() < plain.len() { Ok((with_dict, true)) } else { Ok((plain, false)) },
                },
            };
            match best {
                Err(e) => Err(e),
                Ok((c, used)) => if c.len() < raw.len() { Ok((FLAG_ZSTD, c, used)) } else { Ok((FLAG_RAW, raw, false)) },
            }
        },
    }
}

/// Decompressing `(flag, data)` gives `payload` back under every limit the
/// payload fits.
pub open spec fn unpacks_to(flag: u8, data: Seq<u8>, payload: Seq<u8>) -> bool {
    forall|lim: u64| payload.len() <= #[trigger] effective_limit(lim)
        ==> decompress_with_limit_spec(flag, data, None, lim) == Ok::<Seq<u8>, CafeError>(payload)
}

/// Decompressing `(flag, data)` with dictionary `dict` (or none) gives
/// `payload` back under every limit the payload fits.
pub open spec fn unpacks_with(flag: u8, data: Seq<u8>, dict: Option<Seq<u8>>, payload: Seq<u8>) -> bool {
    forall|lim: u64| payload.len() <= #[trigger] effective_limit(lim)
        ==> decompress_with_limit_spec(flag, data, dict, lim) == Ok::<Seq<u8>, CafeError>(payload)
}

pub open spec fn opt_bytes(d: Option<&[u8]>) -> Option<Seq<u8>> {
    match d {
        Some(s) => Some(s@),
        None => None,
    }
}

/// Compresses `raw` with and without the dictionary and keeps the smallest of
/// the three candidates; returns `(flag, payload, dictionary_used)`.
pub fn compress_with_fallback_dict(raw: &[u8], level: i32, dict: Option<&[u8]>) -> (r: Result<(u8, Vec<u8>, bool), CafeError>)
    ensures
        match r {
            Ok((flag, data, used)) => compress_with_fallback_dict_spec(raw@, level, opt_bytes(dict)) == Ok::<(u8, Seq<u8>, bool), CafeError>((flag, data@, used)),
            Err(e) => compress_with_fallback_dict_spec(raw@, level, opt_bytes(dict)) == Err::<(u8, Seq<u8>, bool), CafeError>(e),
        },
        // without a dictionary, decompressing the payload gives the input back
        dict is None ==> (r matches Ok((flag, data, _)) ==> unpacks_to(flag, data@, raw@)),
        // decompressing with the dictionary when it won, and without it
        // otherwise, gives the input back
        r matches Ok((flag, data, used)) ==> unpacks_with(flag, data@, if used { opt_bytes(dict) } else { None }, raw@),
        // a payload stored raw comes back whatever dictionary the reader holds
        r matches Ok((flag, data, _)) ==> (flag == FLAG_RAW ==> forall|d: Option<Seq<u8>>| #[trigger] unpacks_with(flag, data@, d, raw@)),
{
    let no_dict_compressed = match zstd_encode_all(raw, level) {
        Ok(v) => v,
        Err(_) => return Err(CafeError::Zstd),
    };
    let (best_compressed, used_dict) = match dict {
        Some(d) => {
            let dict_compressed = match zstd_compress_with_dict(raw, level, d) {
                Ok(v) => v,
                Err(_) => return Err(CafeError::Zstd),
            };
            if dict_compressed.len() < no_dict_compressed.len() {
                (dict_compressed, true)
            } else {
                (no_dict_compressed, false)
            }
        }
        None => (no_dict_compressed, false),
    };
    if best_compressed.len() < raw.len() {
        Ok((FLAG_ZSTD, best_compressed, used_dict))
    } else {
        Ok((FLAG_RAW, copy_bytes(raw), false))
    }
}

/// The effective limit: the caller's, never above the 1 GiB ceiling.
pub open spec fn effective_limit(limit: u64) -> u64 {
    if limit < MAX_DECOMPRESSED_CHUNK_SIZE { limit } else { MAX_DECOMPRESSED_CHUNK_SIZE }
}

/// What decompressing a chunk payload yields: raw payloads are copied,
/// Zstandard payloads are decoded; either is rejected when it holds more
/// than the effective limit.
pub open spec fn decompress_with_limit_spec(flag: u8, data: Seq<u8>, dict: Option<Seq<u8>>, limit: u64) -> Result<Seq<u8>, CafeError> {
    let lim = effective_limit(limit);
    if flag == FLAG_RAW {
        if data.len() > lim { Err(CafeError::DecompressionLimitExceeded { limit: lim }) } else { Ok(data) }
    } else if flag == FLAG_ZSTD {
        let decoded = match dict {
            None => zstd_decoded_prefix(data, (lim + 1) as u64),
            Some(d) => zstd_dict_decoded_prefix(data, d, (lim + 1) as u64),
        };
        match decoded {
            None => Err(CafeError::Zstd),
            Some(out) => if out.len() > lim { Err(CafeError::DecompressionLimitExceeded { limit: lim }) } else { Ok(out) },
        }
    } else {
        Err(CafeError::UnsupportedFeature("unknown chunk compression flag", None))
    }
}

/// Decompresses a chunk payload, producing at most `limit` bytes (and never
/// more than `MAX_DECOMPRESSED_CHUNK_SIZE`).
pub fn decompress_with_limit(flag: u8, data: &[u8], dict: Option<&[u8]>, limit: u64) -> (r: Result<Vec<u8>, CafeError>)
    ensures
        match r {
            Ok(v) => decompress_with_limit_spec(flag, data@, opt_bytes(dict), limit) == Ok::<Seq<u8>, CafeError>(v@),
            Err(e) => decompress_with_limit_spec(flag, data@, opt_bytes(dict), limit) == Err::<Seq<u8>, CafeError>(e),
        },
{
    let limit = if limit < MAX_DECOMPRESSED_CHUNK_SIZE { limit } else { MAX_DECOMPRESSED_CHUNK_SIZE };
    if flag == FLAG_RAW {
        if data.len() as u64 > limit {
            return Err(CafeError::DecompressionLimitExceeded { limit });
        }
        Ok(copy_bytes(data))
    } else if flag == FLAG_ZSTD {
        let decoded = match dict {
            Some(d) => zstd_decode_capped_dict(data, d, limit + 1),
            None => zstd_decode_capped(data, limit + 1),
        };
        match decoded {
            Err(_) => Err(CafeError::Zstd),
            Ok(out) => {
                if out.len() as u64 > limit {
                    Err(CafeError::DecompressionLimitExceeded { limit })
                } else {
                    Ok(out)
                }
            }
        }
    } else {
        Err(CafeError::UnsupportedFeature("unknown chunk compression flag", None))
    }
}

/// Decompresses a chunk payload under the 1 GiB ceiling.
pub fn decompress_chunk(flag: u8, data: &[u8]) -> (r: Result<Vec<u8>, CafeError>)
    ensures
        match r {
            Ok(v) => decompress_with_limit_spec(flag, data@, None, MAX_DECOMPRESSED_CHUNK_SIZE) == Ok::<Seq<u8>, CafeError>(v@),
            Err(e) => decompress_with_limit_spec(flag, data@, None, MAX_DECOMPRESSED_CHUNK_SIZE) == Err::<Seq<u8>, CafeError>(e),
        },
{
    decompress_with_limit(flag, data, None, MAX_DECOMPRESSED_CHUNK_SIZE)
}

/// Decompresses an image-data payload under a caller-given limit (what the
/// image still needs), with an optional dictionary.
pub fn decompress_chunk_dict_limited(flag: u8, data: &[u8], dict: Option<&[u8]>, limit: u64) -> (r: Result<Vec<u8>, CafeError>)
    ensures
        match r {
            Ok(v) => decompress_with_limit_spec(flag, data@, opt_bytes(dict), limit) == Ok::<Seq<u8>, CafeError>(v@),
            Err(e) => decompress_with_limit_spec(flag, data@, opt_bytes(dict), limit) == Err::<Seq<u8>, CafeError>(e),
        },
{
    decompress_with_limit(flag, data, dict, limit)
}

} // verus!
