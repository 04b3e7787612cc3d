# cafe

A codec for the CAFE image format (chunked, CRC-checked, Zstandard-compressed
images with predictive filters, byte shuffling, interlacing, 2D tiling and
palettes), written in Verus: every function of the library carries a
contract that Verus proves.

## Layout

- `src/` — the verified library.
  - `chunk`, `codec`: chunk framing, CRC-32, compression with a raw fallback
    and decompression under a byte ceiling.
  - `header`, `ancillary`, `decode`: the decoder, as a step function per
    chunk over a model of the decoder state, and whole-file decoding.
  - `encode`, `indexed_encode`, `stream`: the whole-file encoders and the
    streaming encoder.
  - `stream_decode`: the streaming decoder, fed one chunk at a time.
  - `filter`, `filter_choice`, `shuffle`, `interlace`, `packing`,
    `simd_packing`, `color`, `zorder`: the pixel transforms.
  - `quantize`, `indexed`, `palette`: palette construction and mapping.
  - `roundtrip`, `interlace_roundtrip`, `meta_roundtrip`, `depth_laws`: the
    laws relating encoding to decoding.
- `app/` — the command-line program: file and stream I/O, image loading and
  the floating-point sample conversions.
- `tests/` — tests run against the compiled library.

Calls into `crc32fast`, `zstd` and `serde_json` stand behind small trusted
wrappers whose contracts say what those crates document.
