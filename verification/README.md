# qubit-codec-binary

Buffer-oriented binary codecs over caller-managed byte slices, verified with
Verus:

- `BinaryCodec<T, O>`: fixed-width integers in big-, little- or native-endian
  byte order (`O` is a byte-order marker of `qubit_codec`).
- `Leb128Codec<T, P>`: unsigned and signed LEB128 integers. Encoding is always
  canonical; the policy `P` (`Strict` or `NonStrict`) decides whether decoding
  rejects non-canonical input. Each policy states its strictness as the spec
  function `strict_flag`, over which the decoding contracts are written.
- `ZigZagCodec<T, P>`: signed integers mapped by ZigZag onto unsigned LEB128.
- `Leb128DecodeError`: incomplete, malformed and non-canonical input, with the
  start index, the index where the failure became observable, and the
  consumed or required byte counts.

Layout:

- `src/leb128_spec.rs`: the LEB128 wire format as spec functions (payload
  values, canonical encodings, the decoding outcome) and their lemmas.
- `src/leb128_codec.rs`, `src/zig_zag_codec.rs`, `src/binary_codec.rs`: the
  codecs, each public function with a contract over those spec functions.
- `src/leb128_decode_error.rs`, `src/leb128_decode_policy.rs`: the error type
  with its invariant, and the decoding policies.
- `src/laws.rs`: proved properties that relate the functions: round trips,
  decoding under `Strict` versus `NonStrict` and canonical encoding, the
  fixed-width round trip for every width and both byte orders, the shape of
  every decode
  result, and independence from bytes past a decided value.
- `app/`: `qubit_codec::Codec` adapters, `f32`/`f64` codecs on top of the
  integer codecs, and a `Display` error.
