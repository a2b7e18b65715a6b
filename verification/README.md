# b64_url

URL-safe base64 (RFC 4648, section 5) encoding and decoding, with or without
`=` padding, verified with Verus.

- `src/spec.rs` — the mathematical model: the alphabet, encoding group by
  group, decoding under both configurations, and which texts are canonical.
- `src/tables.rs` — the alphabet as a function and the lookup tables built
  from it.
- `src/encode.rs`, `src/decode.rs` — the encoder and the decoders, writing
  into a caller's buffer; `src/lib.rs` holds the public API on top of them.
- `src/laws.rs` — round trips in both directions, encoding piece by piece at
  group boundaries, the lengths, and what padding adds.
- `app/` — what runs outside Verus: multi-threaded encoding of large inputs
  with rayon, and the x86-64 SIMD entry points of the decoder.

The decoders do not validate their input (hence the `unsafe_` in their names):
a byte outside the alphabet reads as 0. Their contracts say exactly what they
return for every input, and `laws::law_decode_encode` shows that they invert
the encoder.
