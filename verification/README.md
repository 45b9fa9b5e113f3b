# bencoderus

Encoding and decoding of the Bencode format, verified with Verus.

- `src/value.rs`: the `Bencoding` value, its model `SpecBencoding`, what
  encoding needs (no `Eof`), and what decoded values have (dictionary keys
  strictly increasing).
- `src/cursor.rs`: `ByteIter`, a forward reader over bytes.
- `src/number.rs`: decimal numbers: reading them as `u64::from_str` does
  after `str::trim`, and writing them.
- `src/grammar.rs`: what the decoder makes of any byte sequence, as spec
  functions.
- `src/libdecode.rs`: the decoder, proved to follow `grammar.rs`:
  `try_decode` says why bytes are refused; `decode` requires bytes that
  decode.
- `src/libencode.rs`: the encoder and its spec `spec_encode`; it writes
  dictionary keys in sorted order.
- `src/laws.rs`: decoding an encoding gives back the value with its
  dictionaries normalised (entries sorted by key, of equal keys the last),
  which is the value itself where its dictionaries are already ordered,
  whatever bytes follow; encoding a value and its normal form give the same
  bytes; encoding what an encoding decodes to gives back those bytes;
  decoded dictionaries hold each key once, in order; encoded keys strictly
  increase.
