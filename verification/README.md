# stream_vbyte64

Byte-aligned compression of 64-bit integers, verified with Verus.

Each value is stored as its little-endian bytes without leading zeros. How many
bytes that is, less one, is a three-bit code; the codes of eight values are packed
into three key bytes. All key bytes come first, then the bytes of all values. The
number of values is not stored.

- `src/wire.rs`: the format as mathematics, and lemmas about it
- `src/scalar.rs`: the plain codec, one value at a time
- `src/vector.rs`: a portable 256-bit vector with the operations of the block codec
- `src/tables.rs`: lengths and shuffles of a block of four values
- `src/avx.rs`: the block codec, four values at a time
- `src/lib.rs`: `encode`, `decode` and the lengths of buffers
- `src/laws.rs`: what holds of the codec as a whole
