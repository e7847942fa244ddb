//! Byte-aligned compression of 64-bit integers.
//!
//! Each value is stored in as few whole bytes as hold it. The lengths are kept
//! apart from the values, as three-bit codes, eight of them in three bytes.
pub mod avx;
pub mod laws;
pub mod scalar;
pub mod tables;
pub mod vector;
pub mod wire;

pub use crate::avx::{decode_avx, encode_avx};
pub use crate::scalar::{decode_scalar, decode_single, encode_scalar, encode_single};
use crate::scalar::read_key;
use vstd::prelude::*;

verus! {

/// How many key bytes `values` values need.
pub fn keys_len(values: usize) -> (len: usize)
    requires
        values + 7 <= usize::MAX,
    ensures
        len == wire::key_len(values as nat),
        len % 3 == 0,
        values <= 8 * (len / 3) < values + 8,
{
    ((values + 7) / 8) * 3
}

/// How many bytes the encoding of `values` values can take at most.
pub fn max_compressed_len(values: usize) -> (len: usize)
    requires
        wire::max_len(values as nat) <= usize::MAX,
    ensures
        len == wire::max_len(values as nat),
        len == wire::key_len(values as nat) + 8 * values,
{
    keys_len(values) + values * 8
}

/// How many data bytes `values` values take, by the key bytes at the front of
/// `data`, where the codes behind the last value are zero and `values` is not a
/// multiple of eight. Where it is one, this is eight bytes less than they take.
pub fn compressed_data_len(values: usize, data: &[u8]) -> (len: usize)
    requires
        0 < values,
        values + 7 <= usize::MAX,
        wire::key_len(values as nat) <= data.len(),
        wire::offset(data@, 8 * wire::groups(values as nat)) <= usize::MAX,
    ensures
        len == wire::compressed_len(data@, values as nat),
{
    let mut len: usize = 0;
    let keys: usize = keys_len(values) / 3;
    let mut i: usize = 0;
    while i < keys
        invariant
            i <= keys,
            keys == wire::groups(values as nat),
            3 * keys <= data.len(),
            wire::offset(data@, 8 * keys as nat) <= usize::MAX,
            len == wire::offset(data@, 8 * i as nat),
        decreases keys - i,
    {
        let key: u32 = read_key(data, 3 * i);
        proof {
            tables::lemma_key_lengths(data@, i as nat, key as nat);
            wire::lemma_offset_bounds(data@, (8 * i + 8) as nat, 8 * keys as nat);
            assert(key & 0xfff == key % 4096) by (bit_vector);
            assert(key >> 12 == key / 4096) by (bit_vector);
        }
        len = len + tables::length(key & 0xfff) as usize;
        len = len + tables::length(key >> 12) as usize;
        i = i + 1;
    }
    proof {
        wire::lemma_offset_bounds(data@, 0, 8 * keys as nat);
    }
    len - (8 - values % 8)
}

/// Writes the encoding of `input` to the front of `buf` and returns its length.
/// What lies behind it stays as it is.
pub fn encode(input: &[u64], buf: &mut [u8]) -> (written: usize)
    requires
        wire::max_len(input@.len()) <= old(buf).len(),
    ensures
        written == wire::encoded(input@).len(),
        final(buf)@ == wire::splice(old(buf)@, 0, wire::encoded(input@)),
        written == wire::key_len(input@.len()) + wire::data_bytes(input@).len(),
        final(buf)@.len() == old(buf)@.len(),
        final(buf)@.subrange(0, written as int) == wire::key_bytes(input@) + wire::data_bytes(
            input@,
        ),
        forall|b: int|
            written <= b < old(buf)@.len() ==> #[trigger] final(buf)@[b] == old(buf)@[b],
{
    let ghost before: Seq<u8> = buf@;
    let keys_len: usize = keys_len(input.len());
    let (keys, data) = buf.split_at_mut(keys_len);
    proof {
        wire::lemma_data_bytes_bound(input@);
        assert(wire::splice(keys@, 0, wire::key_bytes(input@)) =~= wire::key_bytes(input@));
        let all: Seq<u8> = wire::encoded(input@);
        assert(wire::key_bytes(input@) + wire::splice(data@, 0, wire::data_bytes(input@))
            =~= wire::splice(before, 0, all));
        assert(wire::splice(before, 0, all).subrange(0, all.len() as int) =~= all);
    }
    let written: usize = encode_scalar(input, keys, data);
    keys_len + written
}

/// Fills `output` with the values that the encoding at the front of `buf` holds.
/// Returns how many data bytes they take.
pub fn decode(output: &mut [u64], buf: &[u8]) -> (read: usize)
    requires
        0 < old(output)@.len(),
        wire::key_len(old(output)@.len()) <= buf.len(),
        wire::key_len(old(output)@.len()) + wire::compressed_len(
            buf@.take(wire::key_len(old(output)@.len()) as int),
            old(output)@.len(),
        ) <= buf.len(),
        wire::key_len(old(output)@.len()) + wire::offset(
            buf@.take(wire::key_len(old(output)@.len()) as int),
            old(output)@.len(),
        ) <= buf.len(),
    ensures
        read == wire::offset(
            buf@.take(wire::key_len(old(output)@.len()) as int),
            old(output)@.len(),
        ),
        final(output)@ == wire::decoded(
            buf@.take(wire::key_len(old(output)@.len()) as int),
            buf@.skip(wire::key_len(old(output)@.len()) as int),
            old(output)@.len(),
        ),
{
    proof {
        wire::lemma_offset_bounds(
            buf@.take(wire::key_len(output@.len()) as int),
            0,
            output@.len(),
        );
    }
    let keys_len: usize = keys_len(output.len());
    let (keys, data) = buf.split_at(keys_len);
    decode_scalar(output, keys, data)
}

} // verus!
