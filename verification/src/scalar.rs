//! The plain codec: one value at a time.
#[allow(unused_imports)]
use crate::laws;
#[allow(unused_imports)]
use crate::wire;
use vstd::arithmetic::power2::*;
use vstd::bits::*;
use vstd::prelude::*;

verus! {

/// Writes the bytes of `value` to `out` at `pos`, moves `pos` behind them and
/// returns the length code.
pub fn encode_single(value: u64, out: &mut [u8], pos: &mut usize) -> (code: u8)
    requires
        *old(pos) + wire::le_bytes(value as nat).len() <= old(out).len(),
    ensures
        code == wire::code(value),
        *final(pos) == *old(pos) + wire::le_bytes(value as nat).len(),
        final(out)@ == wire::splice(old(out)@, *old(pos) as int, wire::le_bytes(value as nat)),
        code <= 7,
        value < pow2(8 * (code + 1) as nat),
        code == 0 || pow2(8 * code as nat) <= value,
        *final(pos) == *old(pos) + code + 1,
        final(out)@.len() == old(out)@.len(),
        forall|j: nat|
            j <= code ==> final(out)@[*old(pos) + j] == value as nat / #[trigger] pow2(8 * j) % 256,
        forall|b: int|
            0 <= b < old(out)@.len() && !(*old(pos) <= b <= *old(pos) + code)
                ==> #[trigger] final(out)@[b] == old(out)@[b],
{
    let start: usize = *pos;
    let ghost before: Seq<u8> = out@;
    let ghost all: Seq<u8> = wire::le_bytes(value as nat);
    let mut rest: u64 = value;
    let mut code: u8 = 0;
    proof {
        wire::lemma_code_range(value);
    }
    while rest >= 256
        invariant
            all.len() <= 8,
            start + all.len() <= out.len(),
            out@.len() == before.len(),
            code + wire::le_bytes(rest as nat).len() == all.len(),
            forall|j: int| 0 <= j < start ==> #[trigger] out@[j] == before[j],
            forall|j: int| start + code <= j < before.len() ==> #[trigger] out@[j] == before[j],
            all == out@.subrange(start as int, start + code) + wire::le_bytes(rest as nat),
        decreases rest,
    {
        let ghost written: Seq<u8> = out@.subrange(start as int, start + code);
        assert(wire::le_bytes(rest as nat).len() == 1 + wire::le_bytes(rest as nat / 256).len());
        out[start + code as usize] = (rest % 256) as u8;
        rest = rest / 256;
        code = code + 1;
        assert(out@.subrange(start as int, start + code) =~= written.push(
            out@[start + code - 1],
        ));
        assert(all =~= out@.subrange(start as int, start + code) + wire::le_bytes(rest as nat));
    }
    out[start + code as usize] = rest as u8;
    *pos = start + code as usize + 1;
    assert(out@ =~= wire::splice(before, start as int, all));
    proof {
        laws::law_value_bytes(value);
        assert forall|j: nat| j <= code implies out@[start + j] == value as nat / #[trigger] pow2(
            8 * j,
        ) % 256 by {
            assert(out@[start + j] == all[j as int]);
        }
    }
    code
}

/// Adding a code to a key word by shift and or.
proof fn lemma_or_code(key: u32, code: u32, shift: u32, j: int)
    requires
        0 <= j < 8,
        shift == 3 * j,
        key < wire::weight(j),
        code <= 7,
    ensures
        key | (code << shift) == key + code * wire::weight(j),
        key | (code << shift) < 16777216,
{
    assert(shift == 0 || shift == 3 || shift == 6 || shift == 9 || shift == 12 || shift == 15
        || shift == 18 || shift == 21);
    assert({
        &&& shift == 0 && key < 1 ==> key | (code << shift) == key + code
        &&& shift == 3 && key < 8 ==> key | (code << shift) == key + code * 8
        &&& shift == 6 && key < 64 ==> key | (code << shift) == key + code * 64
        &&& shift == 9 && key < 512 ==> key | (code << shift) == key + code * 512
        &&& shift == 12 && key < 4096 ==> key | (code << shift) == key + code * 4096
        &&& shift == 15 && key < 32768 ==> key | (code << shift) == key + code * 32768
        &&& shift == 18 && key < 262144 ==> key | (code << shift) == key + code * 262144
        &&& shift == 21 && key < 2097152 ==> key | (code << shift) == key + code * 2097152
    }) by (bit_vector)
        requires
            code <= 7,
    ;
}

/// Writes the three bytes of the key word `key` to `keys` at `pos`.
pub(crate) fn write_key(key: u32, keys: &mut [u8], pos: usize)
    requires
        pos + 3 <= old(keys).len(),
    ensures
        final(keys)@ == old(keys)@.update(pos as int, wire::word_byte(key as nat, 0)).update(
            pos + 1,
            wire::word_byte(key as nat, 1),
        ).update(pos + 2, wire::word_byte(key as nat, 2)),
{
    keys[pos] = (key % 256) as u8;
    keys[pos + 1] = (key / 256 % 256) as u8;
    keys[pos + 2] = (key / 65536 % 256) as u8;
}

/// Writes the key bytes of `input` to the front of `keys` and its data bytes to
/// the front of `data`. Returns how many data bytes that are. What lies behind
/// them in both slices stays as it is.
pub fn encode_scalar(input: &[u64], keys: &mut [u8], data: &mut [u8]) -> (written: usize)
    requires
        wire::key_len(input@.len()) <= old(keys).len(),
        wire::data_bytes(input@).len() <= old(data).len(),
    ensures
        written == wire::data_bytes(input@).len(),
        final(keys)@ == wire::splice(old(keys)@, 0, wire::key_bytes(input@)),
        final(data)@ == wire::splice(old(data)@, 0, wire::data_bytes(input@)),
        final(keys)@.subrange(0, wire::key_len(input@.len()) as int) == wire::key_bytes(input@),
        final(data)@.subrange(0, written as int) == wire::data_bytes(input@),
        final(keys)@.len() == old(keys)@.len(),
        final(data)@.len() == old(data)@.len(),
        forall|b: int|
            wire::key_len(input@.len()) <= b < old(keys)@.len() ==> #[trigger] final(keys)@[b]
                == old(keys)@[b],
        forall|b: int|
            written <= b < old(data)@.len() ==> #[trigger] final(data)@[b] == old(data)@[b],
{
    let ghost values: Seq<u64> = input@;
    let ghost old_keys: Seq<u8> = keys@;
    let ghost old_data: Seq<u8> = data@;
    if input.len() == 0 {
        assert(keys@ =~= wire::splice(old_keys, 0, wire::key_bytes(values)));
        assert(data@ =~= wire::splice(old_data, 0, wire::data_bytes(values)));
        return 0;
    }
    let mut keypos: usize = 0;
    let mut datapos: usize = 0;

    let mut shift: u32 = 0;
    let mut key: u32 = 0;

    let mut i: usize = 0;
    let ghost mut g: int = 0;
    proof {
        assert(values.take(0) =~= seq![]);
        assert(data@ =~= wire::splice(old_data, 0, wire::data_bytes(values.take(0))));
        wire::lemma_key_word_bound(values.take(0), 0, 0);
    }
    while i < input.len()
        invariant
            values == input@,
            0 <= g,
            8 * g <= i <= 8 * g + 8,
            i > 0 ==> i > 8 * g,
            i <= input.len(),
            keypos == 3 * g,
            shift == 3 * (i - 8 * g),
            key == wire::key_word(values.take(i as int), g),
            wire::key_len(values.len()) <= keys.len(),
            keys@.len() == old_keys.len(),
            forall|b: int|
                0 <= b < 3 * g ==> #[trigger] keys@[b] == wire::word_byte(
                    wire::key_word(values, b / 3),
                    b % 3,
                ),
            forall|b: int| 3 * g <= b < old_keys.len() ==> #[trigger] keys@[b] == old_keys[b],
            wire::data_bytes(values).len() <= data.len(),
            data@.len() == old_data.len(),
            datapos == wire::data_bytes(values.take(i as int)).len(),
            data@ == wire::splice(old_data, 0, wire::data_bytes(values.take(i as int))),
        decreases input.len() - i,
    {
        if shift == 24 {
            proof {
                wire::lemma_key_word_take(values, i as int, g);
            }
            write_key(key, keys, keypos);
            keypos = keypos + 3;
            shift = 0;
            key = 0;
            proof {
                g = g + 1;
                wire::lemma_key_word_bound(values.take(i as int), g, 0);
            }
        }
        proof {
            wire::lemma_data_bytes_step(values, i as int);
            wire::lemma_code_range(values[i as int]);
            wire::lemma_key_word_bound(values.take(i as int), g, i - 8 * g);
            wire::lemma_key_word_step(values, i as int, g);
        }
        let code: u8 = encode_single(input[i], data, &mut datapos);
        proof {
            lemma_or_code(key, code as u32, shift, i - 8 * g);
            assert(data@ =~= wire::splice(
                old_data,
                0,
                wire::data_bytes(values.take(i + 1)),
            ));
        }
        key = key | ((code as u32) << shift);
        shift = shift + 3;
        i = i + 1;
    }

    proof {
        wire::lemma_key_word_take(values, i as int, g);
    }
    write_key(key, keys, keypos);
    proof {
        assert(values.take(i as int) =~= values);
        assert(keys@ =~= wire::splice(old_keys, 0, wire::key_bytes(values)));
    }
    datapos
}

/// Reads a number of `code + 1` bytes (of eight bytes, if `code` is more than
/// seven) from `data` at `pos`, and moves `pos` behind it.
pub fn decode_single(data: &[u8], pos: &mut usize, code: u8) -> (value: u64)
    requires
        *old(pos) + (if code < 7 {
            code + 1
        } else {
            8
        }) <= data.len(),
    ensures
        *final(pos) == *old(pos) + (if code < 7 {
            code + 1
        } else {
            8
        }),
        value == wire::le_value(data@.subrange(*old(pos) as int, *final(pos) as int)),
        forall|j: nat|
            j < 8 ==> value as nat / #[trigger] pow2(8 * j) % 256 == (if *old(pos) + j
                < *final(pos) {
                data@[*old(pos) + j] as nat
            } else {
                0
            }),
{
    let start: usize = *pos;
    let len: usize = if code < 7 {
        code as usize + 1
    } else {
        8
    };
    let end: usize = start + len;
    let mut at: usize = end;
    let mut value: u64 = 0;
    while at > start
        invariant
            start <= at <= end <= data.len(),
            end - start <= 8,
            value == wire::le_value(data@.subrange(at as int, end as int)),
        decreases at,
    {
        proof {
            wire::lemma_le_value_fits(data@.subrange(at - 1, end as int));
            assert(data@.subrange(at - 1, end as int).skip(1) =~= data@.subrange(
                at as int,
                end as int,
            ));
        }
        at = at - 1;
        value = value * 256 + data[at] as u64;
    }
    *pos = end;
    proof {
        let s: Seq<u8> = data@.subrange(start as int, end as int);
        laws::law_bytes_value(s);
        assert forall|j: nat| j < 8 implies value as nat / #[trigger] pow2(8 * j) % 256 == (
        if start + j < end {
            data@[start + j] as nat
        } else {
            0
        }) by {
            if j < s.len() {
                assert(s[j as int] == data@[start + j]);
            }
        }
    }
    value
}

/// Reads the key word in the three bytes of `keys` at `pos`.
pub(crate) fn read_key(keys: &[u8], pos: usize) -> (key: u32)
    requires
        pos + 3 <= keys.len(),
    ensures
        key == keys@[pos as int] + 256 * keys@[pos + 1] + 65536 * keys@[pos + 2],
{
    keys[pos] as u32 + 256 * (keys[pos + 1] as u32) + 65536 * (keys[pos + 2] as u32)
}

/// A digit of a key word by shift and mask.
proof fn lemma_digit(key: u32, shift: u32, j: nat)
    requires
        j < 8,
        shift == 3 * j,
    ensures
        (key >> shift) & 0b111 == wire::digit(key as nat, j),
        (key >> shift) & 0b111 < 8,
{
    lemma_u32_shr_is_div(key, shift);
    let x: u32 = key >> shift;
    assert(x & 0b111 == x % 8) by (bit_vector);
}

/// Fills `output` with the values that `keys` and `data` hold. Returns how many
/// data bytes they take.
pub fn decode_scalar(output: &mut [u64], keys: &[u8], data: &[u8]) -> (read: usize)
    requires
        wire::key_len(old(output)@.len()) <= keys.len(),
        wire::offset(keys@, old(output)@.len()) <= data.len(),
    ensures
        read == wire::offset(keys@, old(output)@.len()),
        final(output)@ == wire::decoded(keys@, data@, old(output)@.len()),
{
    let ghost n: nat = output@.len();
    if output.len() == 0 {
        assert(output@ =~= wire::decoded(keys@, data@, n));
        return 0;
    }
    let mut keypos: usize = 0;
    let mut datapos: usize = 0;

    let mut shift: u32 = 0;
    let mut key: u32 = read_key(keys, keypos);
    keypos = keypos + 3;

    let mut i: usize = 0;
    let ghost mut g: int = 0;
    while i < output.len()
        invariant
            output@.len() == n,
            wire::key_len(n) <= keys.len(),
            wire::offset(keys@, n) <= data.len(),
            0 <= g,
            8 * g <= i <= 8 * g + 8,
            i <= n,
            keypos == 3 * g + 3,
            keypos <= keys.len(),
            shift == 3 * (i - 8 * g),
            key == wire::word_at(keys@, g),
            datapos == wire::offset(keys@, i as nat),
            forall|t: int| 0 <= t < i ==> #[trigger] output@[t] == wire::value_at(keys@, data@, t),
        decreases output.len() - i,
    {
        if shift == 24 {
            shift = 0;
            proof {
                g = g + 1;
            }
            key = read_key(keys, keypos);
            keypos = keypos + 3;
        }
        proof {
            lemma_digit(key, shift, (i - 8 * g) as nat);
            wire::lemma_offset_bounds(keys@, (i + 1) as nat, n);
            assert(i as int / 8 == g && i as int % 8 == i - 8 * g);
            assert(wire::code_at(keys@, i as int) == (key >> shift) & 0b111);
        }
        let code: u32 = (key >> shift) & 0b111;
        output[i] = decode_single(data, &mut datapos, code as u8);
        shift = shift + 3;
        i = i + 1;
    }
    assert(output@ =~= wire::decoded(keys@, data@, n));
    datapos
}

} // verus!
