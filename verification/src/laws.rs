//! What holds of the codec as a whole.
#[allow(unused_imports)]
use crate::avx;
#[allow(unused_imports)]
use crate::tables;
#[allow(unused_imports)]
use crate::vector;
#[allow(unused_imports)]
use crate::wire;
use vstd::arithmetic::div_mod::*;
use vstd::arithmetic::power2::*;
use vstd::prelude::*;

verus! {

/// The base-8 digits of a number of eight digits.
proof fn lemma_eight_digits(
    c0: nat,
    c1: nat,
    c2: nat,
    c3: nat,
    c4: nat,
    c5: nat,
    c6: nat,
    c7: nat,
    w: nat,
)
    requires
        c0 <= 7,
        c1 <= 7,
        c2 <= 7,
        c3 <= 7,
        c4 <= 7,
        c5 <= 7,
        c6 <= 7,
        c7 <= 7,
        w == c0 + 8 * c1 + 64 * c2 + 512 * c3 + 4096 * c4 + 32768 * c5 + 262144 * c6 + 2097152 * c7,
    ensures
        wire::digit(w, 0) == c0,
        wire::digit(w, 1) == c1,
        wire::digit(w, 2) == c2,
        wire::digit(w, 3) == c3,
        wire::digit(w, 4) == c4,
        wire::digit(w, 5) == c5,
        wire::digit(w, 6) == c6,
        wire::digit(w, 7) == c7,
{
    lemma2_to64();
    assert(pow2(3 * 0) == 1 && pow2(3 * 1) == 8 && pow2(3 * 2) == 64 && pow2(3 * 3) == 512);
    assert(pow2(3 * 4) == 4096 && pow2(3 * 5) == 32768 && pow2(3 * 6) == 262144 && pow2(3 * 7)
        == 2097152);
    assert(w / 1 == w);
    assert(w / 8 == c1 + 8 * c2 + 64 * c3 + 512 * c4 + 4096 * c5 + 32768 * c6 + 262144 * c7);
    assert(w / 64 == c2 + 8 * c3 + 64 * c4 + 512 * c5 + 4096 * c6 + 32768 * c7);
    assert(w / 512 == c3 + 8 * c4 + 64 * c5 + 512 * c6 + 4096 * c7);
    assert(w / 4096 == c4 + 8 * c5 + 64 * c6 + 512 * c7);
    assert(w / 32768 == c5 + 8 * c6 + 64 * c7);
    assert(w / 262144 == c6 + 8 * c7);
    assert(w / 2097152 == c7);
}

/// A key word can be read back from its three bytes.
proof fn lemma_word_at(values: Seq<u64>, keys: Seq<u8>, g: int)
    requires
        wire::key_bytes(values).is_prefix_of(keys),
        0 <= g < wire::groups(values.len()),
    ensures
        wire::word_at(keys, g) == wire::key_word(values, g),
{
    let w: nat = wire::key_word(values, g);
    let k: Seq<u8> = wire::key_bytes(values);
    wire::lemma_key_word_range(values, g);
    assert(k[3 * g] == wire::word_byte(w, 0));
    assert(k[3 * g + 1] == wire::word_byte(w, 1));
    assert(k[3 * g + 2] == wire::word_byte(w, 2));
    assert(w % 256 + 256 * (w / 256 % 256) + 65536 * (w / 65536 % 256) == w);
}

/// Each length code can be read back from the key bytes, and the codes behind the
/// last value are zero.
pub proof fn law_codes(values: Seq<u64>, keys: Seq<u8>, i: int)
    requires
        wire::key_bytes(values).is_prefix_of(keys),
        0 <= i < 8 * wire::groups(values.len()),
    ensures
        wire::code_at(keys, i) == wire::code_or_zero(values, i),
{
    let g: int = i / 8;
    lemma_word_at(values, keys, g);
    wire::lemma_code_or_zero_range(values, 8 * g);
    wire::lemma_code_or_zero_range(values, 8 * g + 1);
    wire::lemma_code_or_zero_range(values, 8 * g + 2);
    wire::lemma_code_or_zero_range(values, 8 * g + 3);
    wire::lemma_code_or_zero_range(values, 8 * g + 4);
    wire::lemma_code_or_zero_range(values, 8 * g + 5);
    wire::lemma_code_or_zero_range(values, 8 * g + 6);
    wire::lemma_code_or_zero_range(values, 8 * g + 7);
    reveal(wire::key_word);
    lemma_eight_digits(
        wire::code_or_zero(values, 8 * g),
        wire::code_or_zero(values, 8 * g + 1),
        wire::code_or_zero(values, 8 * g + 2),
        wire::code_or_zero(values, 8 * g + 3),
        wire::code_or_zero(values, 8 * g + 4),
        wire::code_or_zero(values, 8 * g + 5),
        wire::code_or_zero(values, 8 * g + 6),
        wire::code_or_zero(values, 8 * g + 7),
        wire::key_word(values, g),
    );
    let j: int = i % 8;
    assert(j == 0 || j == 1 || j == 2 || j == 3 || j == 4 || j == 5 || j == 6 || j == 7);
}

/// The keys tell where each value begins.
proof fn lemma_offsets(values: Seq<u64>, keys: Seq<u8>, i: nat)
    requires
        wire::key_bytes(values).is_prefix_of(keys),
        i <= values.len(),
    ensures
        wire::offset(keys, i) == wire::data_bytes(values.take(i as int)).len(),
    decreases i,
{
    if i > 0 {
        lemma_offsets(values, keys, (i - 1) as nat);
        law_codes(values, keys, i - 1);
        wire::lemma_data_bytes_step(values, i - 1);
        wire::lemma_code_range(values[i - 1]);
    } else {
        assert(values.take(0) =~= seq![]);
    }
}

/// Decoding gives back what was encoded, and reads as many data bytes as were
/// written. Nothing behind the key bytes and the data bytes matters.
///
/// `keys` and `data` are what `encode_scalar` and `encode_avx` leave in their
/// slices, or any other bytes that begin with the key bytes and the data bytes of
/// `values`.
pub proof fn law_round_trip(values: Seq<u64>, keys: Seq<u8>, data: Seq<u8>)
    requires
        wire::key_bytes(values).is_prefix_of(keys),
        wire::data_bytes(values).is_prefix_of(data),
    ensures
        wire::offset(keys, values.len()) == wire::data_bytes(values).len(),
        wire::decoded(keys, data, values.len()) == values,
{
    let n: nat = values.len();
    assert(values.take(n as int) =~= values);
    lemma_offsets(values, keys, n);
    assert forall|i: int| 0 <= i < n implies #[trigger] wire::decoded(keys, data, n)[i]
        == values[i] by {
        let from: int = wire::offset(keys, i as nat) as int;
        let to: int = wire::offset(keys, (i + 1) as nat) as int;
        lemma_offsets(values, keys, i as nat);
        lemma_offsets(values, keys, (i + 1) as nat);
        wire::lemma_data_bytes_step(values, i);
        assert(values =~= values.take(i + 1) + values.skip(i + 1));
        wire::lemma_data_bytes_split(values.take(i + 1), values.skip(i + 1));
        let all: Seq<u8> = wire::data_bytes(values);
        assert(all == data.subrange(0, all.len() as int));
        assert(data.subrange(from, to) =~= all.subrange(from, to));
        assert(all.subrange(from, to) =~= wire::le_bytes(values[i] as nat));
        wire::lemma_le_value_of_le_bytes(values[i] as nat);
    }
    assert(wire::decoded(keys, data, n) =~= values);
}

/// `decode` accepts what begins with an encoding of at least one value, gives back
/// what was encoded and reads all data bytes.
pub proof fn law_decode_of_encode(values: Seq<u64>, buf: Seq<u8>)
    requires
        0 < values.len(),
        wire::encoded(values).is_prefix_of(buf),
    ensures
        ({
            let n: nat = values.len();
            let keys: Seq<u8> = buf.take(wire::key_len(n) as int);
            let data: Seq<u8> = buf.skip(wire::key_len(n) as int);
            &&& wire::key_len(n) <= buf.len()
            &&& wire::compressed_len(keys, n) <= data.len()
            &&& wire::offset(keys, n) <= data.len()
            &&& wire::key_len(n) + wire::offset(keys, n) == wire::encoded(values).len()
            &&& wire::decoded(keys, data, n) == values
        }),
{
    let n: nat = values.len();
    let all: Seq<u8> = wire::encoded(values);
    let keys: Seq<u8> = buf.take(wire::key_len(n) as int);
    let data: Seq<u8> = buf.skip(wire::key_len(n) as int);
    assert(all == buf.subrange(0, all.len() as int));
    assert(wire::key_bytes(values) =~= keys.subrange(0, keys.len() as int)) by {
        assert forall|t: int| 0 <= t < keys.len() implies wire::key_bytes(values)[t] == keys[t] by {
            assert(all[t] == buf[t]);
        }
    }
    let bytes: Seq<u8> = wire::data_bytes(values);
    assert(bytes =~= data.subrange(0, bytes.len() as int)) by {
        assert forall|t: int| 0 <= t < bytes.len() implies #[trigger] bytes[t] == data[t] by {
            assert(all[wire::key_len(n) + t] == buf[wire::key_len(n) + t]);
        }
    }
    law_round_trip(values, keys, data);
    law_compressed_len(values, keys);
}

/// By the keys of an encoding, the groups with their zero codes take as many bytes
/// as the values, and one for each zero code.
proof fn lemma_padded_offset(values: Seq<u64>, keys: Seq<u8>, m: nat)
    requires
        wire::key_bytes(values).is_prefix_of(keys),
        values.len() <= m <= 8 * wire::groups(values.len()),
    ensures
        wire::offset(keys, m) == wire::data_bytes(values).len() + (m - values.len()),
    decreases m,
{
    if m == values.len() {
        assert(values.take(m as int) =~= values);
        lemma_offsets(values, keys, m);
    } else {
        lemma_padded_offset(values, keys, (m - 1) as nat);
        law_codes(values, keys, m - 1);
    }
}

/// `compressed_data_len` tells from the keys of an encoding how many data bytes it
/// has, if its last group is not full: with `keys_len` it adds up to what `encode`
/// returns. If the last group is full, it tells eight bytes less.
pub proof fn law_compressed_len(values: Seq<u64>, keys: Seq<u8>)
    requires
        0 < values.len(),
        wire::key_bytes(values).is_prefix_of(keys),
    ensures
        values.len() % 8 != 0 ==> wire::compressed_len(keys, values.len()) == wire::data_bytes(
            values,
        ).len(),
        values.len() % 8 != 0 ==> wire::key_len(values.len()) + wire::compressed_len(
            keys,
            values.len(),
        ) == wire::encoded(values).len(),
        values.len() % 8 == 0 ==> wire::compressed_len(keys, values.len()) == wire::data_bytes(
            values,
        ).len() - 8,
{
    lemma_padded_offset(values, keys, 8 * wire::groups(values.len()));
}

/// From any keys, what `compressed_data_len` tells is enough for all values, if the
/// last group is not full. If the last group is full, eight bytes more are.
pub proof fn law_compressed_len_suffices(keys: Seq<u8>, n: nat)
    requires
        0 < n,
    ensures
        n % 8 != 0 ==> wire::offset(keys, n) <= wire::compressed_len(keys, n),
        n % 8 == 0 ==> wire::offset(keys, n) == wire::compressed_len(keys, n) + 8,
{
    wire::lemma_offset_bounds(keys, n, 8 * wire::groups(n));
}

/// An encoding is never longer than `max_compressed_len`, and takes at least one
/// data byte for each value.
pub proof fn law_encoded_len(values: Seq<u64>)
    ensures
        wire::key_len(values.len()) + values.len() <= wire::encoded(values).len()
            <= wire::max_len(values.len()),
{
    wire::lemma_data_bytes_bound(values);
}

/// Eight data bytes for each value are enough for both encoders.
pub proof fn law_data_room(values: Seq<u64>)
    ensures
        wire::data_bytes(values).len() <= 8 * values.len(),
        avx::store_end(values) <= 8 * values.len(),
{
    wire::lemma_data_bytes_bound(values);
    if values.len() >= 8 {
        wire::lemma_data_bytes_bound(values.take(8 * (values.len() as int / 8) - 4));
    }
}

/// The two encoders write the same bytes. Where there were zeros behind them, they
/// leave the same slices altogether.
pub proof fn law_encoders_agree(values: Seq<u64>, data: Seq<u8>)
    requires
        wire::data_bytes(values).len() <= data.len(),
    ensures
        ({
            let e: Seq<u8> = wire::data_bytes(values);
            let plain: Seq<u8> = wire::splice(data, 0, e);
            let blocks: Seq<u8> = wire::splice(avx::zeroed(data, avx::store_end(values)), 0, e);
            &&& blocks.len() == plain.len() == data.len()
            &&& plain.take(e.len() as int) == e
            &&& blocks.take(e.len() as int) == e
            &&& (forall|i: int| e.len() <= i < data.len() ==> data[i] == 0) ==> blocks == plain
        }),
{
    let e: Seq<u8> = wire::data_bytes(values);
    let plain: Seq<u8> = wire::splice(data, 0, e);
    let blocks: Seq<u8> = wire::splice(avx::zeroed(data, avx::store_end(values)), 0, e);
    assert(plain.take(e.len() as int) =~= e);
    assert(blocks.take(e.len() as int) =~= e);
    if forall|i: int| e.len() <= i < data.len() ==> data[i] == 0 {
        assert(blocks =~= plain);
    }
}

/// `decode_single` reads back what `encode_single` wrote, from the same place and
/// of the same length.
pub proof fn law_single_round_trip(value: u64, out: Seq<u8>, at: nat)
    requires
        at + wire::le_bytes(value as nat).len() <= out.len(),
    ensures
        ({
            let bytes: Seq<u8> = wire::le_bytes(value as nat);
            let after: Seq<u8> = wire::splice(out, at as int, bytes);
            &&& wire::code(value) <= 7
            &&& bytes.len() == wire::code(value) + 1
            &&& wire::le_value(
                after.subrange(at as int, (at + wire::code(value) + 1) as int),
            ) == value
        }),
{
    let bytes: Seq<u8> = wire::le_bytes(value as nat);
    let after: Seq<u8> = wire::splice(out, at as int, bytes);
    wire::lemma_code_range(value);
    assert(after.subrange(at as int, (at + bytes.len()) as int) =~= bytes);
    wire::lemma_le_value_of_le_bytes(value as nat);
}

/// A number has at most `m` bytes if and only if it is less than two to the power
/// of `8 * m`.
proof fn lemma_le_bytes_len(v: nat, m: nat)
    requires
        1 <= m,
    ensures
        wire::le_bytes(v).len() <= m <==> v < pow2(8 * m),
    decreases m,
{
    lemma2_to64();
    if m > 1 {
        lemma_pow2_adds(8, (8 * (m - 1)) as nat);
        assert(8 + 8 * (m - 1) == 8 * m);
        if v < 256 {
            lemma_pow2_strictly_increases(8, 8 * m);
        } else {
            lemma_le_bytes_len(v / 256, (m - 1) as nat);
            assert(v / 256 < pow2((8 * (m - 1)) as nat) <==> v < 256 * pow2((8 * (m - 1)) as nat));
        }
    } else if v >= 256 {
        assert(wire::le_bytes(v / 256).len() >= 1);
    }
}

/// A value is stored in as few bytes as hold it: its code is at most `c` if and
/// only if `c + 1` bytes are enough.
pub proof fn law_shortest(value: u64, c: nat)
    ensures
        wire::code(value) <= c <==> value < pow2(8 * (c + 1)),
{
    lemma_le_bytes_len(value as nat, c + 1);
    wire::lemma_code_range(value);
}

/// Dropping the lowest byte of a number moves its other bytes down by one.
proof fn lemma_byte_shift(v: nat, j: nat)
    requires
        0 < j,
    ensures
        v / 256 / pow2((8 * (j - 1)) as nat) == v / pow2(8 * j),
{
    lemma2_to64();
    lemma_pow2_pos((8 * (j - 1)) as nat);
    lemma_pow2_adds(8, (8 * (j - 1)) as nat);
    assert(8 + 8 * (j - 1) == 8 * j);
    lemma_div_denominator(v as int, 256, pow2((8 * (j - 1)) as nat) as int);
}

/// The bytes of a number are its bytes.
proof fn lemma_le_bytes_at(v: nat, j: nat)
    requires
        j < wire::le_bytes(v).len(),
    ensures
        wire::le_bytes(v)[j as int] == v / pow2(8 * j) % 256,
    decreases j,
{
    lemma2_to64();
    if j == 0 {
        assert(pow2(8 * 0) == 1);
        assert(v / 1 == v);
    } else {
        lemma_byte_shift(v, j);
        lemma_le_bytes_at(v / 256, (j - 1) as nat);
    }
}

/// The bytes of the number that bytes hold are those bytes.
proof fn lemma_le_value_at(s: Seq<u8>, j: nat)
    requires
        j < s.len(),
    ensures
        wire::le_value(s) / pow2(8 * j) % 256 == s[j as int],
    decreases j,
{
    let w: nat = wire::le_value(s);
    lemma2_to64();
    assert(w == s[0] as nat + 256 * wire::le_value(s.skip(1)));
    if j == 0 {
        assert(pow2(8 * 0) == 1);
        assert(w / 1 == w);
    } else {
        assert(w / 256 == wire::le_value(s.skip(1)));
        lemma_byte_shift(w, j);
        lemma_le_value_at(s.skip(1), (j - 1) as nat);
    }
}

/// A value is stored as its bytes, lowest first, as many as it needs and at least
/// one; its length code is one less than their number.
pub proof fn law_value_bytes(value: u64)
    ensures
        ({
            let s: Seq<u8> = wire::le_bytes(value as nat);
            &&& 1 <= s.len() <= 8
            &&& value < pow2(8 * s.len())
            &&& s.len() == 1 || pow2((8 * (s.len() - 1)) as nat) <= value
            &&& forall|j: nat|
                j < s.len() ==> #[trigger] s[j as int] == value as nat / pow2(8 * j) % 256
            &&& wire::code(value) + 1 == s.len()
        }),
{
    let s: Seq<u8> = wire::le_bytes(value as nat);
    wire::lemma_code_range(value);
    lemma_le_bytes_len(value as nat, s.len());
    if s.len() > 1 {
        lemma_le_bytes_len(value as nat, (s.len() - 1) as nat);
    }
    assert forall|j: nat| j < s.len() implies #[trigger] s[j as int] == value as nat / pow2(8 * j)
        % 256 by {
        lemma_le_bytes_at(value as nat, j);
    }
}

/// How many bytes a value takes is the one number of bytes that hold it while one
/// less do not.
proof fn lemma_value_len(value: u64, k: nat)
    requires
        1 <= k,
        value < pow2(8 * k),
        k == 1 || pow2((8 * (k - 1)) as nat) <= value,
    ensures
        wire::le_bytes(value as nat).len() == k,
        wire::code(value) + 1 == k,
{
    lemma_le_bytes_len(value as nat, k);
    wire::lemma_code_range(value);
    if k > 1 {
        lemma_le_bytes_len(value as nat, (k - 1) as nat);
    }
}

/// Bytes hold the number whose bytes, lowest first, they are.
pub proof fn law_bytes_value(s: Seq<u8>)
    ensures
        wire::le_value(s) < pow2(8 * s.len()),
        forall|j: nat|
            j < s.len() ==> #[trigger] s[j as int] == wire::le_value(s) / pow2(8 * j) % 256,
        forall|j: nat| s.len() <= j ==> wire::le_value(s) / #[trigger] pow2(8 * j) == 0,
{
    wire::lemma_le_value_bound(s);
    assert forall|j: nat| j < s.len() implies #[trigger] s[j as int] == wire::le_value(s) / pow2(
        8 * j,
    ) % 256 by {
        lemma_le_value_at(s, j);
    }
    assert forall|j: nat| s.len() <= j implies wire::le_value(s) / #[trigger] pow2(8 * j) == 0 by {
        if s.len() < j {
            lemma_pow2_strictly_increases(8 * s.len(), 8 * j);
        }
        lemma_basic_div(wire::le_value(s) as int, pow2(8 * j) as int);
    }
}

/// The number of key bytes is three for each group of up to eight values.
pub proof fn law_key_len(n: nat)
    ensures
        wire::key_len(n) % 3 == 0,
        n <= 8 * (wire::key_len(n) / 3) < n + 8,
        wire::groups(n) == wire::key_len(n) / 3,
{
}

/// The data bytes of no values are none, those of one value are its bytes, and
/// those of values in a row are those of the first and those of the rest.
pub proof fn law_data_bytes(a: Seq<u64>, b: Seq<u64>, value: u64, k: nat)
    requires
        1 <= k,
        value < pow2(8 * k),
        k == 1 || pow2((8 * (k - 1)) as nat) <= value,
    ensures
        wire::data_bytes(seq![]).len() == 0,
        wire::data_bytes(a + b) == wire::data_bytes(a) + wire::data_bytes(b),
        wire::data_bytes(seq![value]).len() == k,
        forall|j: nat|
            j < k ==> #[trigger] wire::data_bytes(seq![value])[j as int] == value as nat / pow2(
                8 * j,
            ) % 256,
{
    wire::lemma_data_bytes_split(a, b);
    lemma_value_len(value, k);
    law_value_bytes(value);
    assert(seq![value].drop_last() =~= Seq::<u64>::empty());
    assert(wire::data_bytes(Seq::<u64>::empty()) =~= Seq::<u8>::empty());
    assert(wire::data_bytes(seq![value]) =~= wire::le_bytes(value as nat));
}

/// The bytes of the value at index `i` stand among the data bytes behind those of
/// the values in front of it, and nothing stands between them and the next.
pub proof fn law_data_bytes_at(values: Seq<u64>, i: int, k: nat)
    requires
        0 <= i < values.len(),
        1 <= k,
        values[i] < pow2(8 * k),
        k == 1 || pow2((8 * (k - 1)) as nat) <= values[i],
    ensures
        ({
            let from: nat = wire::data_bytes(values.take(i)).len();
            &&& wire::data_bytes(values.take(0)).len() == 0
            &&& wire::data_bytes(values.take(i + 1)).len() == from + k
            &&& from + k <= wire::data_bytes(values).len()
            &&& forall|j: nat|
                j < k ==> #[trigger] wire::data_bytes(values)[(from + j) as int]
                    == values[i] as nat / pow2(8 * j) % 256
        }),
{
    let from: nat = wire::data_bytes(values.take(i)).len();
    let all: Seq<u8> = wire::data_bytes(values);
    let s: Seq<u8> = wire::le_bytes(values[i] as nat);
    lemma_value_len(values[i], k);
    law_value_bytes(values[i]);
    wire::lemma_data_bytes_step(values, i);
    assert(values =~= values.take(i + 1) + values.skip(i + 1));
    wire::lemma_data_bytes_split(values.take(i + 1), values.skip(i + 1));
    assert(values.take(0) =~= seq![]);
    assert forall|j: nat| j < k implies #[trigger] all[(from + j) as int] == values[i] as nat
        / pow2(8 * j) % 256 by {
        assert(all[(from + j) as int] == s[j as int]);
    }
}

/// Bits `3 * (i % 8)` to `3 * (i % 8) + 2` of the three key bytes of a group, read
/// as a little-endian number, are the number of bytes of the value at index `i`,
/// less one, and zero where there is no value.
pub proof fn law_key_bytes(values: Seq<u64>, i: int, k: nat)
    requires
        0 <= i,
        i < values.len() ==> 1 <= k && values[i] < pow2(8 * k) && (k == 1 || pow2(
            (8 * (k - 1)) as nat,
        ) <= values[i]),
        i < 8 * ((values.len() as int + 7) / 8),
    ensures
        ({
            let keys: Seq<u8> = wire::key_bytes(values);
            let g: int = i / 8;
            let w: nat = (keys[3 * g] + 256 * keys[3 * g + 1] + 65536 * keys[3 * g + 2]) as nat;
            &&& keys.len() == 3 * ((values.len() as int + 7) / 8)
            &&& w / pow2((3 * (i % 8)) as nat) % 8 == (if i < values.len() {
                k - 1
            } else {
                0
            })
        }),
{
    let keys: Seq<u8> = wire::key_bytes(values);
    assert(keys =~= keys.subrange(0, keys.len() as int));
    law_codes(values, keys, i);
    law_code_at(keys, i);
    if i < values.len() {
        lemma_value_len(values[i], k);
    }
}

/// The code at index `i` of any key bytes is bits `3 * (i % 8)` to `3 * (i % 8) + 2`
/// of the three bytes of its group, read as a little-endian number.
pub proof fn law_code_at(keys: Seq<u8>, i: int)
    requires
        0 <= i,
    ensures
        ({
            let g: int = i / 8;
            let w: nat = (keys[3 * g] + 256 * keys[3 * g + 1] + 65536 * keys[3 * g + 2]) as nat;
            &&& wire::word_at(keys, g) == w
            &&& wire::code_at(keys, i) == w / pow2((3 * (i % 8)) as nat) % 8
        }),
{
}

/// Byte `k` of a key word is its bits `8 * k` to `8 * k + 7`, and digit `j` its bits
/// `3 * j` to `3 * j + 2`.
pub proof fn law_word(w: nat, k: nat, j: nat)
    requires
        k < 3,
    ensures
        wire::word_byte(w, k as int) == w / pow2(8 * k) % 256,
        wire::digit(w, j) == w / pow2(3 * j) % 8,
{
    lemma2_to64();
    assert(pow2(8 * 0) == 1 && pow2(8 * 1) == 256 && pow2(8 * 2) == 65536);
    assert(w / 1 == w);
    assert(k == 0 || k == 1 || k == 2);
}

/// By any key bytes, a value begins where the one in front of it ends, and takes
/// one byte more than its code.
pub proof fn law_offset(keys: Seq<u8>, i: nat)
    ensures
        wire::offset(keys, 0) == 0,
        ({
            let g: int = i as int / 8;
            let w: nat = (keys[3 * g] + 256 * keys[3 * g + 1] + 65536 * keys[3 * g + 2]) as nat;
            wire::offset(keys, i + 1) == wire::offset(keys, i) + w / pow2(3 * (i % 8)) % 8 + 1
        }),
{
    law_code_at(keys, i as int);
}

/// From any key bytes, `compressed_data_len` counts the bytes of all codes up to the
/// end `m` of the last group, one of them less for each code behind the last value,
/// or eight less if there is no such code.
pub proof fn law_compressed_len_of_groups(keys: Seq<u8>, n: nat, m: nat)
    requires
        0 < n,
        m % 8 == 0,
        n <= m < n + 8,
    ensures
        n < m ==> wire::compressed_len(keys, n) == wire::offset(keys, m) - (m - n),
        n == m ==> wire::compressed_len(keys, n) == wire::offset(keys, m) - 8,
{
    assert(m == 8 * wire::groups(n));
}

/// In a group that is not full, one more value is one more byte for
/// `compressed_data_len`, from the same key bytes.
pub proof fn law_compressed_len_step(keys: Seq<u8>, n: nat)
    requires
        0 < n,
        n % 8 != 0,
        n % 8 != 7,
    ensures
        wire::compressed_len(keys, n + 1) == wire::compressed_len(keys, n) + 1,
{
    assert(wire::groups(n + 1) == wire::groups(n));
}

/// An encoding is the key bytes that `encode_scalar` writes, and behind them the
/// data bytes that it writes.
pub proof fn law_encoded(values: Seq<u64>)
    ensures
        ({
            let all: Seq<u8> = wire::encoded(values);
            let keys: Seq<u8> = wire::key_bytes(values);
            let data: Seq<u8> = wire::data_bytes(values);
            &&& all.len() == keys.len() + data.len()
            &&& forall|b: int| 0 <= b < keys.len() ==> #[trigger] all[b] == keys[b]
            &&& forall|b: int| 0 <= b < data.len() ==> all[keys.len() + b] == #[trigger] data[b]
            &&& all == keys + data
        }),
{
}

/// One more value makes an encoding longer by as many bytes as hold the value, and
/// by three key bytes if it begins a group.
pub proof fn law_one_more_value(values: Seq<u64>, value: u64, k: nat)
    requires
        1 <= k,
        value < pow2(8 * k),
        k == 1 || pow2((8 * (k - 1)) as nat) <= value,
    ensures
        wire::encoded(seq![]).len() == 0,
        wire::encoded(values.push(value)).len() == wire::encoded(values).len() + k + (
        if values.len() % 8 == 0 {
            3int
        } else {
            0
        }),
{
    assert(values.push(value) =~= values + seq![value]);
    law_data_bytes(values, seq![value], value, k);
}

/// Data bytes of values that need all eight bytes.
proof fn lemma_full_values(values: Seq<u64>)
    requires
        forall|i: int| 0 <= i < values.len() ==> values[i] >= 0x100_0000_0000_0000,
    ensures
        wire::data_bytes(values).len() == 8 * values.len(),
    decreases values.len(),
{
    if values.len() > 0 {
        lemma_full_values(values.drop_last());
        lemma2_to64_rest();
        assert(pow2(56) == 0x100_0000_0000_0000);
        lemma_value_len(values.last(), 8);
    }
}

/// The bound of `max_compressed_len` is reached: values that all need eight bytes
/// have an encoding of exactly that length.
pub proof fn law_max_len_reached(values: Seq<u64>)
    requires
        forall|i: int| 0 <= i < values.len() ==> values[i] >= 0x100_0000_0000_0000,
    ensures
        wire::encoded(values).len() == wire::max_len(values.len()),
        wire::data_bytes(values).len() == 8 * values.len(),
{
    lemma_full_values(values);
}

/// For every number of values there are so many whose encoding is as long as
/// `max_compressed_len` says, and none have a longer one.
pub proof fn law_max_len(n: nat)
    ensures
        exists|values: Seq<u64>|
            values.len() == n && #[trigger] wire::encoded(values).len() == wire::max_len(n),
        forall|values: Seq<u64>|
            values.len() == n ==> #[trigger] wire::encoded(values).len() <= wire::max_len(n),
{
    let full: Seq<u64> = Seq::new(n, |i: int| u64::MAX);
    law_max_len_reached(full);
    assert(wire::encoded(full).len() == wire::max_len(n));
    assert forall|values: Seq<u64>| values.len() == n implies #[trigger] wire::encoded(values).len()
        <= wire::max_len(n) by {
        law_encoded_len(values);
    }
}

/// One more value makes the bound longer by eight bytes, and by three key bytes if
/// it begins a group.
pub proof fn law_max_len_step(n: nat)
    ensures
        wire::max_len(0) == 0,
        wire::max_len(n + 1) == wire::max_len(n) + (if n % 8 == 0 {
            11int
        } else {
            8
        }),
{
}

/// The value at index `i` of any keys and data has the bytes that its code names,
/// at its offset, and no others.
pub proof fn law_decoded(keys: Seq<u8>, data: Seq<u8>, n: nat, i: int)
    requires
        0 <= i < n,
        wire::offset(keys, (i + 1) as nat) <= data.len(),
    ensures
        ({
            let g: int = i / 8;
            let w: nat = (keys[3 * g] + 256 * keys[3 * g + 1] + 65536 * keys[3 * g + 2]) as nat;
            let code: nat = w / pow2((3 * (i % 8)) as nat) % 8;
            let from: nat = wire::offset(keys, i as nat);
            &&& wire::decoded(keys, data, n).len() == n
            &&& from + code < data.len()
            &&& forall|j: nat|
                j < 8 ==> wire::decoded(keys, data, n)[i] as nat / #[trigger] pow2(8 * j) % 256 == (
                if j <= code {
                    data[(from + j) as int] as nat
                } else {
                    0
                })
        }),
{
    let from: nat = wire::offset(keys, i as nat);
    let to: nat = wire::offset(keys, (i + 1) as nat);
    let s: Seq<u8> = data.subrange(from as int, to as int);
    law_offset(keys, i as nat);
    law_code_at(keys, i);
    wire::lemma_le_value_fits(s);
    law_bytes_value(s);
    assert(wire::decoded(keys, data, n)[i] == wire::le_value(s));
    assert forall|j: nat| j < 8 implies wire::decoded(keys, data, n)[i] as nat / #[trigger] pow2(
        8 * j,
    ) % 256 == (if j <= wire::code_at(keys, i) {
        data[(from + j) as int] as nat
    } else {
        0
    }) by {
        if j < s.len() {
            assert(s[j as int] == data[(from + j) as int]);
        }
    }
}

/// Writing bytes over others changes those at their place and no others.
pub proof fn law_splice(s: Seq<u8>, at: int, bytes: Seq<u8>)
    requires
        0 <= at,
        at + bytes.len() <= s.len(),
    ensures
        wire::splice(s, at, bytes).len() == s.len(),
        forall|b: int|
            0 <= b < s.len() ==> #[trigger] wire::splice(s, at, bytes)[b] == (if at <= b < at
                + bytes.len() {
                bytes[b - at]
            } else {
                s[b]
            }),
{
}

/// The words of a vector are the little-endian numbers of their bytes.
pub proof fn law_words(s: Seq<u8>, k: int)
    ensures
        vector::dword(s, k) == s[4 * k] + 0x100 * s[4 * k + 1] + 0x1_0000 * s[4 * k + 2]
            + 0x100_0000 * s[4 * k + 3],
        vector::qword(s, k) == s[8 * k] + 0x100 * s[8 * k + 1] + 0x1_0000 * s[8 * k + 2]
            + 0x100_0000 * s[8 * k + 3] + 0x1_0000_0000 * s[8 * k + 4] + 0x100_0000_0000 * s[8 * k
            + 5] + 0x1_0000_0000_0000 * s[8 * k + 6] + 0x100_0000_0000_0000 * s[8 * k + 7],
{
    let (a0, a1, a2, a3) = (s[4 * k], s[4 * k + 1], s[4 * k + 2], s[4 * k + 3]);
    let (b0, b1, b2, b3) = (s[8 * k], s[8 * k + 1], s[8 * k + 2], s[8 * k + 3]);
    let (b4, b5, b6, b7) = (s[8 * k + 4], s[8 * k + 5], s[8 * k + 6], s[8 * k + 7]);
    assert(vector::join4(a0, a1, a2, a3) == a0 + 0x100 * a1 + 0x1_0000 * a2 + 0x100_0000 * a3)
        by (bit_vector);
    assert(vector::join8(b0, b1, b2, b3, b4, b5, b6, b7) == b0 + 0x100 * b1 + 0x1_0000 * b2
        + 0x100_0000 * b3 + 0x1_0000_0000 * b4 + 0x100_0000_0000 * b5 + 0x1_0000_0000_0000 * b6
        + 0x100_0000_0000_0000 * b7) by (bit_vector);
}

/// Field `k` of a permutation is its bits `2 * k` and `2 * k + 1`.
pub proof fn law_selector(imm: u8, k: nat)
    requires
        k < 4,
    ensures
        vector::selector(imm, k as int) == imm as nat / pow2(2 * k) % 4,
{
    lemma2_to64();
    assert(pow2(2 * 0) == 1 && pow2(2 * 1) == 4 && pow2(2 * 2) == 16 && pow2(2 * 3) == 64);
    assert(imm as nat / 1 == imm);
    assert(k == 0 || k == 1 || k == 2 || k == 3);
}

/// In a block, a value begins where the one in front of it ends, and takes one byte
/// more than its three bits of the code say.
pub proof fn law_start(code: nat, k: nat)
    ensures
        tables::start(code, 0) == 0,
        tables::start(code, k + 1) == tables::start(code, k) + code / pow2(3 * k) % 8 + 1,
{
}

/// The shuffles of the encoder take byte `j` of the first value of a lane from byte
/// `j` of the lane and that of the second from byte `8 + j`, and nothing for an
/// index at which neither has a byte.
pub proof fn law_encode_source(code: nat, k: nat, j: nat, p: int)
    requires
        p < tables::start(code, k) || tables::start(code, k + 2) <= p,
    ensures
        j <= code / pow2(3 * k) % 8 ==> tables::encode_source(
            code,
            k,
            (tables::start(code, k) + j) as int,
        ) == j,
        j <= code / pow2(3 * (k + 1)) % 8 ==> tables::encode_source(
            code,
            k,
            (tables::start(code, k + 1) + j) as int,
        ) == 8 + j,
        tables::encode_source(code, k, p) == 255,
{
    law_start(code, k);
    law_start(code, k + 1);
}

/// The shuffles of the decoder take byte `j` of value `k` from where the block holds
/// it, if the value has that byte: the first shuffle if it lies in the lane of the
/// value, the second if it lies in the low half and the value is one of the high two.
pub proof fn law_decode_source(code: nat, k: nat, j: nat)
    requires
        k < 4,
        j < 8,
    ensures
        ({
            let q: int = (8 * k + j) as int;
            let p: int = (tables::start(code, k) + j) as int;
            let held: bool = j <= code / pow2(3 * k) % 8;
            &&& tables::decode_source(code, q) == (if held {
                p
            } else {
                -1
            })
            &&& k < 2 ==> tables::decode_pick_1(code, q) == (if held {
                p
            } else {
                255
            })
            &&& k >= 2 ==> tables::decode_pick_1(code, q) == (if held && p >= 16 {
                p - 16
            } else {
                255
            })
            &&& k >= 2 ==> tables::decode_pick_2(code, q - 16) == (if held && p < 16 {
                p
            } else {
                255
            })
            &&& tables::decode_pick_2(code, 16 + q % 16) == 255
        }),
{
    let q: int = (8 * k + j) as int;
    assert(q / 8 == k && q % 8 == j);
    tables::lemma_starts(code);
    assert(k == 0 || k == 1 || k == 2 || k == 3);
}

/// A vector holds four values, and the code of a block is their length codes in
/// three bits each, lowest first.
pub proof fn law_block(s: Seq<u8>, values: Seq<u64>, t: nat, k: nat)
    requires
        t < 4,
        1 <= k,
        values[t as int] < pow2(8 * k),
        k == 1 || pow2((8 * (k - 1)) as nat) <= values[t as int],
    ensures
        avx::lanes(s).len() == 4,
        avx::lanes(s)[t as int] == vector::qword(s, t as int),
        avx::block_code(values) < 4096,
        avx::block_code(values) / pow2(3 * t) % 8 + 1 == k,
{
    lemma_value_len(values[t as int], k);
    wire::lemma_code_range(values[0]);
    wire::lemma_code_range(values[1]);
    wire::lemma_code_range(values[2]);
    wire::lemma_code_range(values[3]);
    lemma_eight_digits(
        wire::code(values[0]),
        wire::code(values[1]),
        wire::code(values[2]),
        wire::code(values[3]),
        0,
        0,
        0,
        0,
        avx::block_code(values),
    );
    law_word(avx::block_code(values), 0, t);
    assert(t == 0 || t == 1 || t == 2 || t == 3);
}

/// A vector that is written for a block holds its bytes and then zeros.
pub proof fn law_padded(s: Seq<u8>, p: int)
    requires
        0 <= p < 32,
    ensures
        avx::padded(s).len() == 32,
        avx::padded(s)[p] == (if p < s.len() {
            s[p]
        } else {
            0
        }),
{
}

/// What the vectors of `encode_avx` overwrite with zeros lies in front of where they
/// end: 32 bytes behind the data bytes of all values but those of the last block of
/// four and those that do not make up a group.
pub proof fn law_store_end(a: Seq<u64>, b: Seq<u64>, s: Seq<u8>, i: int)
    requires
        a.len() % 8 == 4,
        4 <= b.len() < 12,
        0 <= i < s.len(),
    ensures
        avx::store_end(a + b) == wire::data_bytes(a).len() + 32,
        forall|end: nat|
            #[trigger] avx::zeroed(s, end).len() == s.len() && avx::zeroed(s, end)[i] == (if i
                < end {
                0
            } else {
                s[i]
            }),
{
    let v: Seq<u64> = a + b;
    assert(8 * (v.len() as int / 8) - 4 == a.len());
    assert(v.take(a.len() as int) =~= a);
}

/// For fewer values than make up a group, `encode_avx` writes no vector.
pub proof fn law_no_store(values: Seq<u64>)
    requires
        values.len() < 8,
    ensures
        avx::store_end(values) == 0,
{
}

} // verus!
