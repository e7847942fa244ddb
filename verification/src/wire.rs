//! The byte format, as mathematics.
//!
//! A value is stored as its little-endian bytes without leading zeros. How many
//! bytes that is, less one, is the value's three-bit length code. The codes of
//! eight consecutive values are packed, lowest first, into one three-byte key
//! word; codes past the last value are zero. All key words come first, then the
//! bytes of all values.
use vstd::arithmetic::power2::*;
use vstd::prelude::*;

verus! {

/// The base-256 digits of `v`, lowest first, without leading zeros. Zero has
/// the one digit 0.
pub open spec fn le_bytes(v: nat) -> Seq<u8>
    decreases v,
{
    if v < 256 {
        seq![v as u8]
    } else {
        seq![(v % 256) as u8] + le_bytes(v / 256)
    }
}

/// The number whose base-256 digits, lowest first, are `s`.
pub open spec fn le_value(s: Seq<u8>) -> nat
    decreases s.len(),
{
    if s.len() == 0 {
        0
    } else {
        s[0] as nat + 256 * le_value(s.skip(1))
    }
}

/// The length code of `v`: how many bytes it is stored in, less one.
pub open spec fn code(v: u64) -> nat {
    (le_bytes(v as nat).len() - 1) as nat
}

/// The bytes of all `values`, one after the other.
pub open spec fn data_bytes(values: Seq<u64>) -> Seq<u8>
    decreases values.len(),
{
    if values.len() == 0 {
        seq![]
    } else {
        data_bytes(values.drop_last()) + le_bytes(values.last() as nat)
    }
}

/// How many key words `n` values need.
pub open spec fn groups(n: nat) -> nat {
    (n + 7) / 8
}

/// How many key bytes `n` values need.
pub open spec fn key_len(n: nat) -> nat {
    3 * groups(n)
}

/// How many bytes `n` values can need at most.
pub open spec fn max_len(n: nat) -> nat {
    key_len(n) + 8 * n
}

/// The length code at index `i`, zero past the last value.
pub open spec fn code_or_zero(values: Seq<u64>, i: int) -> nat {
    if 0 <= i < values.len() {
        code(values[i])
    } else {
        0
    }
}

/// The key word of the eight values that start at index `8 * g`: their length
/// codes as base-8 digits, lowest first.
#[verifier::opaque]
pub open spec fn key_word(values: Seq<u64>, g: int) -> nat {
    code_or_zero(values, 8 * g) + 8 * code_or_zero(values, 8 * g + 1) + 64 * code_or_zero(
        values,
        8 * g + 2,
    ) + 512 * code_or_zero(values, 8 * g + 3) + 4096 * code_or_zero(values, 8 * g + 4) + 32768
        * code_or_zero(values, 8 * g + 5) + 262144 * code_or_zero(values, 8 * g + 6) + 2097152
        * code_or_zero(values, 8 * g + 7)
}

/// Byte `k` of the three little-endian bytes of the key word `w`.
pub open spec fn word_byte(w: nat, k: int) -> u8 {
    if k == 0 {
        (w % 256) as u8
    } else if k == 1 {
        (w / 256 % 256) as u8
    } else {
        (w / 65536 % 256) as u8
    }
}

/// The key bytes of `values`.
pub open spec fn key_bytes(values: Seq<u64>) -> Seq<u8> {
    Seq::new(key_len(values.len()), |b: int| word_byte(key_word(values, b / 3), b % 3))
}

/// The encoding of `values`.
pub open spec fn encoded(values: Seq<u64>) -> Seq<u8> {
    key_bytes(values) + data_bytes(values)
}

/// The key word that three bytes of `keys` hold, the `g`-th such three.
pub open spec fn word_at(keys: Seq<u8>, g: int) -> nat {
    keys[3 * g] as nat + 256 * keys[3 * g + 1] as nat + 65536 * keys[3 * g + 2] as nat
}

/// The base-8 digit `j` of `w`.
pub open spec fn digit(w: nat, j: nat) -> nat {
    w / pow2(3 * j) % 8
}

/// The length code at index `i`, read from `keys`.
pub open spec fn code_at(keys: Seq<u8>, i: int) -> nat {
    digit(word_at(keys, i / 8), (i % 8) as nat)
}

/// Where, by `keys`, the bytes of the value at index `n` begin: the number of
/// bytes of the first `n` values.
pub open spec fn offset(keys: Seq<u8>, n: nat) -> nat
    decreases n,
{
    if n == 0 {
        0
    } else {
        offset(keys, (n - 1) as nat) + code_at(keys, n - 1) + 1
    }
}

/// How many bytes, by `keys`, all codes in the key words of `n` values stand for,
/// less `8 - n % 8`. If the last group is not full, that takes out one byte for
/// each code behind the last value. If it is full, there is no such code, and
/// eight bytes of values are taken out.
pub open spec fn compressed_len(keys: Seq<u8>, n: nat) -> int {
    offset(keys, 8 * groups(n)) - (8 - n as int % 8)
}

/// The value at index `i` that `keys` and `data` hold.
pub open spec fn value_at(keys: Seq<u8>, data: Seq<u8>, i: int) -> u64 {
    le_value(
        data.subrange(offset(keys, i as nat) as int, offset(keys, (i + 1) as nat) as int),
    ) as u64
}

/// The first `n` values that `keys` and `data` hold.
pub open spec fn decoded(keys: Seq<u8>, data: Seq<u8>, n: nat) -> Seq<u64> {
    Seq::new(n, |i: int| value_at(keys, data, i))
}

/// `s` with `bytes` written over it from index `at` on.
pub open spec fn splice(s: Seq<u8>, at: int, bytes: Seq<u8>) -> Seq<u8> {
    s.take(at) + bytes + s.skip(at + bytes.len())
}

/// A value takes one to eight bytes.
pub proof fn lemma_code_range(v: u64)
    ensures
        1 <= le_bytes(v as nat).len() <= 8,
        code(v) <= 7,
        le_bytes(v as nat).len() == code(v) + 1,
{
    reveal_with_fuel(le_bytes, 9);
}

/// Reading the bytes of a number gives the number back.
pub proof fn lemma_le_value_of_le_bytes(v: nat)
    ensures
        le_value(le_bytes(v)) == v,
    decreases v,
{
    if v < 256 {
        reveal_with_fuel(le_value, 2);
    } else {
        lemma_le_value_of_le_bytes(v / 256);
        assert(le_bytes(v).skip(1) =~= le_bytes(v / 256));
    }
}

/// `n` bytes hold a number of `8 * n` bits.
pub proof fn lemma_le_value_bound(s: Seq<u8>)
    ensures
        le_value(s) < pow2(8 * s.len()),
    decreases s.len(),
{
    if s.len() == 0 {
        lemma2_to64();
    } else {
        lemma_le_value_bound(s.skip(1));
        lemma_pow2_adds(8, (8 * (s.len() - 1)) as nat);
        lemma2_to64();
    }
}

/// Up to eight bytes hold a number that fits in 64 bits.
pub proof fn lemma_le_value_fits(s: Seq<u8>)
    requires
        s.len() <= 8,
    ensures
        le_value(s) <= u64::MAX,
{
    lemma_le_value_bound(s);
    lemma2_to64_rest();
    if s.len() < 8 {
        lemma_pow2_strictly_increases(8 * s.len(), 64);
    }
}

/// Bytes that are all zero hold zero.
pub proof fn lemma_le_value_zeros(s: Seq<u8>)
    requires
        forall|j: int| 0 <= j < s.len() ==> s[j] == 0,
    ensures
        le_value(s) == 0,
    decreases s.len(),
{
    if s.len() > 0 {
        lemma_le_value_zeros(s.skip(1));
    }
}

/// Zero bytes behind the highest digit do not change the number.
pub proof fn lemma_le_value_padded(s: Seq<u8>, n: nat)
    requires
        n <= s.len(),
        forall|j: int| n <= j < s.len() ==> s[j] == 0,
    ensures
        le_value(s) == le_value(s.take(n as int)),
    decreases n,
{
    if n == 0 {
        lemma_le_value_zeros(s);
    } else {
        lemma_le_value_padded(s.skip(1), (n - 1) as nat);
        assert(s.take(n as int).skip(1) =~= s.skip(1).take(n - 1));
    }
}

/// The bytes of a number are its digits up to the highest that is not zero.
pub proof fn lemma_le_bytes_of_le_value(s: Seq<u8>, n: nat)
    requires
        1 <= n <= s.len(),
        forall|j: int| n <= j < s.len() ==> s[j] == 0,
        n == 1 || s[n - 1] != 0,
    ensures
        le_bytes(le_value(s)) == s.take(n as int),
    decreases n,
{
    let rest: Seq<u8> = s.skip(1);
    let w: nat = le_value(rest);
    if n == 1 {
        lemma_le_value_zeros(rest);
        assert(le_bytes(le_value(s)) =~= s.take(1));
    } else {
        lemma_le_bytes_of_le_value(rest, (n - 1) as nat);
        assert(le_bytes(w)[n - 2] == s[n - 1]);
        assert(w > 0) by {
            if w == 0 {
                assert(rest.take(n - 1).len() == 1);
                assert(le_bytes(w) == seq![0u8]);
            }
        }
        assert(le_value(s) / 256 == w);
        assert(le_bytes(le_value(s)) =~= s.take(n as int));
    }
}

/// The encoding of values is that of the first of them and that of the rest.
pub proof fn lemma_data_bytes_split(a: Seq<u64>, b: Seq<u64>)
    ensures
        data_bytes(a + b) == data_bytes(a) + data_bytes(b),
    decreases b.len(),
{
    if b.len() == 0 {
        assert(a + b =~= a);
        assert(data_bytes(a) + data_bytes(b) =~= data_bytes(a));
    } else {
        lemma_data_bytes_split(a, b.drop_last());
        assert((a + b).drop_last() =~= a + b.drop_last());
        assert(data_bytes(a + b) =~= data_bytes(a) + data_bytes(b));
    }
}

/// The encoding of the first `i + 1` values, and that it is not longer than the
/// encoding of all.
pub proof fn lemma_data_bytes_step(values: Seq<u64>, i: int)
    requires
        0 <= i < values.len(),
    ensures
        data_bytes(values.take(i + 1)) == data_bytes(values.take(i)) + le_bytes(values[i] as nat),
        data_bytes(values.take(i + 1)).len() <= data_bytes(values).len(),
{
    assert(values.take(i + 1).drop_last() =~= values.take(i));
    assert(values =~= values.take(i + 1) + values.skip(i + 1));
    lemma_data_bytes_split(values.take(i + 1), values.skip(i + 1));
}

/// The weight of the base-8 digit `j` of a key word.
pub open spec fn weight(j: int) -> nat {
    if j == 0 {
        1
    } else if j == 1 {
        8
    } else if j == 2 {
        64
    } else if j == 3 {
        512
    } else if j == 4 {
        4096
    } else if j == 5 {
        32768
    } else if j == 6 {
        262144
    } else if j == 7 {
        2097152
    } else {
        16777216
    }
}

/// A length code is at most seven.
pub proof fn lemma_code_or_zero_range(values: Seq<u64>, i: int)
    ensures
        code_or_zero(values, i) <= 7,
{
    if 0 <= i < values.len() {
        lemma_code_range(values[i]);
    }
}

/// A key word with `j` codes in it has `j` digits.
pub proof fn lemma_key_word_bound(values: Seq<u64>, g: int, j: int)
    requires
        0 <= g,
        0 <= j <= 8,
        values.len() <= 8 * g + j,
    ensures
        key_word(values, g) < weight(j),
{
    reveal(key_word);
    lemma_code_or_zero_range(values, 8 * g);
    lemma_code_or_zero_range(values, 8 * g + 1);
    lemma_code_or_zero_range(values, 8 * g + 2);
    lemma_code_or_zero_range(values, 8 * g + 3);
    lemma_code_or_zero_range(values, 8 * g + 4);
    lemma_code_or_zero_range(values, 8 * g + 5);
    lemma_code_or_zero_range(values, 8 * g + 6);
    lemma_code_or_zero_range(values, 8 * g + 7);
}

/// A key word is less than two to the power of 24.
pub proof fn lemma_key_word_range(values: Seq<u64>, g: int)
    ensures
        key_word(values, g) < 16777216,
{
    reveal(key_word);
    lemma_code_or_zero_range(values, 8 * g);
    lemma_code_or_zero_range(values, 8 * g + 1);
    lemma_code_or_zero_range(values, 8 * g + 2);
    lemma_code_or_zero_range(values, 8 * g + 3);
    lemma_code_or_zero_range(values, 8 * g + 4);
    lemma_code_or_zero_range(values, 8 * g + 5);
    lemma_code_or_zero_range(values, 8 * g + 6);
    lemma_code_or_zero_range(values, 8 * g + 7);
}

/// One more value adds its code to the key word.
pub proof fn lemma_key_word_step(values: Seq<u64>, i: int, g: int)
    requires
        0 <= g,
        8 * g <= i < 8 * g + 8,
        i < values.len(),
    ensures
        key_word(values.take(i + 1), g) == key_word(values.take(i), g) + code(values[i]) * weight(
            i - 8 * g,
        ),
{
    reveal(key_word);
    let a: Seq<u64> = values.take(i);
    let b: Seq<u64> = values.take(i + 1);
    let j: int = i - 8 * g;
    assert(code_or_zero(b, i) == code(values[i]));
    assert(code_or_zero(a, i) == 0);
    assert(forall|t: int| 0 <= t && t != i ==> #[trigger] code_or_zero(a, t) == code_or_zero(b, t));
    assert(j == 0 || j == 1 || j == 2 || j == 3 || j == 4 || j == 5 || j == 6 || j == 7);
}

/// A key word is that of the values up to the end of its group.
pub proof fn lemma_key_word_take(values: Seq<u64>, i: int, g: int)
    requires
        0 <= g,
        0 <= i <= values.len(),
        i == values.len() || 8 * g + 8 <= i,
    ensures
        key_word(values.take(i), g) == key_word(values, g),
{
    reveal(key_word);
    assert(forall|t: int|
        0 <= t < 8 * g + 8 ==> #[trigger] code_or_zero(values.take(i), t) == code_or_zero(
            values,
            t,
        ));
}

/// By any keys, a value takes one to eight bytes.
pub proof fn lemma_offset_bounds(keys: Seq<u8>, i: nat, n: nat)
    requires
        i <= n,
    ensures
        offset(keys, i) + (n - i) <= offset(keys, n) <= offset(keys, i) + 8 * (n - i),
    decreases n,
{
    if i < n {
        lemma_offset_bounds(keys, i, (n - 1) as nat);
    }
}

/// The first values of some have no longer an encoding than more of them.
pub proof fn lemma_data_bytes_monotonic(values: Seq<u64>, i: int, j: int)
    requires
        0 <= i <= j <= values.len(),
    ensures
        data_bytes(values.take(i)).len() <= data_bytes(values.take(j)).len(),
{
    assert(values.take(j) =~= values.take(i) + values.subrange(i, j));
    lemma_data_bytes_split(values.take(i), values.subrange(i, j));
}

/// The key words behind the first `c` are those of the values behind the first
/// `8 * c`.
pub proof fn lemma_key_word_skip(values: Seq<u64>, c: int, g: int)
    requires
        0 <= c,
        0 <= g,
        8 * c <= values.len(),
    ensures
        key_word(values.skip(8 * c), g) == key_word(values, c + g),
{
    reveal(key_word);
    assert(forall|t: int|
        0 <= t ==> #[trigger] code_or_zero(values.skip(8 * c), t) == code_or_zero(
            values,
            8 * c + t,
        ));
    assert(8 * (c + g) == 8 * c + 8 * g);
}

/// The key bytes of whole groups, and of one more group.
pub proof fn lemma_key_bytes_step(keys: Seq<u8>, values: Seq<u64>, c: int)
    requires
        0 <= c,
        8 * c + 8 <= values.len(),
        3 * c + 3 <= keys.len(),
    ensures
        splice(keys, 0, key_bytes(values.take(8 * c))).update(
            3 * c,
            word_byte(key_word(values, c), 0),
        ).update(3 * c + 1, word_byte(key_word(values, c), 1)).update(
            3 * c + 2,
            word_byte(key_word(values, c), 2),
        ) == splice(keys, 0, key_bytes(values.take(8 * c + 8))),
{
    let a: Seq<u8> = key_bytes(values.take(8 * c));
    let b: Seq<u8> = key_bytes(values.take(8 * c + 8));
    assert(a.len() == 3 * c && b.len() == 3 * c + 3);
    assert forall|t: int| 0 <= t < b.len() implies #[trigger] b[t] == word_byte(
        key_word(values, t / 3),
        t % 3,
    ) by {
        lemma_key_word_take(values, 8 * c + 8, t / 3);
    }
    assert forall|t: int| 0 <= t < a.len() implies #[trigger] a[t] == word_byte(
        key_word(values, t / 3),
        t % 3,
    ) by {
        lemma_key_word_take(values, 8 * c, t / 3);
    }
    assert(splice(keys, 0, a).update(3 * c, word_byte(key_word(values, c), 0)).update(
        3 * c + 1,
        word_byte(key_word(values, c), 1),
    ).update(3 * c + 2, word_byte(key_word(values, c), 2)) =~= splice(keys, 0, b));
}

/// The key bytes of values are those of the first groups and those of the rest.
pub proof fn lemma_key_bytes_split(values: Seq<u64>, c: int)
    requires
        0 <= c,
        8 * c <= values.len(),
    ensures
        key_bytes(values) == key_bytes(values.take(8 * c)) + key_bytes(values.skip(8 * c)),
{
    let a: Seq<u8> = key_bytes(values.take(8 * c));
    let b: Seq<u8> = key_bytes(values.skip(8 * c));
    assert(a.len() == 3 * c);
    assert forall|t: int| 0 <= t < key_len(values.len()) implies #[trigger] key_bytes(values)[t]
        == (a + b)[t] by {
        if t < 3 * c {
            lemma_key_word_take(values, 8 * c, t / 3);
        } else {
            lemma_key_word_skip(values, c, t / 3 - c);
            assert((t - 3 * c) / 3 == t / 3 - c);
            assert((t - 3 * c) % 3 == t % 3);
        }
    }
    assert(key_bytes(values) =~= a + b);
}

/// Writing behind what was written in front extends it.
pub proof fn lemma_splice_behind(s: Seq<u8>, e: Seq<u8>, d: Seq<u8>)
    requires
        e.len() + d.len() <= s.len(),
    ensures
        splice(s, 0, e).subrange(0, e.len() as int) + splice(
            splice(s, 0, e).subrange(e.len() as int, s.len() as int),
            0,
            d,
        ) == splice(s, 0, e + d),
{
    assert(splice(s, 0, e).subrange(0, e.len() as int) =~= e);
    assert(splice(s, 0, e).subrange(e.len() as int, s.len() as int) =~= s.skip(e.len() as int));
    assert(e + splice(s.skip(e.len() as int), 0, d) =~= splice(s, 0, e + d));
}

/// The codes behind the first `c` key words.
pub proof fn lemma_code_at_skip(keys: Seq<u8>, c: int, i: int)
    requires
        0 <= c,
        0 <= i,
        key_len((8 * c + i + 1) as nat) <= keys.len(),
    ensures
        code_at(keys.skip(3 * c), i) == code_at(keys, 8 * c + i),
{
    let g: int = i / 8;
    assert((8 * c + i) / 8 == c + g && (8 * c + i) % 8 == i % 8);
    assert(3 * (c + g) == 3 * c + 3 * g);
    assert(word_at(keys.skip(3 * c), g) == word_at(keys, c + g));
}

/// Where the values behind the first `8 * c` begin.
pub proof fn lemma_offset_skip(keys: Seq<u8>, c: int, m: nat)
    requires
        0 <= c,
        key_len((8 * c + m) as nat) <= keys.len(),
    ensures
        offset(keys, (8 * c + m) as nat) == offset(keys, (8 * c) as nat) + offset(
            keys.skip(3 * c),
            m,
        ),
    decreases m,
{
    if m > 0 {
        lemma_offset_skip(keys, c, (m - 1) as nat);
        lemma_code_at_skip(keys, c, m - 1);
    }
}

/// The values behind the first `8 * c`, from the keys and the data bytes behind
/// theirs.
pub proof fn lemma_value_at_skip(keys: Seq<u8>, data: Seq<u8>, c: int, i: int)
    requires
        0 <= c,
        0 <= i,
        key_len((8 * c + i + 1) as nat) <= keys.len(),
        offset(keys, (8 * c + i + 1) as nat) <= data.len(),
    ensures
        value_at(keys.skip(3 * c), data.skip(offset(keys, (8 * c) as nat) as int), i) == value_at(
            keys,
            data,
            8 * c + i,
        ),
{
    let p: int = offset(keys, (8 * c) as nat) as int;
    let a: int = offset(keys.skip(3 * c), i as nat) as int;
    let b: int = offset(keys.skip(3 * c), (i + 1) as nat) as int;
    lemma_offset_skip(keys, c, i as nat);
    lemma_offset_skip(keys, c, (i + 1) as nat);
    assert(data.skip(p).subrange(a, b) =~= data.subrange(p + a, p + b));
}

/// Decoded values are those of the first groups and those of the rest.
pub proof fn lemma_decoded_split(keys: Seq<u8>, data: Seq<u8>, c: int, m: nat)
    requires
        0 <= c,
        key_len((8 * c + m) as nat) <= keys.len(),
        offset(keys, (8 * c + m) as nat) <= data.len(),
    ensures
        offset(keys, (8 * c) as nat) + offset(keys.skip(3 * c), m) == offset(
            keys,
            (8 * c + m) as nat,
        ),
        decoded(keys, data, (8 * c + m) as nat) == decoded(keys, data, (8 * c) as nat) + decoded(
            keys.skip(3 * c),
            data.skip(offset(keys, (8 * c) as nat) as int),
            m,
        ),
{
    let n: nat = (8 * c + m) as nat;
    let a: Seq<u64> = decoded(keys, data, (8 * c) as nat);
    let b: Seq<u64> = decoded(
        keys.skip(3 * c),
        data.skip(offset(keys, (8 * c) as nat) as int),
        m,
    );
    lemma_offset_skip(keys, c, m);
    assert forall|t: int| 0 <= t < n implies #[trigger] decoded(keys, data, n)[t] == (a + b)[t] by {
        if t >= 8 * c {
            lemma_offset_bounds(keys, (t + 1) as nat, n);
            lemma_value_at_skip(keys, data, c, t - 8 * c);
        }
    }
    assert(decoded(keys, data, n) =~= a + b);
}

/// Values take one to eight data bytes each.
pub proof fn lemma_data_bytes_bound(values: Seq<u64>)
    ensures
        values.len() <= data_bytes(values).len() <= 8 * values.len(),
    decreases values.len(),
{
    if values.len() > 0 {
        lemma_data_bytes_bound(values.drop_last());
        lemma_code_range(values.last());
    }
}

} // verus!
