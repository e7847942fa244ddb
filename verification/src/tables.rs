//! Lengths and byte shuffles of a block of four values, by its twelve-bit code.
//!
//! The code of a block is the four length codes of its values as base-8 digits,
//! lowest first.
use crate::vector::Vector;
#[allow(unused_imports)]
use crate::wire;
use vstd::arithmetic::power2::*;
use vstd::prelude::*;

verus! {

/// Where in a block with this `code` the bytes of value `k` begin.
pub open spec fn start(code: nat, k: nat) -> nat
    decreases k,
{
    if k == 0 {
        0
    } else {
        start(code, (k - 1) as nat) + wire::digit(code, (k - 1) as nat) + 1
    }
}

/// The byte of a lane that belongs at index `p` of the encoded block, where the
/// lane holds the values `k` and `k + 1`; 255 if neither has a byte there.
pub open spec fn encode_source(code: nat, k: nat, p: int) -> u8 {
    if start(code, k) <= p < start(code, k + 1) {
        (p - start(code, k)) as u8
    } else if start(code, k + 1) <= p < start(code, k + 2) {
        (8 + p - start(code, k + 1)) as u8
    } else {
        255
    }
}

/// The index in the encoded block of byte `q % 8` of value `q / 8`; -1 if the
/// block does not hold that byte, which is then zero.
pub open spec fn decode_source(code: nat, q: int) -> int {
    if q % 8 <= wire::digit(code, (q / 8) as nat) {
        start(code, (q / 8) as nat) + q % 8
    } else {
        -1
    }
}

/// The byte of its lane of an encoded block that belongs at index `q` of the four
/// values; 255 if that byte is zero or lies in the other lane.
pub open spec fn decode_pick_1(code: nat, q: int) -> u8 {
    let p: int = decode_source(code, q);
    if q < 16 && 0 <= p {
        p as u8
    } else if 16 <= q && 16 <= p {
        (p - 16) as u8
    } else {
        255
    }
}

/// The byte of the low half of an encoded block that belongs at index `16 + m` of
/// the four values; 255 if that byte is zero or lies in the high half, and for
/// `m` in the high lane.
pub open spec fn decode_pick_2(code: nat, m: int) -> u8 {
    let p: int = decode_source(code, 16 + m);
    if m < 16 && 0 <= p < 16 {
        p as u8
    } else {
        255
    }
}

/// Where the values of a block begin, each takes one to eight bytes.
pub proof fn lemma_starts(code: nat)
    ensures
        start(code, 0) == 0,
        start(code, 1) == 1 + code % 8,
        start(code, 2) == 2 + code % 8 + code / 8 % 8,
        start(code, 3) == 3 + code % 8 + code / 8 % 8 + code / 64 % 8,
        start(code, 4) == 4 + code % 8 + code / 8 % 8 + code / 64 % 8 + code / 512 % 8,
        wire::digit(code, 0) == code % 8,
        wire::digit(code, 1) == code / 8 % 8,
        wire::digit(code, 2) == code / 64 % 8,
        wire::digit(code, 3) == code / 512 % 8,
{
    lemma2_to64();
    assert(pow2(3 * 0) == 1 && pow2(3 * 1) == 8 && pow2(3 * 2) == 64 && pow2(3 * 3) == 512);
    assert(wire::digit(code, 0) == code % 8);
    reveal_with_fuel(start, 5);
}

/// The base-8 digits of the two halves of a number of eight digits.
proof fn lemma_half_digits(key: nat, low: nat, high: nat)
    requires
        low == key % 4096,
        high == key / 4096,
    ensures
        low % 8 == key % 8,
        low / 8 % 8 == key / 8 % 8,
        low / 64 % 8 == key / 64 % 8,
        low / 512 % 8 == key / 512 % 8,
        high / 8 == key / 32768,
        high / 64 == key / 262144,
        high / 512 == key / 2097152,
{
    assert(key == 4096 * high + low);
    assert(key / 8 == 512 * high + low / 8);
    assert(key / 64 == 64 * high + low / 64);
    assert(key / 512 == 8 * high + low / 512);
}

/// The two halves of a key word are the codes of two blocks.
pub proof fn lemma_key_halves(key: nat)
    requires
        key < 16777216,
    ensures
        key % 4096 < 4096,
        key / 4096 < 4096,
        forall|k: nat| k < 4 ==> #[trigger] wire::digit(key % 4096, k) == wire::digit(key, k),
        forall|k: nat|
            k < 4 ==> #[trigger] wire::digit(key / 4096, k) == wire::digit(key, k + 4),
{
    lemma2_to64();
    let (low, high) = (key % 4096, key / 4096);
    lemma_starts(key);
    lemma_starts(low);
    lemma_starts(high);
    lemma_half_digits(key, low, high);
    assert(pow2(3 * 4) == 4096 && pow2(3 * 5) == 32768 && pow2(3 * 6) == 262144 && pow2(3 * 7)
        == 2097152);
    assert(wire::digit(key, 4) == key / 4096 % 8);
    assert(wire::digit(key, 5) == key / 32768 % 8);
    assert(wire::digit(key, 6) == key / 262144 % 8);
    assert(wire::digit(key, 7) == key / 2097152 % 8);
    assert forall|k: nat| k < 4 implies #[trigger] wire::digit(low, k) == wire::digit(key, k) by {
        assert(k == 0 || k == 1 || k == 2 || k == 3);
    }
    assert forall|k: nat| k < 4 implies #[trigger] wire::digit(high, k) == wire::digit(
        key,
        k + 4,
    ) by {
        assert(k == 0 || k == 1 || k == 2 || k == 3);
    }
}

/// Where the values of a block begin, by the keys.
pub proof fn lemma_block_offsets(keys: Seq<u8>, first: nat, code: nat, k: nat)
    requires
        k <= 4,
        forall|t: nat|
            t < 4 ==> #[trigger] wire::digit(code, t) == wire::code_at(keys, (first + t) as int),
    ensures
        wire::offset(keys, first) + start(code, k) == wire::offset(keys, first + k),
    decreases k,
{
    if k > 0 {
        lemma_block_offsets(keys, first, code, (k - 1) as nat);
        assert(wire::digit(code, (k - 1) as nat) == wire::code_at(keys, first + k - 1));
    }
}

/// How many bytes the two blocks of a key word take, by the keys.
pub proof fn lemma_key_lengths(keys: Seq<u8>, g: nat, key: nat)
    requires
        key < 16777216,
        key == wire::word_at(keys, g as int),
    ensures
        wire::offset(keys, 8 * g + 4) == wire::offset(keys, 8 * g) + start(key % 4096, 4),
        wire::offset(keys, 8 * g + 8) == wire::offset(keys, 8 * g + 4) + start(key / 4096, 4),
{
    lemma_key_halves(key);
    assert forall|t: nat| t < 8 implies wire::code_at(keys, (8 * g + t) as int)
        == #[trigger] wire::digit(key, t) by {
        assert((8 * g + t) / 8 == g && (8 * g + t) % 8 == t);
    }
    lemma_block_offsets(keys, 8 * g, key % 4096, 4);
    lemma_block_offsets(keys, 8 * g + 4, key / 4096, 4);
}

/// Where the four values of the block begin, and where the last one ends.
fn starts(code: u32) -> (r: [usize; 5])
    requires
        code < 4096,
    ensures
        forall|k: int| 0 <= k < 5 ==> #[trigger] r@[k] == start(code as nat, k as nat),
        0 == r@[0] < r@[1] < r@[2] < r@[3] < r@[4],
        r@[1] <= 8,
        r@[2] <= r@[1] + 8,
        r@[3] <= r@[2] + 8,
        r@[4] <= r@[3] + 8,
{
    proof {
        lemma_starts(code as nat);
    }
    let s1: usize = (1 + code % 8) as usize;
    let s2: usize = s1 + 1 + (code / 8 % 8) as usize;
    let s3: usize = s2 + 1 + (code / 64 % 8) as usize;
    let s4: usize = s3 + 1 + (code / 512 % 8) as usize;
    [0, s1, s2, s3, s4]
}

/// How many bytes the four values of a block take.
pub fn length(code: u32) -> (len: u8)
    requires
        code < 4096,
    ensures
        len == start(code as nat, 4),
        4 <= len <= 32,
        len == 4 + code % 8 + code / 8 % 8 + code / 64 % 8 + code / 512 % 8,
{
    proof {
        lemma_starts(code as nat);
    }
    starts(code)[4] as u8
}

/// The shuffle that moves the bytes of an encoded block to their places, as far
/// as that leaves them in their lane.
pub fn encode_shuffle_1(code: u32) -> (r: Vector)
    requires
        code < 4096,
    ensures
        forall|p: int|
            0 <= p < 32 ==> #[trigger] r@[p] == encode_source(
                code as nat,
                if p < 16 {
                    0
                } else {
                    2
                },
                p,
            ),
{
    let s: [usize; 5] = starts(code);
    let mut bytes: [u8; 32] = [255u8;32];
    let mut p: usize = 0;
    while p < 32
        invariant
            p <= 32,
            forall|k: int| 0 <= k < 5 ==> #[trigger] s@[k] == start(code as nat, k as nat),
            0 == s@[0] < s@[1] < s@[2] < s@[3] < s@[4],
            s@[1] <= 8,
            s@[2] <= s@[1] + 8,
            s@[3] <= s@[2] + 8,
            s@[4] <= s@[3] + 8,
            forall|j: int| p <= j < 32 ==> #[trigger] bytes@[j] == 255,
            forall|j: int|
                0 <= j < p ==> #[trigger] bytes@[j] == encode_source(
                    code as nat,
                    if j < 16 {
                        0
                    } else {
                        2
                    },
                    j,
                ),
        decreases 32 - p,
    {
        let k: usize = if p < 16 {
            0
        } else {
            2
        };
        if s[k] <= p && p < s[k + 1] {
            bytes[p] = (p - s[k]) as u8;
        } else if s[k + 1] <= p && p < s[k + 2] {
            bytes[p] = (8 + (p - s[k + 1])) as u8;
        }
        p = p + 1;
    }
    Vector::setr_epi8(bytes)
}

/// The shuffle that moves those bytes of the two high values that belong in the
/// low half of an encoded block to their places, one lane too high.
pub fn encode_shuffle_2(code: u32) -> (r: Vector)
    requires
        code < 4096,
    ensures
        forall|q: int|
            0 <= q < 32 ==> #[trigger] r@[q] == (if q < 16 {
                255
            } else {
                encode_source(code as nat, 2, q - 16)
            }),
{
    let s: [usize; 5] = starts(code);
    let mut bytes: [u8; 32] = [255u8;32];
    let mut p: usize = 0;
    while p < 16
        invariant
            p <= 16,
            forall|k: int| 0 <= k < 5 ==> #[trigger] s@[k] == start(code as nat, k as nat),
            0 == s@[0] < s@[1] < s@[2] < s@[3] < s@[4],
            s@[3] <= s@[2] + 8,
            s@[4] <= s@[3] + 8,
            forall|j: int| 0 <= j < 16 ==> #[trigger] bytes@[j] == 255,
            forall|j: int| 16 + p <= j < 32 ==> #[trigger] bytes@[j] == 255,
            forall|j: int|
                16 <= j < 16 + p ==> #[trigger] bytes@[j] == encode_source(
                    code as nat,
                    2,
                    j - 16,
                ),
        decreases 16 - p,
    {
        if s[2] <= p && p < s[3] {
            bytes[16 + p] = (p - s[2]) as u8;
        } else if s[3] <= p && p < s[4] {
            bytes[16 + p] = (8 + (p - s[3])) as u8;
        }
        p = p + 1;
    }
    Vector::setr_epi8(bytes)
}

/// The shuffle that moves the bytes of an encoded block back into the values, as
/// far as that leaves them in their lane.
pub fn decode_shuffle_1(code: u32) -> (r: Vector)
    requires
        code < 4096,
    ensures
        forall|q: int|
            0 <= q < 32 ==> #[trigger] r@[q] == decode_pick_1(code as nat, q),
{
    let s: [usize; 5] = starts(code);
    let mut bytes: [u8; 32] = [255u8;32];
    let mut q: usize = 0;
    while q < 32
        invariant
            q <= 32,
            forall|k: int| 0 <= k < 5 ==> #[trigger] s@[k] == start(code as nat, k as nat),
            0 == s@[0] < s@[1] < s@[2] < s@[3] < s@[4],
            s@[1] <= 8,
            s@[2] <= s@[1] + 8,
            s@[3] <= s@[2] + 8,
            s@[4] <= s@[3] + 8,
            forall|j: int| q <= j < 32 ==> #[trigger] bytes@[j] == 255,
            forall|j: int|
                0 <= j < q ==> #[trigger] bytes@[j] == decode_pick_1(code as nat, j),
        decreases 32 - q,
    {
        let k: usize = q / 8;
        let p: usize = s[k] + q % 8;
        assert(s@[k + 1] == start(code as nat, (k + 1) as nat));
        if p < s[k + 1] {
            if q < 16 {
                bytes[q] = p as u8;
            } else if 16 <= p {
                bytes[q] = (p - 16) as u8;
            }
        }
        q = q + 1;
    }
    Vector::setr_epi8(bytes)
}

/// The shuffle that moves those bytes of the two high values that lie in the low
/// half of an encoded block back into the values, one lane too low.
pub fn decode_shuffle_2(code: u32) -> (r: Vector)
    requires
        code < 4096,
    ensures
        forall|m: int|
            0 <= m < 32 ==> #[trigger] r@[m] == decode_pick_2(code as nat, m),
{
    let s: [usize; 5] = starts(code);
    let mut bytes: [u8; 32] = [255u8;32];
    let mut m: usize = 0;
    while m < 16
        invariant
            m <= 16,
            forall|k: int| 0 <= k < 5 ==> #[trigger] s@[k] == start(code as nat, k as nat),
            0 == s@[0] < s@[1] < s@[2] < s@[3] < s@[4],
            s@[1] <= 8,
            s@[2] <= s@[1] + 8,
            s@[3] <= s@[2] + 8,
            s@[4] <= s@[3] + 8,
            forall|j: int| m <= j < 32 ==> #[trigger] bytes@[j] == 255,
            forall|j: int|
                0 <= j < m ==> #[trigger] bytes@[j] == decode_pick_2(code as nat, j),
        decreases 16 - m,
    {
        let k: usize = 2 + m / 8;
        let p: usize = s[k] + m % 8;
        assert(s@[k + 1] == start(code as nat, (k + 1) as nat));
        if p < s[k + 1] && p < 16 {
            bytes[m] = p as u8;
        }
        m = m + 1;
    }
    Vector::setr_epi8(bytes)
}

} // verus!
