//! The block codec: four values at a time, in vector operations.
use crate::tables;
use crate::scalar::{decode_scalar, encode_scalar, read_key, write_key};
use crate::vector::Vector;
#[allow(unused_imports)]
use crate::vector;
#[allow(unused_imports)]
use crate::wire;
use vstd::prelude::*;

verus! {

/// The index within the 64-bit word number `k` of its highest byte that is not
/// zero; 0 if all are zero.
pub open spec fn top_byte(s: Seq<u8>, k: int) -> int {
    if s[8 * k + 7] != 0 {
        7
    } else if s[8 * k + 6] != 0 {
        6
    } else if s[8 * k + 5] != 0 {
        5
    } else if s[8 * k + 4] != 0 {
        4
    } else if s[8 * k + 3] != 0 {
        3
    } else if s[8 * k + 2] != 0 {
        2
    } else if s[8 * k + 1] != 0 {
        1
    } else {
        0
    }
}

/// A 64-bit word is the number that its eight bytes hold.
proof fn lemma_qword_value(s: Seq<u8>, k: int)
    requires
        0 <= k,
        8 * k + 8 <= s.len(),
    ensures
        wire::le_value(s.subrange(8 * k, 8 * k + 8)) == vector::qword(s, k),
{
    let t: Seq<u8> = s.subrange(8 * k, 8 * k + 8);
    let (b0, b1, b2, b3) = (t[0], t[1], t[2], t[3]);
    let (b4, b5, b6, b7) = (t[4], t[5], t[6], t[7]);
    assert(vector::join8(b0, b1, b2, b3, b4, b5, b6, b7) == b0 + 0x100 * b1 + 0x10000 * b2
        + 0x1000000 * b3 + 0x100000000 * b4 + 0x10000000000 * b5 + 0x1000000000000 * b6
        + 0x100000000000000 * b7) by (bit_vector);
    assert(t.skip(1)[0] == b1);
    assert(t.skip(1).skip(1)[0] == b2);
    reveal_with_fuel(wire::le_value, 9);
}

/// The bytes in which a 64-bit word is stored are its bytes up to the highest
/// that is not zero.
proof fn lemma_qword_bytes(s: Seq<u8>, k: int)
    requires
        0 <= k,
        8 * k + 8 <= s.len(),
    ensures
        wire::le_bytes(vector::qword(s, k) as nat) == s.subrange(8 * k, 8 * k + top_byte(s, k) + 1),
        wire::code(vector::qword(s, k)) == top_byte(s, k),
{
    let t: Seq<u8> = s.subrange(8 * k, 8 * k + 8);
    lemma_qword_value(s, k);
    wire::lemma_le_bytes_of_le_value(t, (top_byte(s, k) + 1) as nat);
    assert(t.take(top_byte(s, k) + 1) =~= s.subrange(8 * k, 8 * k + top_byte(s, k) + 1));
}

/// Multiplying flags by the low shifter gathers the flags of the bytes 1 to 3 in
/// the highest byte.
proof fn lemma_low_map(m0: u8, m1: u8, m2: u8, m3: u8, r0: u8, r1: u8, r2: u8, r3: u8)
    requires
        m0 <= 1,
        m1 <= 1,
        m2 <= 1,
        m3 <= 1,
        vector::join4(r0, r1, r2, r3) == vector::join4(m0, m1, m2, m3).wrapping_mul(0x40201),
    ensures
        r3 == m3 + 2 * m2 + 4 * m1,
{
    let x: u32 = vector::join4(m0, m1, m2, m3);
    let y: u32 = vector::join4(r0, r1, r2, r3);
    assert(r3 == m3 + 2 * m2 + 4 * m1) by (bit_vector)
        requires
            m0 <= 1,
            m1 <= 1,
            m2 <= 1,
            m3 <= 1,
            x == vector::join4(m0, m1, m2, m3),
            y == vector::join4(r0, r1, r2, r3),
            y == (x * 0x40201u32) % 0x1_0000_0000,
    ;
}

/// Multiplying flags by the high shifter gathers the flags of all four bytes in
/// the highest byte.
proof fn lemma_high_map(m0: u8, m1: u8, m2: u8, m3: u8, r0: u8, r1: u8, r2: u8, r3: u8)
    requires
        m0 <= 1,
        m1 <= 1,
        m2 <= 1,
        m3 <= 1,
        vector::join4(r0, r1, r2, r3) == vector::join4(m0, m1, m2, m3).wrapping_mul(0x8040201),
    ensures
        r3 == m3 + 2 * m2 + 4 * m1 + 8 * m0,
{
    let x: u32 = vector::join4(m0, m1, m2, m3);
    let y: u32 = vector::join4(r0, r1, r2, r3);
    assert(r3 == m3 + 2 * m2 + 4 * m1 + 8 * m0) by (bit_vector)
        requires
            m0 <= 1,
            m1 <= 1,
            m2 <= 1,
            m3 <= 1,
            x == vector::join4(m0, m1, m2, m3),
            y == vector::join4(r0, r1, r2, r3),
            y == (x * 0x8040201u32) % 0x1_0000_0000,
    ;
}

/// Shifting a 64-bit word left by 32 bits moves byte 3 to byte 7.
proof fn lemma_shift_32(s: Seq<u8>, t: Seq<u8>, k: int)
    requires
        vector::qword(t, k) == vector::qword(s, k) << 32u32,
    ensures
        t[8 * k + 7] == s[8 * k + 3],
{
    let (a0, a1, a2, a3) = (s[8 * k], s[8 * k + 1], s[8 * k + 2], s[8 * k + 3]);
    let (a4, a5, a6, a7) = (s[8 * k + 4], s[8 * k + 5], s[8 * k + 6], s[8 * k + 7]);
    let (b0, b1, b2, b3) = (t[8 * k], t[8 * k + 1], t[8 * k + 2], t[8 * k + 3]);
    let (b4, b5, b6, b7) = (t[8 * k + 4], t[8 * k + 5], t[8 * k + 6], t[8 * k + 7]);
    assert(b7 == a3) by (bit_vector)
        requires
            vector::join8(b0, b1, b2, b3, b4, b5, b6, b7) == vector::join8(
                a0,
                a1,
                a2,
                a3,
                a4,
                a5,
                a6,
                a7,
            ) << 32u32,
    ;
}

/// The length codes of the four values, each in the highest byte of its 64-bit
/// word.
fn lane_codes(value: &Vector) -> (r: Vector)
    ensures
        r@[7] == wire::code(vector::qword(value@, 0)),
        r@[15] == wire::code(vector::qword(value@, 1)),
        r@[23] == wire::code(vector::qword(value@, 2)),
        r@[31] == wire::code(vector::qword(value@, 3)),
{
    // turn each byte into a 0 or 1 based on it being nonzero
    let ones: Vector = Vector::set1_epi8(1);
    let mins: Vector = value.min_epu8(&ones);

    // collect those bits into the high byte of each 32 bit part
    // the multiply acts like a multi-bit shift
    let low_shifter: u32 = 1 | 1 << 9 | 1 << 18;
    let high_shifter: u32 = 1 | 1 << 9 | 1 << 18 | 1 << 27;
    assert(1u32 | 1u32 << 9 | 1u32 << 18 == 0x40201) by (bit_vector);
    assert(1u32 | 1u32 << 9 | 1u32 << 18 | 1u32 << 27 == 0x8040201) by (bit_vector);
    let shifts: Vector = Vector::setr_epi32(
        [
            low_shifter,
            high_shifter,
            low_shifter,
            high_shifter,
            low_shifter,
            high_shifter,
            low_shifter,
            high_shifter,
        ],
    );
    let bytemaps: Vector = mins.mullo_epi32(&shifts);

    // use that as the mask vector to select the lane code
    // first the low half
    let low_lane_codes: Vector = Vector::setr_epi8(
        [
            0, 3, 2, 3, 1, 3, 2, 3, 255, 255, 255, 255, 255, 255, 255, 255,
            0, 3, 2, 3, 1, 3, 2, 3, 255, 255, 255, 255, 255, 255, 255, 255,
        ],
    );
    let low_shuffled_codes: Vector = low_lane_codes.shuffle_epi8(&bytemaps);
    let low_shifted_codes: Vector = low_shuffled_codes.slli_epi64(32);

    // now the high half
    let high_lane_codes: Vector = Vector::setr_epi8(
        [
            0, 7, 6, 7, 5, 7, 6, 7, 4, 7, 6, 7, 5, 7, 6, 7,
            0, 7, 6, 7, 5, 7, 6, 7, 4, 7, 6, 7, 5, 7, 6, 7,
        ],
    );
    let high_shuffled_codes: Vector = high_lane_codes.shuffle_epi8(&bytemaps);

    // overlay and take the max of the low and high codes
    let r: Vector = low_shifted_codes.max_epu8(&high_shuffled_codes);

    proof {
        assert forall|k: int| 0 <= k < 4 implies r@[8 * k + 7] == #[trigger] wire::code(
            vector::qword(value@, k),
        ) by {
            let v: Seq<u8> = value@;
            let m: Seq<u8> = mins@;
            let b: Seq<u8> = bytemaps@;
            assert(vector::dword(shifts@, 2 * k) == 0x40201);
            assert(vector::dword(shifts@, 2 * k + 1) == 0x8040201);
            assert(vector::dword(b, 2 * k) == vector::dword(m, 2 * k).wrapping_mul(0x40201));
            assert(vector::dword(b, 2 * k + 1) == vector::dword(m, 2 * k + 1).wrapping_mul(
                0x8040201,
            ));
            lemma_low_map(
                m[8 * k],
                m[8 * k + 1],
                m[8 * k + 2],
                m[8 * k + 3],
                b[8 * k],
                b[8 * k + 1],
                b[8 * k + 2],
                b[8 * k + 3],
            );
            lemma_high_map(
                m[8 * k + 4],
                m[8 * k + 5],
                m[8 * k + 6],
                m[8 * k + 7],
                b[8 * k + 4],
                b[8 * k + 5],
                b[8 * k + 6],
                b[8 * k + 7],
            );
            lemma_shift_32(low_shuffled_codes@, low_shifted_codes@, k);
            lemma_qword_bytes(v, k);
            let lane: int = 16 * (k / 2);
            assert(low_shuffled_codes@[8 * k + 3] == low_lane_codes@[lane + b[8 * k + 3]]);
            assert(high_shuffled_codes@[8 * k + 7] == high_lane_codes@[lane + b[8 * k + 7]]);
        }
    }
    r
}

/// Or with zero changes nothing.
proof fn lemma_or_zero()
    ensures
        forall|x: u8| #[trigger] (x | 0u8) == x,
        forall|x: u8| #[trigger] (0u8 | x) == x,
{
    assert forall|x: u8| #[trigger] (x | 0u8) == x by {
        assert(x | 0 == x) by (bit_vector);
    }
    assert forall|x: u8| #[trigger] (0u8 | x) == x by {
        assert(0 | x == x) by (bit_vector);
    }
}

/// The two multiplications that concatenate length codes and the one that adds
/// them up.
proof fn lemma_aggregate(c0: u8, c1: u8, c2: u8, c3: u8, r: Seq<u8>)
    requires
        c0 <= 7,
        c1 <= 7,
        c2 <= 7,
        c3 <= 7,
        vector::dword(r, 0) == vector::join4(c2, c1, c0, 0u8).wrapping_mul(0x40080100),
        vector::dword(r, 1) == vector::join4(0u8, c3, c2, 0u8).wrapping_mul(0x20040),
        vector::dword(r, 2) == vector::join4(c3, c2, c1, c0).wrapping_mul(0x1010101),
    ensures
        r[11] == c0 + c1 + c2 + c3,
        (r[3] as u32) | (((r[7] & 0xf) as u32) << 8) == c0 + 8 * c1 + 64 * c2 + 512 * c3,
{
    let (a0, a1, a2, a3) = (r[0], r[1], r[2], r[3]);
    let (a4, a5, a6, a7) = (r[4], r[5], r[6], r[7]);
    let (a8, a9, a10, a11) = (r[8], r[9], r[10], r[11]);
    let x0: u32 = vector::join4(c2, c1, c0, 0);
    let x1: u32 = vector::join4(0, c3, c2, 0);
    let x2: u32 = vector::join4(c3, c2, c1, c0);
    let y0: u32 = vector::dword(r, 0);
    let y1: u32 = vector::dword(r, 1);
    let y2: u32 = vector::dword(r, 2);
    assert(a11 == c0 + c1 + c2 + c3) by (bit_vector)
        requires
            c0 <= 7,
            c1 <= 7,
            c2 <= 7,
            c3 <= 7,
            x2 == vector::join4(c3, c2, c1, c0),
            y2 == vector::join4(a8, a9, a10, a11),
            y2 == (x2 * 0x1010101u32) % 0x1_0000_0000,
    ;
    assert(a3 == c0 + 8 * c1 + 64 * (c2 & 3)) by (bit_vector)
        requires
            c0 <= 7,
            c1 <= 7,
            c2 <= 7,
            x0 == (c2 as u32) | (c1 as u32) << 8 | (c0 as u32) << 16 | 0u32 << 24,
            y0 == vector::join4(a0, a1, a2, a3),
            y0 == (x0 * 0x40080100u32) % 0x1_0000_0000,
    ;
    assert(a7 == (c2 >> 2) + 2 * c3) by (bit_vector)
        requires
            c2 <= 7,
            c3 <= 7,
            x1 == 0u32 | (c3 as u32) << 8 | (c2 as u32) << 16 | 0u32 << 24,
            y1 == vector::join4(a4, a5, a6, a7),
            y1 == (x1 * 0x20040u32) % 0x1_0000_0000,
    ;
    assert((a3 as u32) | (((a7 & 0xf) as u32) << 8) == c0 + 8 * c1 + 64 * c2 + 512 * c3)
        by (bit_vector)
        requires
            c0 <= 7,
            c1 <= 7,
            c2 <= 7,
            c3 <= 7,
            a3 == c0 + 8 * c1 + 64 * (c2 & 3),
            a7 == (c2 >> 2) + 2 * c3,
    ;
}

/// The code and the length of a block, from the length codes of its values.
fn code_and_length(lane_codes: &Vector) -> (r: (u32, usize))
    requires
        lane_codes@[7] <= 7,
        lane_codes@[15] <= 7,
        lane_codes@[23] <= 7,
        lane_codes@[31] <= 7,
    ensures
        r.0 == lane_codes@[7] + 8 * lane_codes@[15] + 64 * lane_codes@[23] + 512 * lane_codes@[31],
        r.1 == lane_codes@[7] + lane_codes@[15] + lane_codes@[23] + lane_codes@[31] + 4,
{
    // now gather three copies of the lane codes from each lane
    let gather_high: Vector = Vector::setr_epi8(
        [
            255, 15, 7, 255, 255, 255, 255, 255, 255, 255, 15, 7, 255, 255, 255, 255,
            7, 255, 255, 255, 255, 15, 7, 255, 15, 7, 255, 255, 255, 255, 255, 255,
        ],
    );
    let shuffled_codes: Vector = lane_codes.shuffle_epi8(&gather_high);
    let permuted: Vector = shuffled_codes.permute4x64_epi64(0b00001110);
    let high_bytes: Vector = shuffled_codes.or_si256(&permuted);

    // we're going to concatenate and sum the lane codes at the same time
    let concat_low: u32 = 1 << 8 | 1 << 19 | 1 << 30;
    let concat_high: u32 = 1 << 6 | 1 << 17;
    let sum: u32 = 1 | 1 << 8 | 1 << 16 | 1 << 24;
    assert(1u32 << 8 | 1u32 << 19 | 1u32 << 30 == 0x40080100) by (bit_vector);
    assert(1u32 << 6 | 1u32 << 17 == 0x20040) by (bit_vector);
    assert(1u32 | 1u32 << 8 | 1u32 << 16 | 1u32 << 24 == 0x1010101) by (bit_vector);
    let aggregators: Vector = Vector::setr_epi32([concat_low, concat_high, sum, 0, 0, 0, 0, 0]);

    let code_and_length: Vector = high_bytes.mullo_epi32(&aggregators);

    let code_low: u8 = code_and_length.extract_epi8(3);
    let code_high: u8 = code_and_length.extract_epi8(7) & 0xf;
    let code: u32 = (code_low as u32) | ((code_high as u32) << 8);
    proof {
        let c: Seq<u8> = lane_codes@;
        let h: Seq<u8> = high_bytes@;
        lemma_or_zero();
        assert(h[0] == c[23] && h[1] == c[15] && h[2] == c[7] && h[3] == 0);
        assert(h[4] == 0 && h[5] == c[31] && h[6] == c[23] && h[7] == 0);
        assert(h[8] == c[31] && h[9] == c[23] && h[10] == c[15] && h[11] == c[7]);
        assert(vector::dword(aggregators@, 0) == concat_low);
        assert(vector::dword(aggregators@, 1) == concat_high);
        assert(vector::dword(aggregators@, 2) == sum);
        lemma_aggregate(c[7], c[15], c[23], c[31], code_and_length@);
    }
    let length: usize = code_and_length.extract_epi8(11) as usize + 4;
    (code, length)
}

/// The four values that the bytes `s` of a vector hold.
pub open spec fn lanes(s: Seq<u8>) -> Seq<u64> {
    Seq::new(4, |k: int| vector::qword(s, k))
}

/// The twelve-bit code of a block of four values.
pub open spec fn block_code(values: Seq<u64>) -> nat {
    wire::code(values[0]) + 8 * wire::code(values[1]) + 64 * wire::code(values[2]) + 512
        * wire::code(values[3])
}

/// `s` filled up with zeros to 32 bytes.
pub open spec fn padded(s: Seq<u8>) -> Seq<u8> {
    Seq::new(
        32,
        |p: int|
            if p < s.len() {
                s[p]
            } else {
                0u8
            },
    )
}

/// The encoding of four values.
proof fn lemma_four_values(v: Seq<u64>)
    requires
        v.len() == 4,
    ensures
        wire::data_bytes(v) == wire::le_bytes(v[0] as nat) + wire::le_bytes(v[1] as nat)
            + wire::le_bytes(v[2] as nat) + wire::le_bytes(v[3] as nat),
{
    let v3: Seq<u64> = v.drop_last();
    let v2: Seq<u64> = v3.drop_last();
    let v1: Seq<u64> = v2.drop_last();
    assert(wire::data_bytes(v1.drop_last()) =~= seq![]);
    assert(wire::data_bytes(v1) =~= wire::le_bytes(v[0] as nat));
    assert(wire::data_bytes(v2) == wire::data_bytes(v1) + wire::le_bytes(v[1] as nat));
    assert(wire::data_bytes(v3) == wire::data_bytes(v2) + wire::le_bytes(v[2] as nat));
}

/// The base-8 digits of a number of four digits.
proof fn lemma_four_digits(c0: nat, c1: nat, c2: nat, c3: nat, w: nat)
    requires
        c0 <= 7,
        c1 <= 7,
        c2 <= 7,
        c3 <= 7,
        w == c0 + 8 * c1 + 64 * c2 + 512 * c3,
    ensures
        w % 8 == c0,
        w / 8 % 8 == c1,
        w / 64 % 8 == c2,
        w / 512 % 8 == c3,
{
    assert(w / 8 == c1 + 8 * c2 + 64 * c3);
    assert(w / 64 == c2 + 8 * c3);
    assert(w / 512 == c3);
}

/// Where the values of a block begin, by their length codes.
proof fn lemma_block_starts(v: Seq<u64>)
    ensures
        tables::start(block_code(v), 0) == 0,
        tables::start(block_code(v), 1) == wire::code(v[0]) + 1,
        tables::start(block_code(v), 2) == wire::code(v[0]) + wire::code(v[1]) + 2,
        tables::start(block_code(v), 3) == wire::code(v[0]) + wire::code(v[1]) + wire::code(v[2])
            + 3,
        tables::start(block_code(v), 4) == wire::code(v[0]) + wire::code(v[1]) + wire::code(v[2])
            + wire::code(v[3]) + 4,
        wire::code(v[0]) <= 7,
        wire::code(v[1]) <= 7,
        wire::code(v[2]) <= 7,
        wire::code(v[3]) <= 7,
        block_code(v) < 4096,
{
    wire::lemma_code_range(v[0]);
    wire::lemma_code_range(v[1]);
    wire::lemma_code_range(v[2]);
    wire::lemma_code_range(v[3]);
    lemma_four_digits(
        wire::code(v[0]),
        wire::code(v[1]),
        wire::code(v[2]),
        wire::code(v[3]),
        block_code(v),
    );
    tables::lemma_starts(block_code(v));
}

/// Where the bytes of an encoded block come from.
proof fn lemma_block_bytes(s: Seq<u8>, s1: int, s2: int, s3: int, s4: int)
    requires
        s.len() == 32,
        s1 == tables::start(block_code(lanes(s)), 1),
        s2 == tables::start(block_code(lanes(s)), 2),
        s3 == tables::start(block_code(lanes(s)), 3),
        s4 == tables::start(block_code(lanes(s)), 4),
    ensures
        wire::data_bytes(lanes(s)).len() == s4,
        forall|p: int|
            0 <= p < s4 ==> #[trigger] wire::data_bytes(lanes(s))[p] == (if p < s1 {
                s[p]
            } else if p < s2 {
                s[8 + p - s1]
            } else if p < s3 {
                s[16 + p - s2]
            } else {
                s[24 + p - s3]
            }),
{
    let v: Seq<u64> = lanes(s);
    lemma_four_values(v);
    lemma_block_starts(v);
    lemma_qword_bytes(s, 0);
    lemma_qword_bytes(s, 1);
    lemma_qword_bytes(s, 2);
    lemma_qword_bytes(s, 3);
    let (t0, t1, t2, t3) = (top_byte(s, 0), top_byte(s, 1), top_byte(s, 2), top_byte(s, 3));
    let a: Seq<u8> = s.subrange(0, t0 + 1);
    let b: Seq<u8> = s.subrange(8, 8 + t1 + 1);
    let c: Seq<u8> = s.subrange(16, 16 + t2 + 1);
    let d: Seq<u8> = s.subrange(24, 24 + t3 + 1);
    assert(wire::data_bytes(v) == a + b + c + d);
}

/// The byte of the low lane `v` that the shuffle byte `m` picks.
spec fn pick_low(v: Seq<u8>, m: u8) -> u8 {
    if m >= 128 {
        0
    } else {
        v[m as int % 16]
    }
}

/// The byte of the high lane of `v` that the shuffle byte `m` picks.
spec fn pick_high(v: Seq<u8>, m: u8) -> u8 {
    if m >= 128 {
        0
    } else {
        v[16 + m as int % 16]
    }
}

/// What the shuffles for index `p` pick from the two lanes.
proof fn lemma_picks(v: Seq<u8>, c: nat, p: int, s1: int, s2: int, s3: int, s4: int)
    requires
        0 <= p < 32,
        0 == tables::start(c, 0),
        s1 == tables::start(c, 1),
        s2 == tables::start(c, 2),
        s3 == tables::start(c, 3),
        s4 == tables::start(c, 4),
        0 < s1 <= 8,
        s1 < s2 <= s1 + 8,
        s2 < s3 <= s2 + 8,
        s3 < s4 <= s3 + 8,
    ensures
        pick_low(v, tables::encode_source(c, 0, p)) == (if p < s1 {
            v[p]
        } else if p < s2 {
            v[8 + p - s1]
        } else {
            0
        }),
        pick_high(v, tables::encode_source(c, 2, p)) == (if p < s2 {
            0
        } else if p < s3 {
            v[16 + p - s2]
        } else if p < s4 {
            v[24 + p - s3]
        } else {
            0
        }),
{
}

/// The byte that the two shuffles of a block bring to index `p`.
proof fn lemma_compact_byte(v: Seq<u8>, c: nat, p: int)
    requires
        v.len() == 32,
        c == block_code(lanes(v)),
        0 <= p < 32,
    ensures
        p < 16 ==> pick_low(v, tables::encode_source(c, 0, p)) | pick_high(
            v,
            tables::encode_source(c, 2, p),
        ) == padded(wire::data_bytes(lanes(v)))[p],
        p >= 16 ==> pick_high(v, tables::encode_source(c, 2, p)) == padded(
            wire::data_bytes(lanes(v)),
        )[p],
{
    let (s1, s2) = (tables::start(c, 1) as int, tables::start(c, 2) as int);
    let (s3, s4) = (tables::start(c, 3) as int, tables::start(c, 4) as int);
    lemma_block_bytes(v, s1, s2, s3, s4);
    lemma_block_starts(lanes(v));
    lemma_picks(v, c, p, s1, s2, s3, s4);
    lemma_or_zero();
}

/// The bytes of the four values, one after the other, by the code of the block.
fn compact(value: &Vector, code: u32) -> (r: Vector)
    requires
        code == block_code(lanes(value@)),
    ensures
        r@ == padded(wire::data_bytes(lanes(value@))),
{
    proof {
        lemma_block_starts(lanes(value@));
    }
    let shuffle1: Vector = tables::encode_shuffle_1(code);
    let data1: Vector = value.shuffle_epi8(&shuffle1);

    let shuffle2: Vector = tables::encode_shuffle_2(code);
    let shuffled2: Vector = value.shuffle_epi8(&shuffle2);
    let data2: Vector = shuffled2.permute4x64_epi64(0b00001110);

    let data: Vector = data1.or_si256(&data2);
    proof {
        let c: nat = code as nat;
        let v: Seq<u8> = value@;
        lemma_or_zero();
        assert forall|p: int| 0 <= p < 32 implies #[trigger] data@[p] == padded(
            wire::data_bytes(lanes(v)),
        )[p] by {
            lemma_compact_byte(v, c, p);
            if p < 16 {
                assert(data2@[p] == shuffled2@[16 + p]);
                assert(shuffle2@[16 + p] == tables::encode_source(c, 2, p));
                assert(shuffle1@[p] == tables::encode_source(c, 0, p));
                assert(data1@[p] == pick_low(v, shuffle1@[p]));
                assert(data2@[p] == pick_high(v, shuffle2@[16 + p]));
            } else {
                assert(data2@[p] == shuffled2@[p % 8]);
                assert(shuffle2@[p % 8] == 255);
                assert(shuffle1@[p] == tables::encode_source(c, 2, p));
                assert(data1@[p] == pick_high(v, shuffle1@[p]));
            }
        }
        assert(data@ =~= padded(wire::data_bytes(lanes(v))));
    }
    data
}

/// Writes the encoding of the four values of `value` to `out` at `pos`, filled up
/// with zeros to 32 bytes, moves `pos` behind the encoding and returns the code
/// of the block.
pub fn encode_block_avx(out: &mut [u8], pos: &mut usize, value: &Vector) -> (code: u32)
    requires
        *old(pos) + 32 <= old(out).len(),
    ensures
        code == block_code(lanes(value@)),
        *final(pos) == *old(pos) + wire::data_bytes(lanes(value@)).len(),
        final(out)@ == wire::splice(
            old(out)@,
            *old(pos) as int,
            padded(wire::data_bytes(lanes(value@))),
        ),
{
    proof {
        let c: nat = block_code(lanes(value@));
        lemma_block_bytes(
            value@,
            tables::start(c, 1) as int,
            tables::start(c, 2) as int,
            tables::start(c, 3) as int,
            tables::start(c, 4) as int,
        );
        lemma_block_starts(lanes(value@));
    }
    let codes: Vector = lane_codes(value);
    let (code, length) = code_and_length(&codes);
    let data: Vector = compact(value, code);
    data.storeu_bytes(out, *pos);
    *pos = *pos + length;
    code
}

/// Byte `q` of the four values of a block with code `c` whose bytes are `d`.
spec fn value_byte(d: Seq<u8>, c: nat, q: int) -> u8 {
    if tables::decode_source(c, q) >= 0 {
        d[tables::decode_source(c, q)]
    } else {
        0
    }
}

/// The bytes of the two low values lie in the low half of a block.
proof fn lemma_source_range(c: nat, q: int)
    requires
        0 <= q < 32,
    ensures
        tables::decode_source(c, q) < 32,
        q < 16 ==> tables::decode_source(c, q) < 16,
{
    tables::lemma_starts(c);
    let k: int = q / 8;
    assert(k == 0 || k == 1 || k == 2 || k == 3);
}

/// The byte that the two shuffles of a block bring to index `q`.
proof fn lemma_expand_byte(d: Seq<u8>, c: nat, q: int)
    requires
        0 <= q < 32,
    ensures
        q < 16 ==> pick_low(d, tables::decode_pick_1(c, q)) == value_byte(d, c, q),
        q >= 16 ==> pick_high(d, tables::decode_pick_1(c, q)) | pick_low(
            d,
            tables::decode_pick_2(c, q - 16),
        ) == value_byte(d, c, q),
{
    lemma_source_range(c, q);
    lemma_or_zero();
    let p: int = tables::decode_source(c, q);
    let first: u8 = tables::decode_pick_1(c, q);
    let second: u8 = tables::decode_pick_2(c, q - 16);
    if q >= 16 {
        assert(tables::decode_source(c, 16 + (q - 16)) == p);
        if p >= 16 {
            assert(first == p - 16 && second == 255);
        } else if p >= 0 {
            assert(first == 255 && second == p);
        } else {
            assert(first == 255 && second == 255);
        }
    }
}

/// The four values, from the bytes of a block and its code.
fn expand(data: &Vector, code: u32) -> (r: Vector)
    requires
        code < 4096,
    ensures
        forall|q: int| 0 <= q < 32 ==> #[trigger] r@[q] == value_byte(data@, code as nat, q),
{
    let shuffle1: Vector = tables::decode_shuffle_1(code);
    let data1: Vector = data.shuffle_epi8(&shuffle1);

    let shuffle2: Vector = tables::decode_shuffle_2(code);
    let shuffled2: Vector = data.shuffle_epi8(&shuffle2);
    let data2: Vector = shuffled2.permute4x64_epi64(0b01001111);

    let r: Vector = data1.or_si256(&data2);
    proof {
        let c: nat = code as nat;
        let d: Seq<u8> = data@;
        lemma_or_zero();
        assert forall|q: int| 0 <= q < 32 implies #[trigger] r@[q] == value_byte(d, c, q) by {
            lemma_expand_byte(d, c, q);
            if q < 16 {
                assert(data1@[q] == pick_low(d, shuffle1@[q]));
                assert(data2@[q] == shuffled2@[24 + q % 8]);
                assert(shuffle2@[24 + q % 8] == 255);
            } else {
                assert(data1@[q] == pick_high(d, shuffle1@[q]));
                assert(data2@[q] == shuffled2@[q - 16]);
                assert(shuffled2@[q - 16] == pick_low(d, shuffle2@[q - 16]));
            }
        }
    }
    r
}

/// The value `k` of a block with code `c` whose bytes are `d`.
proof fn lemma_block_value(r: Seq<u8>, d: Seq<u8>, c: nat, k: int)
    requires
        r.len() == 32,
        d.len() == 32,
        0 <= k < 4,
        forall|q: int| 0 <= q < 32 ==> #[trigger] r[q] == value_byte(d, c, q),
    ensures
        tables::start(c, k as nat) <= tables::start(c, (k + 1) as nat) <= 32,
        vector::qword(r, k) == wire::le_value(
            d.subrange(tables::start(c, k as nat) as int, tables::start(c, (k + 1) as nat) as int),
        ),
{
    let s: Seq<u8> = r.subrange(8 * k, 8 * k + 8);
    let n: nat = wire::digit(c, k as nat) + 1;
    let from: int = tables::start(c, k as nat) as int;
    assert(n <= 8 && from + n <= 32) by {
        tables::lemma_starts(c);
        assert(k == 0 || k == 1 || k == 2 || k == 3);
    }
    assert(tables::start(c, (k + 1) as nat) == from + n);
    assert forall|j: int| 0 <= j < 8 implies #[trigger] s[j] == (if j < n {
        d[from + j]
    } else {
        0
    }) by {
        assert(s[j] == r[8 * k + j]);
        assert((8 * k + j) / 8 == k && (8 * k + j) % 8 == j);
    }
    lemma_qword_value(r, k);
    wire::lemma_le_value_padded(s, n);
    assert(s.take(n as int) =~= d.subrange(from, from + n));
}

/// Reads the four values of a block with this `code` from `data` at `pos`, and
/// moves `pos` behind it.
pub fn decode_block_avx(data: &[u8], pos: &mut usize, code: u32) -> (r: Vector)
    requires
        code < 4096,
        *old(pos) + 32 <= data.len(),
    ensures
        *final(pos) == *old(pos) + tables::start(code as nat, 4),
        forall|k: int|
            0 <= k < 4 ==> #[trigger] vector::qword(r@, k) == wire::le_value(
                data@.subrange(
                    *old(pos) + tables::start(code as nat, k as nat),
                    *old(pos) + tables::start(code as nat, (k + 1) as nat),
                ),
            ),
{
    let len: u8 = tables::length(code);
    let block: Vector = Vector::loadu_bytes(data, *pos);
    let r: Vector = expand(&block, code);
    proof {
        let at: int = *pos as int;
        let c: nat = code as nat;
        assert forall|k: int| 0 <= k < 4 implies #[trigger] vector::qword(r@, k) == wire::le_value(
            data@.subrange(
                at + tables::start(c, k as nat),
                at + tables::start(c, (k + 1) as nat),
            ),
        ) by {
            lemma_block_value(r@, block@, c, k);
            let from: int = tables::start(c, k as nat) as int;
            let to: int = tables::start(c, (k + 1) as nat) as int;
            assert(block@.subrange(from, to) =~= data@.subrange(at + from, at + to));
        }
    }
    *pos = *pos + len as usize;
    r
}

/// Behind which index the last full vector ends that is written for `values`, 0 if
/// none is.
pub open spec fn store_end(values: Seq<u64>) -> nat {
    if values.len() < 8 {
        0
    } else {
        wire::data_bytes(values.take(8 * (values.len() as int / 8) - 4)).len() + 32
    }
}

/// `s` with zeros in front of the index `end`.
pub open spec fn zeroed(s: Seq<u8>, end: nat) -> Seq<u8> {
    Seq::new(
        s.len(),
        |i: int|
            if i < end {
                0u8
            } else {
                s[i]
            },
    )
}

/// A block that is written behind an encoding extends it.
proof fn lemma_append_block(s: Seq<u8>, end: nat, e: Seq<u8>, d: Seq<u8>)
    requires
        end <= e.len() + 32 <= s.len(),
        d.len() <= 32,
    ensures
        wire::splice(wire::splice(zeroed(s, end), 0, e), e.len() as int, padded(d)) == wire::splice(
            zeroed(s, e.len() + 32),
            0,
            e + d,
        ),
{
    assert(wire::splice(wire::splice(zeroed(s, end), 0, e), e.len() as int, padded(d))
        =~= wire::splice(zeroed(s, e.len() + 32), 0, e + d));
}

/// The encoding of the first `i + 4` values is that of the first `i` and that of a
/// block.
proof fn lemma_data_bytes_block(values: Seq<u64>, i: int, block: Seq<u8>)
    requires
        0 <= i,
        i + 4 <= values.len(),
        forall|k: int| 0 <= k < 4 ==> #[trigger] vector::qword(block, k) == values[i + k],
    ensures
        wire::data_bytes(values.take(i + 4)) == wire::data_bytes(values.take(i))
            + wire::data_bytes(lanes(block)),
        block_code(lanes(block)) == wire::code(values[i]) + 8 * wire::code(values[i + 1]) + 64
            * wire::code(values[i + 2]) + 512 * wire::code(values[i + 3]),
        block_code(lanes(block)) < 4096,
        wire::data_bytes(lanes(block)).len() <= 32,
{
    assert(lanes(block) =~= values.subrange(i, i + 4));
    assert(values.take(i + 4) =~= values.take(i) + values.subrange(i, i + 4));
    wire::lemma_data_bytes_split(values.take(i), values.subrange(i, i + 4));
    lemma_block_starts(lanes(block));
    lemma_four_values(lanes(block));
    wire::lemma_code_range(lanes(block)[0]);
    wire::lemma_code_range(lanes(block)[1]);
    wire::lemma_code_range(lanes(block)[2]);
    wire::lemma_code_range(lanes(block)[3]);
}

/// Where the vectors that are written for the group of eight values at index `i`
/// end.
proof fn lemma_store_end(values: Seq<u64>, i: int)
    requires
        0 <= i,
        i % 8 == 0,
        i + 8 <= values.len(),
    ensures
        store_end(values.take(i)) <= wire::data_bytes(values.take(i)).len() + 32,
        store_end(values.take(i + 8)) == wire::data_bytes(values.take(i + 4)).len() + 32,
        wire::data_bytes(values.take(i)).len() <= wire::data_bytes(values.take(i + 4)).len(),
        wire::data_bytes(values.take(i + 4)).len() + 32 <= store_end(values),
{
    let m: int = 8 * (values.len() as int / 8) - 4;
    wire::lemma_data_bytes_monotonic(values, i, i + 4);
    wire::lemma_data_bytes_monotonic(values, i + 4, m);
    if i > 0 {
        wire::lemma_data_bytes_monotonic(values, i - 4, i);
        assert(values.take(i).take(i - 4) =~= values.take(i - 4));
    }
    assert(values.take(i + 8).take(i + 4) =~= values.take(i + 4));
}

/// Encodes the eight values of `input` at index `at` behind the `datapos` data
/// bytes that hold the values in front of them. Returns their key word.
fn encode_group(
    input: &[u64],
    at: usize,
    data: &mut [u8],
    datapos: &mut usize,
    Ghost(old_data): Ghost<Seq<u8>>,
) -> (key: u32)
    requires
        at % 8 == 0,
        at + 8 <= input.len(),
        store_end(input@) <= old(data).len(),
        old_data.len() == old(data).len(),
        *old(datapos) == wire::data_bytes(input@.take(at as int)).len(),
        old(data)@ == wire::splice(
            zeroed(old_data, store_end(input@.take(at as int))),
            0,
            wire::data_bytes(input@.take(at as int)),
        ),
    ensures
        key == wire::key_word(input@, at as int / 8),
        *final(datapos) == wire::data_bytes(input@.take(at + 8)).len(),
        final(data)@ == wire::splice(
            zeroed(old_data, store_end(input@.take(at + 8))),
            0,
            wire::data_bytes(input@.take(at + 8)),
        ),
        final(data)@.len() == old(data)@.len(),
{
    let ghost values: Seq<u64> = input@;
    let ghost e0: Seq<u8> = wire::data_bytes(values.take(at as int));
    let ghost e1: Seq<u8> = wire::data_bytes(values.take(at + 4));
    let ghost e2: Seq<u8> = wire::data_bytes(values.take(at + 8));
    let ghost end0: nat = store_end(values.take(at as int));
    proof {
        lemma_store_end(values, at as int);
    }

    let low: Vector = Vector::loadu_values(input, at);
    proof {
        lemma_data_bytes_block(values, at as int, low@);
        lemma_append_block(old_data, end0, e0, wire::data_bytes(lanes(low@)));
    }
    let code_low: u32 = encode_block_avx(data, datapos, &low);

    let high: Vector = Vector::loadu_values(input, at + 4);
    proof {
        lemma_data_bytes_block(values, at + 4, high@);
        lemma_append_block(old_data, e0.len() + 32, e1, wire::data_bytes(lanes(high@)));
    }
    let code_high: u32 = encode_block_avx(data, datapos, &high);

    let key: u32 = code_low | (code_high << 12);
    proof {
        assert(key == code_low + 4096 * code_high) by (bit_vector)
            requires
                code_low < 4096,
                code_high < 4096,
                key == code_low | (code_high << 12),
        ;
        reveal(wire::key_word);
    }
    key
}

/// What was written in front stands in front, and the rest behind it.
proof fn lemma_front(s: Seq<u8>, e: Seq<u8>)
    requires
        e.len() <= s.len(),
    ensures
        wire::splice(s, 0, e).len() == s.len(),
        wire::splice(s, 0, e).subrange(0, e.len() as int) == e,
        forall|b: int| e.len() <= b < s.len() ==> #[trigger] wire::splice(s, 0, e)[b] == s[b],
{
    assert(wire::splice(s, 0, e).subrange(0, e.len() as int) =~= e);
}

/// Writes the same key bytes and data bytes as `encode_scalar`, a block of four
/// values at a time as far as the values make up whole groups of eight. The
/// vectors that are written reach past the data bytes, and leave zeros there.
pub fn encode_avx(input: &[u64], keys: &mut [u8], data: &mut [u8]) -> (written: usize)
    requires
        wire::key_len(input@.len()) <= old(keys).len(),
        wire::data_bytes(input@).len() <= old(data).len(),
        store_end(input@) <= old(data).len(),
    ensures
        written == wire::data_bytes(input@).len(),
        final(keys)@ == wire::splice(old(keys)@, 0, wire::key_bytes(input@)),
        final(data)@ == wire::splice(
            zeroed(old(data)@, store_end(input@)),
            0,
            wire::data_bytes(input@),
        ),
        final(keys)@.len() == old(keys)@.len(),
        final(data)@.len() == old(data)@.len(),
        final(keys)@.subrange(0, wire::key_len(input@.len()) as int) == wire::key_bytes(input@),
        final(data)@.subrange(0, written as int) == wire::data_bytes(input@),
        forall|b: int|
            wire::key_len(input@.len()) <= b < old(keys)@.len() ==> #[trigger] final(keys)@[b]
                == old(keys)@[b],
        forall|b: int|
            written <= b < old(data)@.len() ==> #[trigger] final(data)@[b] == (if b < store_end(
                input@,
            ) {
                0
            } else {
                old(data)@[b]
            }),
{
    let ghost values: Seq<u64> = input@;
    let ghost old_keys: Seq<u8> = keys@;
    let ghost old_data: Seq<u8> = data@;
    let mut datapos: usize = 0;

    let count: usize = input.len() / 8;
    let mut i: usize = 0;
    proof {
        assert(values.take(0) =~= seq![]);
        assert(keys@ =~= wire::splice(old_keys, 0, wire::key_bytes(values.take(0))));
        assert(data@ =~= wire::splice(
            zeroed(old_data, store_end(values.take(0))),
            0,
            wire::data_bytes(values.take(0)),
        ));
    }
    while i < count
        invariant
            values == input@,
            i <= count,
            8 * count <= input.len(),
            wire::key_len(values.len()) <= keys.len(),
            keys@.len() == old_keys.len(),
            keys@ == wire::splice(old_keys, 0, wire::key_bytes(values.take(8 * i))),
            store_end(values) <= data.len(),
            data@.len() == old_data.len(),
            datapos == wire::data_bytes(values.take(8 * i)).len(),
            data@ == wire::splice(
                zeroed(old_data, store_end(values.take(8 * i))),
                0,
                wire::data_bytes(values.take(8 * i)),
            ),
        decreases count - i,
    {
        let code: u32 = encode_group(input, 8 * i, data, &mut datapos, Ghost(old_data));
        proof {
            wire::lemma_key_bytes_step(old_keys, values, i as int);
        }
        write_key(code, keys, 3 * i);
        i = i + 1;
    }

    let (_, tail_values) = input.split_at(8 * count);
    let (_, tail_keys) = keys.split_at_mut(3 * count);
    let (_, tail_data) = data.split_at_mut(datapos);
    proof {
        assert(tail_values@ =~= values.skip(8 * count));
        assert(values =~= values.take(8 * count) + tail_values@);
        wire::lemma_data_bytes_split(values.take(8 * count), tail_values@);
        wire::lemma_key_bytes_split(values, count as int);
        assert(store_end(values.take(8 * count)) == store_end(values)) by {
            if count > 0 {
                assert(values.take(8 * count).take(8 * count - 4) =~= values.take(8 * count - 4));
            }
        }
        wire::lemma_splice_behind(
            old_keys,
            wire::key_bytes(values.take(8 * count)),
            wire::key_bytes(tail_values@),
        );
        wire::lemma_splice_behind(
            zeroed(old_data, store_end(values)),
            wire::data_bytes(values.take(8 * count)),
            wire::data_bytes(tail_values@),
        );
        lemma_front(old_keys, wire::key_bytes(values));
        lemma_front(zeroed(old_data, store_end(values)), wire::data_bytes(values));
    }
    encode_scalar(tail_values, tail_keys, tail_data) + datapos
}

/// Reads the block of the four values at index `first`, whose code is `code`, into
/// `output`.
fn decode_step(
    output: &mut [u64],
    first: usize,
    keys: &[u8],
    data: &[u8],
    datapos: &mut usize,
    code: u32,
)
    requires
        code < 4096,
        first + 4 <= old(output).len(),
        forall|t: nat|
            t < 4 ==> #[trigger] wire::digit(code as nat, t) == wire::code_at(
                keys@,
                (first + t) as int,
            ),
        *old(datapos) == wire::offset(keys@, first as nat),
        *old(datapos) + 32 <= data.len(),
    ensures
        *final(datapos) == wire::offset(keys@, (first + 4) as nat),
        final(output)@.len() == old(output)@.len(),
        forall|t: int|
            0 <= t < final(output)@.len() ==> #[trigger] final(output)@[t] == (if first <= t
                < first + 4 {
                wire::value_at(keys@, data@, t)
            } else {
                old(output)@[t]
            }),
{
    let ghost at: int = *datapos as int;
    let values: Vector = decode_block_avx(data, datapos, code);
    values.storeu_values(output, first);
    proof {
        let c: nat = code as nat;
        tables::lemma_block_offsets(keys@, first as nat, c, 4);
        assert forall|k: int| 0 <= k < 4 implies #[trigger] vector::qword(values@, k)
            == wire::value_at(keys@, data@, first + k) by {
            tables::lemma_block_offsets(keys@, first as nat, c, k as nat);
            tables::lemma_block_offsets(keys@, first as nat, c, (k + 1) as nat);
        }
    }
}

/// Fills `output` like `decode_scalar`, a block of four values at a time as long as
/// at least 64 values are left.
///
/// A block is read as a full vector of 32 bytes, which may reach past its own. 64
/// values take at least 64 bytes, so what is read lies in `data`.
pub fn decode_avx(output: &mut [u64], keys: &[u8], data: &[u8]) -> (read: usize)
    requires
        wire::key_len(old(output)@.len()) <= keys.len(),
        wire::offset(keys@, old(output)@.len()) <= data.len(),
    ensures
        read == wire::offset(keys@, old(output)@.len()),
        final(output)@ == wire::decoded(keys@, data@, old(output)@.len()),
{
    let ghost n: nat = output@.len();
    let mut datapos: usize = 0;

    let block_loadable: usize = output.len().saturating_sub(56);
    let iters: usize = block_loadable / 8;
    let mut i: usize = 0;
    while i < iters
        invariant
            output@.len() == n,
            n == output.len(),
            wire::key_len(n) <= keys.len(),
            wire::offset(keys@, n) <= data.len(),
            i <= iters,
            iters > 0 ==> 8 * iters + 56 <= n,
            datapos == wire::offset(keys@, (8 * i) as nat),
            forall|t: int|
                0 <= t < 8 * i ==> #[trigger] output@[t] == wire::value_at(keys@, data@, t),
        decreases iters - i,
    {
        let key: u32 = read_key(keys, 3 * i);
        proof {
            assert(key == wire::word_at(keys@, i as int));
            assert(key & 0xfff == key % 4096) by (bit_vector);
            assert(key >> 12 == key / 4096) by (bit_vector);
            tables::lemma_key_halves(key as nat);
            wire::lemma_offset_bounds(keys@, (8 * i) as nat, n);
            wire::lemma_offset_bounds(keys@, (8 * i + 4) as nat, n);
            assert forall|t: nat| t < 8 implies wire::code_at(keys@, 8 * i + t)
                == #[trigger] wire::digit(key as nat, t) by {
                assert((8 * i + t) / 8 == i && (8 * i + t) % 8 == t);
            }
        }
        decode_step(output, 8 * i, keys, data, &mut datapos, key & 0xfff);
        decode_step(output, 8 * i + 4, keys, data, &mut datapos, key >> 12);
        i = i + 1;
    }

    proof {
        wire::lemma_offset_bounds(keys@, (8 * iters) as nat, n);
        wire::lemma_decoded_split(keys@, data@, iters as int, (n - 8 * iters) as nat);
        assert(output@.subrange(0, 8 * iters) =~= wire::decoded(
            keys@,
            data@,
            (8 * iters) as nat,
        ));
    }
    let (_, tail_output) = output.split_at_mut(8 * iters);
    let (_, tail_keys) = keys.split_at(3 * iters);
    let (_, tail_data) = data.split_at(datapos);
    proof {
        assert(tail_keys@ =~= keys@.skip(3 * iters));
        assert(tail_data@ =~= data@.skip(datapos as int));
    }
    decode_scalar(tail_output, tail_keys, tail_data) + datapos
}

} // verus!
