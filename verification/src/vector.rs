//! A portable 256-bit vector with the lane operations that the block codec is
//! written in. Each operation is named after the AVX2 instruction it stands for.
#[allow(unused_imports)]
use crate::wire;
use vstd::prelude::*;

verus! {

/// 32 bytes, the lowest first. The bytes 0 to 15 are the low lane, the bytes 16
/// to 31 the high lane.
pub struct Vector {
    pub bytes: [u8; 32],
}

impl View for Vector {
    type V = Seq<u8>;

    open spec fn view(&self) -> Seq<u8> {
        self.bytes@
    }
}

/// The 32-bit word whose bytes are `b0` to `b3`, lowest first.
pub open spec fn join4(b0: u8, b1: u8, b2: u8, b3: u8) -> u32 {
    (b0 as u32) | (b1 as u32) << 8 | (b2 as u32) << 16 | (b3 as u32) << 24
}

/// The 64-bit word whose bytes are `b0` to `b7`, lowest first.
pub open spec fn join8(b0: u8, b1: u8, b2: u8, b3: u8, b4: u8, b5: u8, b6: u8, b7: u8) -> u64 {
    (b0 as u64) | (b1 as u64) << 8 | (b2 as u64) << 16 | (b3 as u64) << 24 | (b4 as u64) << 32 | (
    b5 as u64) << 40 | (b6 as u64) << 48 | (b7 as u64) << 56
}

/// The 32-bit word number `k` of the bytes `s`.
pub open spec fn dword(s: Seq<u8>, k: int) -> u32 {
    join4(s[4 * k], s[4 * k + 1], s[4 * k + 2], s[4 * k + 3])
}

/// The 64-bit word number `k` of the bytes `s`.
pub open spec fn qword(s: Seq<u8>, k: int) -> u64 {
    join8(
        s[8 * k],
        s[8 * k + 1],
        s[8 * k + 2],
        s[8 * k + 3],
        s[8 * k + 4],
        s[8 * k + 5],
        s[8 * k + 6],
        s[8 * k + 7],
    )
}

/// The two-bit field number `k` of `imm`.
pub open spec fn selector(imm: u8, k: int) -> int {
    if k == 0 {
        imm as int % 4
    } else if k == 1 {
        imm as int / 4 % 4
    } else if k == 2 {
        imm as int / 16 % 4
    } else {
        imm as int / 64 % 4
    }
}

/// The four bytes of `x`, lowest first.
fn split4(x: u32) -> (b: [u8; 4])
    ensures
        join4(b@[0], b@[1], b@[2], b@[3]) == x,
{
    let b0: u8 = (x & 0xff) as u8;
    let b1: u8 = ((x >> 8) & 0xff) as u8;
    let b2: u8 = ((x >> 16) & 0xff) as u8;
    let b3: u8 = ((x >> 24) & 0xff) as u8;
    proof {
        assert(join4(b0, b1, b2, b3) == x) by (bit_vector)
            requires
                b0 == (x & 0xff) as u8,
                b1 == ((x >> 8) & 0xff) as u8,
                b2 == ((x >> 16) & 0xff) as u8,
                b3 == ((x >> 24) & 0xff) as u8,
        ;
    }
    [b0, b1, b2, b3]
}

/// The eight bytes of `x`, lowest first.
fn split8(x: u64) -> (b: [u8; 8])
    ensures
        join8(b@[0], b@[1], b@[2], b@[3], b@[4], b@[5], b@[6], b@[7]) == x,
{
    let b0: u8 = (x & 0xff) as u8;
    let b1: u8 = ((x >> 8) & 0xff) as u8;
    let b2: u8 = ((x >> 16) & 0xff) as u8;
    let b3: u8 = ((x >> 24) & 0xff) as u8;
    let b4: u8 = ((x >> 32) & 0xff) as u8;
    let b5: u8 = ((x >> 40) & 0xff) as u8;
    let b6: u8 = ((x >> 48) & 0xff) as u8;
    let b7: u8 = ((x >> 56) & 0xff) as u8;
    proof {
        assert(join8(b0, b1, b2, b3, b4, b5, b6, b7) == x) by (bit_vector)
            requires
                b0 == (x & 0xff) as u8,
                b1 == ((x >> 8) & 0xff) as u8,
                b2 == ((x >> 16) & 0xff) as u8,
                b3 == ((x >> 24) & 0xff) as u8,
                b4 == ((x >> 32) & 0xff) as u8,
                b5 == ((x >> 40) & 0xff) as u8,
                b6 == ((x >> 48) & 0xff) as u8,
                b7 == ((x >> 56) & 0xff) as u8,
        ;
    }
    [b0, b1, b2, b3, b4, b5, b6, b7]
}

impl Vector {
    /// All 32 bytes set to `b`.
    pub fn set1_epi8(b: u8) -> (r: Vector)
        ensures
            r@ == Seq::new(32, |i: int| b),
    {
        let r: Vector = Vector { bytes: [b;32] };
        assert(r@ =~= Seq::new(32, |i: int| b));
        r
    }

    /// The vector of the 32 given bytes, lowest first.
    pub fn setr_epi8(bytes: [u8; 32]) -> (r: Vector)
        ensures
            r@ == bytes@,
    {
        Vector { bytes }
    }

    /// The vector of the eight given 32-bit words, lowest first.
    pub fn setr_epi32(words: [u32; 8]) -> (r: Vector)
        ensures
            forall|k: int| 0 <= k < 8 ==> #[trigger] dword(r@, k) == words@[k],
    {
        let mut r: Vector = Vector { bytes: [0u8;32] };
        let mut k: usize = 0;
        while k < 8
            invariant
                k <= 8,
                forall|j: int| 0 <= j < k ==> #[trigger] dword(r@, j) == words@[j],
            decreases 8 - k,
        {
            r.put_u32(k, words[k]);
            k = k + 1;
        }
        r
    }

    /// The 32-bit word number `k`.
    fn get_u32(&self, k: usize) -> (x: u32)
        requires
            k < 8,
        ensures
            x == dword(self@, k as int),
    {
        (self.bytes[4 * k] as u32) | (self.bytes[4 * k + 1] as u32) << 8 | (self.bytes[4 * k
            + 2] as u32) << 16 | (self.bytes[4 * k + 3] as u32) << 24
    }

    /// The 64-bit word number `k`.
    fn get_u64(&self, k: usize) -> (x: u64)
        requires
            k < 4,
        ensures
            x == qword(self@, k as int),
    {
        (self.bytes[8 * k] as u64) | (self.bytes[8 * k + 1] as u64) << 8 | (self.bytes[8 * k
            + 2] as u64) << 16 | (self.bytes[8 * k + 3] as u64) << 24 | (self.bytes[8 * k
            + 4] as u64) << 32 | (self.bytes[8 * k + 5] as u64) << 40 | (self.bytes[8 * k
            + 6] as u64) << 48 | (self.bytes[8 * k + 7] as u64) << 56
    }

    /// Sets the 32-bit word number `k` to `x`.
    fn put_u32(&mut self, k: usize, x: u32)
        requires
            k < 8,
        ensures
            forall|j: int|
                0 <= j < 8 ==> #[trigger] dword(final(self)@, j) == (if j == k {
                    x
                } else {
                    dword(old(self)@, j)
                }),
    {
        let ghost before: Seq<u8> = self@;
        let b: [u8; 4] = split4(x);
        self.bytes[4 * k] = b[0];
        self.bytes[4 * k + 1] = b[1];
        self.bytes[4 * k + 2] = b[2];
        self.bytes[4 * k + 3] = b[3];
        assert forall|j: int| 0 <= j < 8 implies #[trigger] dword(self@, j) == (if j == k {
            x
        } else {
            dword(before, j)
        }) by {
            if j < k {
                assert(4 * j + 3 < 4 * k);
            } else if j > k {
                assert(4 * j > 4 * k + 3);
            }
        }
    }

    /// Sets the 64-bit word number `k` to `x`.
    fn put_u64(&mut self, k: usize, x: u64)
        requires
            k < 4,
        ensures
            forall|j: int|
                0 <= j < 4 ==> #[trigger] qword(final(self)@, j) == (if j == k {
                    x
                } else {
                    qword(old(self)@, j)
                }),
    {
        let ghost before: Seq<u8> = self@;
        let b: [u8; 8] = split8(x);
        self.bytes[8 * k] = b[0];
        self.bytes[8 * k + 1] = b[1];
        self.bytes[8 * k + 2] = b[2];
        self.bytes[8 * k + 3] = b[3];
        self.bytes[8 * k + 4] = b[4];
        self.bytes[8 * k + 5] = b[5];
        self.bytes[8 * k + 6] = b[6];
        self.bytes[8 * k + 7] = b[7];
        assert forall|j: int| 0 <= j < 4 implies #[trigger] qword(self@, j) == (if j == k {
            x
        } else {
            qword(before, j)
        }) by {
            if j < k {
                assert(8 * j + 7 < 8 * k);
            } else if j > k {
                assert(8 * j > 8 * k + 7);
            }
        }
    }

    /// The smaller of two bytes, at each index.
    pub fn min_epu8(&self, other: &Vector) -> (r: Vector)
        ensures
            forall|i: int|
                0 <= i < 32 ==> #[trigger] r@[i] == (if self@[i] <= other@[i] {
                    self@[i]
                } else {
                    other@[i]
                }),
    {
        let mut bytes: [u8; 32] = [0u8;32];
        let mut i: usize = 0;
        while i < 32
            invariant
                i <= 32,
                forall|j: int|
                    0 <= j < i ==> #[trigger] bytes@[j] == (if self@[j] <= other@[j] {
                        self@[j]
                    } else {
                        other@[j]
                    }),
            decreases 32 - i,
        {
            if self.bytes[i] <= other.bytes[i] {
                bytes[i] = self.bytes[i];
            } else {
                bytes[i] = other.bytes[i];
            }
            i = i + 1;
        }
        Vector { bytes }
    }

    /// The larger of two bytes, at each index.
    pub fn max_epu8(&self, other: &Vector) -> (r: Vector)
        ensures
            forall|i: int|
                0 <= i < 32 ==> #[trigger] r@[i] == (if self@[i] <= other@[i] {
                    other@[i]
                } else {
                    self@[i]
                }),
    {
        let mut bytes: [u8; 32] = [0u8;32];
        let mut i: usize = 0;
        while i < 32
            invariant
                i <= 32,
                forall|j: int|
                    0 <= j < i ==> #[trigger] bytes@[j] == (if self@[j] <= other@[j] {
                        other@[j]
                    } else {
                        self@[j]
                    }),
            decreases 32 - i,
        {
            if self.bytes[i] <= other.bytes[i] {
                bytes[i] = other.bytes[i];
            } else {
                bytes[i] = self.bytes[i];
            }
            i = i + 1;
        }
        Vector { bytes }
    }

    /// The bitwise or of two bytes, at each index.
    pub fn or_si256(&self, other: &Vector) -> (r: Vector)
        ensures
            forall|i: int| 0 <= i < 32 ==> #[trigger] r@[i] == self@[i] | other@[i],
    {
        let mut bytes: [u8; 32] = [0u8;32];
        let mut i: usize = 0;
        while i < 32
            invariant
                i <= 32,
                forall|j: int| 0 <= j < i ==> #[trigger] bytes@[j] == self@[j] | other@[j],
            decreases 32 - i,
        {
            bytes[i] = self.bytes[i] | other.bytes[i];
            i = i + 1;
        }
        Vector { bytes }
    }

    /// The low 32 bits of the product of two 32-bit words, at each of the eight.
    pub fn mullo_epi32(&self, other: &Vector) -> (r: Vector)
        ensures
            forall|k: int|
                0 <= k < 8 ==> #[trigger] dword(r@, k) == dword(self@, k).wrapping_mul(
                    dword(other@, k),
                ),
    {
        let mut words: [u32; 8] = [0u32;8];
        let mut k: usize = 0;
        while k < 8
            invariant
                k <= 8,
                forall|j: int|
                    0 <= j < k ==> #[trigger] words@[j] == dword(self@, j).wrapping_mul(
                        dword(other@, j),
                    ),
            decreases 8 - k,
        {
            words[k] = self.get_u32(k).wrapping_mul(other.get_u32(k));
            k = k + 1;
        }
        Vector::setr_epi32(words)
    }

    /// Each of the four 64-bit words, shifted left by `count` bits.
    pub fn slli_epi64(&self, count: u32) -> (r: Vector)
        requires
            count < 64,
        ensures
            forall|k: int| 0 <= k < 4 ==> #[trigger] qword(r@, k) == qword(self@, k) << count,
    {
        let mut r: Vector = Vector { bytes: [0u8;32] };
        let mut k: usize = 0;
        while k < 4
            invariant
                k <= 4,
                count < 64,
                forall|j: int|
                    0 <= j < k ==> #[trigger] qword(r@, j) == qword(self@, j) << count,
            decreases 4 - k,
        {
            r.put_u64(k, self.get_u64(k) << count);
            k = k + 1;
        }
        r
    }

    /// At each index, the byte of the same lane that `mask` names there by its
    /// low four bits, or zero where `mask` has its high bit set.
    pub fn shuffle_epi8(&self, mask: &Vector) -> (r: Vector)
        ensures
            forall|i: int|
                0 <= i < 32 ==> #[trigger] r@[i] == (if mask@[i] >= 128 {
                    0u8
                } else {
                    self@[16 * (i / 16) + mask@[i] as int % 16]
                }),
    {
        let mut bytes: [u8; 32] = [0u8;32];
        let mut i: usize = 0;
        while i < 32
            invariant
                i <= 32,
                forall|j: int|
                    0 <= j < i ==> #[trigger] bytes@[j] == (if mask@[j] >= 128 {
                        0u8
                    } else {
                        self@[16 * (j / 16) + mask@[j] as int % 16]
                    }),
            decreases 32 - i,
        {
            if mask.bytes[i] >= 128 {
                bytes[i] = 0;
            } else {
                bytes[i] = self.bytes[16 * (i / 16) + (mask.bytes[i] % 16) as usize];
            }
            i = i + 1;
        }
        Vector { bytes }
    }

    /// The 64-bit words in the order that the four two-bit fields of `imm` name.
    pub fn permute4x64_epi64(&self, imm: u8) -> (r: Vector)
        ensures
            forall|i: int|
                0 <= i < 32 ==> #[trigger] r@[i] == self@[8 * selector(imm, i / 8) + i % 8],
    {
        let fields: [u8; 4] = [imm % 4, imm / 4 % 4, imm / 16 % 4, imm / 64 % 4];
        let mut bytes: [u8; 32] = [0u8;32];
        let mut i: usize = 0;
        while i < 32
            invariant
                i <= 32,
                forall|k: int| 0 <= k < 4 ==> #[trigger] fields@[k] == selector(imm, k),
                forall|j: int|
                    0 <= j < i ==> #[trigger] bytes@[j] == self@[8 * selector(imm, j / 8) + j % 8],
            decreases 32 - i,
        {
            assert(fields@[(i / 8) as int] == selector(imm, i as int / 8));
            bytes[i] = self.bytes[8 * (fields[i / 8] as usize) + i % 8];
            i = i + 1;
        }
        Vector { bytes }
    }

    /// The byte at index `i`.
    pub fn extract_epi8(&self, i: usize) -> (b: u8)
        requires
            i < 32,
        ensures
            b == self@[i as int],
    {
        self.bytes[i]
    }

    /// The 32 bytes of `data` from index `at` on.
    pub fn loadu_bytes(data: &[u8], at: usize) -> (r: Vector)
        requires
            at + 32 <= data.len(),
        ensures
            r@ == data@.subrange(at as int, at + 32),
    {
        let mut bytes: [u8; 32] = [0u8;32];
        let mut i: usize = 0;
        while i < 32
            invariant
                i <= 32,
                at + 32 <= data.len(),
                forall|j: int| 0 <= j < i ==> #[trigger] bytes@[j] == data@[at + j],
            decreases 32 - i,
        {
            bytes[i] = data[at + i];
            i = i + 1;
        }
        assert(bytes@ =~= data@.subrange(at as int, at + 32));
        Vector { bytes }
    }

    /// The four values of `input` from index `at` on, as 64-bit words.
    pub fn loadu_values(input: &[u64], at: usize) -> (r: Vector)
        requires
            at + 4 <= input.len(),
        ensures
            forall|k: int| 0 <= k < 4 ==> #[trigger] qword(r@, k) == input@[at + k],
    {
        let mut r: Vector = Vector { bytes: [0u8;32] };
        let mut k: usize = 0;
        while k < 4
            invariant
                k <= 4,
                at + 4 <= input.len(),
                forall|j: int| 0 <= j < k ==> #[trigger] qword(r@, j) == input@[at + j],
            decreases 4 - k,
        {
            r.put_u64(k, input[at + k]);
            k = k + 1;
        }
        r
    }

    /// Writes the 32 bytes over `out`, from index `at` on.
    pub fn storeu_bytes(&self, out: &mut [u8], at: usize)
        requires
            at + 32 <= old(out).len(),
        ensures
            final(out)@ == wire::splice(old(out)@, at as int, self@),
    {
        let ghost before: Seq<u8> = out@;
        let mut i: usize = 0;
        while i < 32
            invariant
                i <= 32,
                at + 32 <= out.len(),
                out@.len() == before.len(),
                forall|j: int|
                    0 <= j < before.len() ==> #[trigger] out@[j] == (if at <= j < at + i {
                        self@[j - at]
                    } else {
                        before[j]
                    }),
            decreases 32 - i,
        {
            out[at + i] = self.bytes[i];
            i = i + 1;
        }
        assert(out@ =~= wire::splice(before, at as int, self@));
    }

    /// Writes the four 64-bit words over `out`, from index `at` on.
    pub fn storeu_values(&self, out: &mut [u64], at: usize)
        requires
            at + 4 <= old(out).len(),
        ensures
            final(out)@.len() == old(out)@.len(),
            forall|j: int|
                0 <= j < final(out)@.len() ==> #[trigger] final(out)@[j] == (if at <= j < at + 4 {
                    qword(self@, j - at)
                } else {
                    old(out)@[j]
                }),
    {
        out[at] = self.get_u64(0);
        out[at + 1] = self.get_u64(1);
        out[at + 2] = self.get_u64(2);
        out[at + 3] = self.get_u64(3);
    }
}

} // verus!
