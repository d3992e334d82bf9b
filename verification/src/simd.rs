//! The vector operations that the SSE2, AVX2 and NEON backends are built from,
//! written safely over 64-bit lanes.  A 128-bit vector is `[u64; 2]` and a
//! 256-bit vector is `[u64; 4]`, the lowest lane first; the operations that
//! move data across lanes are specified over the vector's 32-bit words.
use vstd::prelude::*;

use crate::le::store_word;
use crate::model::{byte_of, wadd};

verus! {

/// 32-bit word `i` of a vector given as 64-bit lanes, the lowest first.
pub open spec fn dword(v: Seq<u64>, i: int) -> u32 {
    if i % 2 == 0 {
        v[i / 2] as u32
    } else {
        (v[i / 2] >> 32u64) as u32
    }
}

/// A 64-bit lane is determined by its two 32-bit halves; when these are the
/// high half of `a` and the low half of `b`, the lane is `a`'s high half
/// joined with `b`'s low half.
pub proof fn lemma_lane_from_halves(x: u64, a: u64, b: u64)
    requires
        x as u32 == (a >> 32u64) as u32,
        (x >> 32u64) as u32 == b as u32,
    ensures
        x == (a >> 32u64) | (b << 32u64),
{
    assert(x as u32 == (a >> 32u64) as u32 && (x >> 32u64) as u32 == b as u32 ==> x == (a
        >> 32u64) | (b << 32u64)) by (bit_vector);
}

/// The 32-bit halves of an or are the ors of the halves.
pub proof fn lemma_or_halves(a: u64, b: u64)
    ensures
        (a | b) as u32 == (a as u32) | (b as u32),
        ((a | b) >> 32u64) as u32 == ((a >> 32u64) as u32) | ((b >> 32u64) as u32),
{
    assert((a | b) as u32 == (a as u32) | (b as u32)) by (bit_vector);
    assert(((a | b) >> 32u64) as u32 == ((a >> 32u64) as u32) | ((b >> 32u64) as u32))
        by (bit_vector);
}

/// Zero is the unit of or.
pub proof fn lemma_or_zero(x: u32)
    ensures
        0u32 | x == x,
        x | 0u32 == x,
{
    assert(0u32 | x == x) by (bit_vector);
    assert(x | 0u32 == x) by (bit_vector);
}

/// The words of a sequence of 128-bit vectors, lane by lane.
pub open spec fn words2(vs: Seq<[u64; 2]>) -> Seq<u64> {
    Seq::new(2 * vs.len(), |i: int| vs[i / 2]@[i % 2])
}

/// The words of a sequence of 256-bit vectors, lane by lane.
pub open spec fn words4(vs: Seq<[u64; 4]>) -> Seq<u64> {
    Seq::new(4 * vs.len(), |i: int| vs[i / 4]@[i % 4])
}

/// A lane of `a | b` in which, for each 32-bit half, one of `a`, `b` is zero
/// and the other holds the wanted half: the high half of `x` below the low
/// half of `y`.
pub proof fn lemma_or_lane_mix(a: u64, b: u64, x: u64, y: u64)
    requires
        (a as u32 == 0 && b as u32 == (x >> 32u64) as u32) || (b as u32 == 0 && a as u32 == (x
            >> 32u64) as u32),
        ((a >> 32u64) as u32 == 0 && (b >> 32u64) as u32 == y as u32) || ((b >> 32u64) as u32
            == 0 && (a >> 32u64) as u32 == y as u32),
    ensures
        a | b == (x >> 32u64) | (y << 32u64),
{
    lemma_or_halves(a, b);
    lemma_or_zero(a as u32);
    lemma_or_zero(b as u32);
    lemma_or_zero((a >> 32u64) as u32);
    lemma_or_zero((b >> 32u64) as u32);
    lemma_lane_from_halves(a | b, x, y);
}

/// Zero is the unit of exclusive or.
pub proof fn lemma_xor_zero(x: u64)
    ensures
        0u64 ^ x == x,
        x ^ 0u64 == x,
{
    assert(0u64 ^ x == x) by (bit_vector);
    assert(x ^ 0u64 == x) by (bit_vector);
}

/// The counted group of one half of the state: the words of `s0, s1`, then
/// those of `s2, s3` with the counter `c0, c1` added.
pub open spec fn half_group(
    s0: [u64; 2],
    s1: [u64; 2],
    s2: [u64; 2],
    s3: [u64; 2],
    c0: [u64; 2],
    c1: [u64; 2],
) -> Seq<u64> {
    seq![
        s0@[0],
        s0@[1],
        s1@[0],
        s1@[1],
        wadd(s2@[0], c0@[0]),
        wadd(s2@[1], c0@[1]),
        wadd(s3@[0], c1@[0]),
        wadd(s3@[1], c1@[1]),
    ]
}

/// Exclusive or is commutative.
pub proof fn lemma_xor_commutes(a: u64, b: u64)
    ensures
        a ^ b == b ^ a,
{
    assert(a ^ b == b ^ a) by (bit_vector);
}

/// The low half of `v`.
fn low_half(v: u64) -> (r: u32)
    ensures
        r == v as u32,
{
    #[verifier::truncate]
    (v as u32)
}

/// The high half of `v`.
fn high_half(v: u64) -> (r: u32)
    ensures
        r == (v >> 32u64) as u32,
{
    #[verifier::truncate]
    ((v >> 32) as u32)
}

/// The 64-bit lane made of two 32-bit halves.
fn join_halves(lo: u32, hi: u32) -> (r: u64)
    ensures
        r as u32 == lo,
        (r >> 32u64) as u32 == hi,
{
    let r = (lo as u64) | ((hi as u64) << 32);
    assert((((lo as u64) | ((hi as u64) << 32u64)) as u32) == lo && ((((lo as u64) | ((hi as u64)
        << 32u64)) >> 32u64) as u32) == hi) by (bit_vector);
    r
}

/// 32-bit word `i` of a vector.
fn get_dword(v: &[u64], i: usize) -> (r: u32)
    requires
        i < 2 * v@.len(),
    ensures
        r == dword(v@, i as int),
{
    if i % 2 == 0 {
        low_half(v[i / 2])
    } else {
        high_half(v[i / 2])
    }
}

/// Packs four 32-bit words into a 128-bit vector.
fn from_dwords2(d: [u32; 4]) -> (r: [u64; 2])
    ensures
        forall|i: int| 0 <= i < 4 ==> #[trigger] dword(r@, i) == d@[i],
{
    let r = [join_halves(d[0], d[1]), join_halves(d[2], d[3])];
    assert(dword(r@, 0) == d@[0] && dword(r@, 1) == d@[1]);
    assert(dword(r@, 2) == d@[2] && dword(r@, 3) == d@[3]);
    r
}

/// Packs eight 32-bit words into a 256-bit vector.
fn from_dwords4(d: [u32; 8]) -> (r: [u64; 4])
    ensures
        forall|i: int| 0 <= i < 8 ==> #[trigger] dword(r@, i) == d@[i],
{
    let r = [
        join_halves(d[0], d[1]),
        join_halves(d[2], d[3]),
        join_halves(d[4], d[5]),
        join_halves(d[6], d[7]),
    ];
    assert(dword(r@, 0) == d@[0] && dword(r@, 1) == d@[1]);
    assert(dword(r@, 2) == d@[2] && dword(r@, 3) == d@[3]);
    assert(dword(r@, 4) == d@[4] && dword(r@, 5) == d@[5]);
    assert(dword(r@, 6) == d@[6] && dword(r@, 7) == d@[7]);
    r
}

/// Writes the little-endian encoding of the lanes of `v` to
/// `dest[at..at + 8 * N]` (`_mm_storeu_si128`, `_mm256_storeu_si256`,
/// `vst1q_u8`).
pub fn store_lanes<const N: usize>(dest: &mut [u8], at: usize, v: [u64; N])
    requires
        at + 8 * N <= old(dest)@.len(),
    ensures
        final(dest)@.len() == old(dest)@.len(),
        forall|i: int|
            0 <= i < final(dest)@.len() ==> #[trigger] final(dest)@[i] == if at <= i < at + 8 * N {
                byte_of(v@[(i - at) / 8], (i - at) % 8)
            } else {
                old(dest)@[i]
            },
{
    let len = dest.len();
    let mut w: usize = 0;
    while w < N
        invariant
            w <= N,
            v@.len() == N,
            at + 8 * N <= dest@.len(),
            len == dest@.len(),
            dest@.len() == old(dest)@.len(),
            forall|i: int|
                0 <= i < dest@.len() ==> #[trigger] dest@[i] == if at <= i < at + 8 * w {
                    byte_of(v@[(i - at) / 8], (i - at) % 8)
                } else {
                    old(dest)@[i]
                },
        decreases N - w,
    {
        store_word(dest, at + 8 * w, v[w]);
        w = w + 1;
    }
}

/// Lane-wise addition modulo 2^64 (`_mm_add_epi64`, `_mm256_add_epi64`,
/// `vaddq_u64`).
pub fn lanes_add<const N: usize>(a: [u64; N], b: [u64; N]) -> (r: [u64; N])
    ensures
        forall|i: int| 0 <= i < N ==> #[trigger] r@[i] == wadd(a@[i], b@[i]),
{
    let mut r = a;
    let mut i: usize = 0;
    while i < N
        invariant
            i <= N,
            r@.len() == N,
            a@.len() == N,
            b@.len() == N,
            forall|k: int| 0 <= k < i ==> #[trigger] r@[k] == wadd(a@[k], b@[k]),
        decreases N - i,
    {
        r[i] = a[i].wrapping_add(b[i]);
        i = i + 1;
    }
    r
}

/// Lane-wise exclusive or (`_mm_xor_si128`, `_mm256_xor_si256`,
/// `veorq_u64`).
pub fn lanes_xor<const N: usize>(a: [u64; N], b: [u64; N]) -> (r: [u64; N])
    ensures
        forall|i: int| 0 <= i < N ==> #[trigger] r@[i] == a@[i] ^ b@[i],
{
    let mut r = a;
    let mut i: usize = 0;
    while i < N
        invariant
            i <= N,
            r@.len() == N,
            a@.len() == N,
            b@.len() == N,
            forall|k: int| 0 <= k < i ==> #[trigger] r@[k] == a@[k] ^ b@[k],
        decreases N - i,
    {
        r[i] = a[i] ^ b[i];
        i = i + 1;
    }
    r
}

/// Lane-wise or (`_mm_or_si128`).
pub fn lanes_or<const N: usize>(a: [u64; N], b: [u64; N]) -> (r: [u64; N])
    ensures
        forall|i: int| 0 <= i < N ==> #[trigger] r@[i] == a@[i] | b@[i],
{
    let mut r = a;
    let mut i: usize = 0;
    while i < N
        invariant
            i <= N,
            r@.len() == N,
            a@.len() == N,
            b@.len() == N,
            forall|k: int| 0 <= k < i ==> #[trigger] r@[k] == a@[k] | b@[k],
        decreases N - i,
    {
        r[i] = a[i] | b[i];
        i = i + 1;
    }
    r
}

/// Lane-wise logical right shift (`_mm_srli_epi64`, `_mm256_srli_epi64`,
/// `vshrq_n_u64`).
pub fn lanes_shr<const N: usize>(a: [u64; N], shift: u64) -> (r: [u64; N])
    requires
        shift < 64,
    ensures
        forall|i: int| 0 <= i < N ==> #[trigger] r@[i] == a@[i] >> shift,
{
    let mut r = a;
    let mut i: usize = 0;
    while i < N
        invariant
            i <= N,
            shift < 64,
            r@.len() == N,
            a@.len() == N,
            forall|k: int| 0 <= k < i ==> #[trigger] r@[k] == a@[k] >> shift,
        decreases N - i,
    {
        r[i] = a[i] >> shift;
        i = i + 1;
    }
    r
}

/// The 128-bit vector shifted left by `bytes` bytes, zeros shifted in
/// (`_mm_slli_si128`), for shifts by whole 32-bit words.
pub fn shift_left_bytes(v: [u64; 2], bytes: usize) -> (r: [u64; 2])
    requires
        bytes % 4 == 0,
        bytes < 16,
    ensures
        forall|i: int|
            0 <= i < 4 ==> #[trigger] dword(r@, i) == if i >= bytes / 4 {
                dword(v@, i - bytes / 4)
            } else {
                0u32
            },
{
    let n = bytes / 4;
    let mut d = [0u32; 4];
    let mut i: usize = n;
    while i < 4
        invariant
            n <= i <= 4,
            n == bytes / 4,
            v@.len() == 2,
            forall|k: int|
                0 <= k < 4 ==> #[trigger] d@[k] == if n <= k < i {
                    dword(v@, k - n)
                } else {
                    0u32
                },
        decreases 4 - i,
    {
        d[i] = get_dword(v.as_slice(), i - n);
        i = i + 1;
    }
    from_dwords2(d)
}

/// The 128-bit vector shifted right by `bytes` bytes, zeros shifted in
/// (`_mm_srli_si128`), for shifts by whole 32-bit words.
pub fn shift_right_bytes(v: [u64; 2], bytes: usize) -> (r: [u64; 2])
    requires
        bytes % 4 == 0,
        bytes < 16,
    ensures
        forall|i: int|
            0 <= i < 4 ==> #[trigger] dword(r@, i) == if i + bytes / 4 < 4 {
                dword(v@, i + bytes / 4)
            } else {
                0u32
            },
{
    let n = bytes / 4;
    let mut d = [0u32; 4];
    let mut i: usize = 0;
    while i + n < 4
        invariant
            i + n <= 4,
            n == bytes / 4,
            v@.len() == 2,
            forall|k: int|
                0 <= k < 4 ==> #[trigger] d@[k] == if k < i {
                    dword(v@, k + n)
                } else {
                    0u32
                },
        decreases 4 - i - n,
    {
        d[i] = get_dword(v.as_slice(), i + n);
        i = i + 1;
    }
    from_dwords2(d)
}

/// The 128-bit window starting `bytes` bytes into the 256-bit
/// concatenation `rm:rn`, `rn` in the low half (`vextq_u8`), for offsets by
/// whole 32-bit words.
pub fn extract_bytes(rn: [u64; 2], rm: [u64; 2], bytes: usize) -> (r: [u64; 2])
    requires
        bytes % 4 == 0,
        bytes < 16,
    ensures
        forall|i: int|
            0 <= i < 4 ==> #[trigger] dword(r@, i) == if i + bytes / 4 < 4 {
                dword(rn@, i + bytes / 4)
            } else {
                dword(rm@, i + bytes / 4 - 4)
            },
{
    let n = bytes / 4;
    let mut d = [0u32; 4];
    let mut i: usize = 0;
    while i < 4
        invariant
            i <= 4,
            n == bytes / 4,
            n < 4,
            rn@.len() == 2,
            rm@.len() == 2,
            forall|k: int|
                0 <= k < i ==> #[trigger] d@[k] == if k + n < 4 {
                    dword(rn@, k + n)
                } else {
                    dword(rm@, k + n - 4)
                },
        decreases 4 - i,
    {
        if i + n < 4 {
            d[i] = get_dword(rn.as_slice(), i + n);
        } else {
            d[i] = get_dword(rm.as_slice(), i + n - 4);
        }
        i = i + 1;
    }
    from_dwords2(d)
}

/// The 256-bit vector whose 32-bit word `i` is word `idx[i] % 8` of `v`
/// (`_mm256_permutevar8x32_epi32`).
pub fn permute_dwords(v: [u64; 4], idx: [u32; 8]) -> (r: [u64; 4])
    ensures
        forall|i: int| 0 <= i < 8 ==> #[trigger] dword(r@, i) == dword(v@, (idx@[i] % 8) as int),
{
    let mut d = [0u32; 8];
    let mut i: usize = 0;
    while i < 8
        invariant
            i <= 8,
            v@.len() == 4,
            forall|k: int| 0 <= k < i ==> #[trigger] d@[k] == dword(v@, (idx@[k] % 8) as int),
        decreases 8 - i,
    {
        d[i] = get_dword(v.as_slice(), (idx[i] % 8) as usize);
        i = i + 1;
    }
    from_dwords4(d)
}

} // verus!
