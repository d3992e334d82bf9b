//! The mathematical model of ShiShuA shared by every backend: the constants,
//! one round of the generator, the warm-up that a seed goes through, the byte
//! stream that the generator emits, and the little-endian encodings.
use vstd::prelude::*;

verus! {

/// Number of 64-bit lanes in a seed and in a counter.
pub const STATE_LANES: usize = 4;

/// Number of state vectors, each `STATE_LANES` words wide.
pub const STATE_SIZE: usize = 4;

/// Bytes emitted by one round: sixteen 64-bit output words.
pub const BLOCK_BYTES: usize = 128;

/// Number of warm-up rounds that a freshly seeded state goes through.
pub const WARMUP_ROUNDS: usize = 13;

/// The initial state words (the digits of the golden ratio).
pub const PHI: [u64; 16] = [
    0x9E3779B97F4A7C15u64,
    0xF39CC0605CEDC834u64,
    0x1082276BF3A27251u64,
    0xF86C6A11D0C18E95u64,
    0x2767F0B153D27B7Fu64,
    0x0347045B5BF1827Fu64,
    0x01886F0928403002u64,
    0xC1D64BA40F335E36u64,
    0xF06AD7AE9717877Eu64,
    0x85839D6EFFBD7DC6u64,
    0x64D325D1C5371682u64,
    0xCADD0CCCFDFFBBE1u64,
    0x626E33B8D04B4331u64,
    0xBBF73C790D94F79Du64,
    0x471C4AB3ED3D82A5u64,
    0xFEC507705E4AE6E5u64,
];

/// The abstract state of a ShiShuA generator: sixteen state words, the
/// sixteen output words that the next round emits, and four counter words.
pub struct Model {
    pub state: Seq<u64>,
    pub output: Seq<u64>,
    pub counter: Seq<u64>,
}

/// Addition modulo 2^64, as `u64::wrapping_add` computes it.
pub open spec fn wadd(a: u64, b: u64) -> u64 {
    vstd::wrapping::u64_specs::wrapping_add(a, b)
}

/// The word offsets that the 32-bit shuffle of a round reads; the low half of
/// mixed word `k` comes from `shuf(k)`, its high half from `shuf(k + 8)`.
pub open spec fn shuf(k: int) -> int {
    if k < 4 {
        (k + 2) % 4
    } else if k < 8 {
        4 + (k - 3) % 4
    } else if k < 12 {
        (k - 5) % 4
    } else {
        4 + (k - 2) % 4
    }
}

/// The eight words of group `j` (0 or 1) after the counter has been added to
/// its upper four words.
pub open spec fn counted_group(m: Model, j: int) -> Seq<u64> {
    Seq::new(
        8,
        |k: int|
            if k < 4 {
                m.state[8 * j + k]
            } else {
                wadd(m.state[8 * j + k], m.counter[k - 4])
            },
    )
}

/// Mixed word `k` (0..8) of a counted group: the high half of one word joined
/// with the low half of another.
pub open spec fn group_mix(g: Seq<u64>, k: int) -> u64 {
    (g[shuf(k)] >> 32u64) | (g[shuf(k + 8)] << 32u64)
}

/// The new value of word `k` (0..8) of a counted group.
pub open spec fn group_state(g: Seq<u64>, k: int) -> u64 {
    if k < 4 {
        wadd(g[k] >> 1u64, group_mix(g, k))
    } else {
        wadd(g[k] >> 3u64, group_mix(g, k))
    }
}

/// Output word `k` (0..4) produced by a counted group.
pub open spec fn group_out(g: Seq<u64>, k: int) -> u64 {
    (g[k] >> 1u64) ^ group_mix(g, k + 4)
}

pub open spec fn next_state(m: Model) -> Seq<u64> {
    Seq::new(16, |i: int| group_state(counted_group(m, i / 8), i % 8))
}

pub open spec fn next_output(m: Model) -> Seq<u64> {
    let n = next_state(m);
    Seq::new(
        16,
        |i: int|
            if i < 8 {
                group_out(counted_group(m, i / 4), i % 4)
            } else if i < 12 {
                n[i - 8] ^ n[i + 4]
            } else {
                n[i - 4] ^ n[i - 8]
            },
    )
}

/// The counter steps: lane `k` grows by `7 - 2k`.
pub open spec fn next_counter(m: Model) -> Seq<u64> {
    Seq::new(4, |k: int| wadd(m.counter[k], (7 - 2 * k) as u64))
}

/// One round of ShiShuA.
pub open spec fn round(m: Model) -> Model {
    Model { state: next_state(m), output: next_output(m), counter: next_counter(m) }
}

/// `n` rounds of ShiShuA.
pub open spec fn rounds(m: Model, n: nat) -> Model
    decreases n,
{
    if n == 0 {
        m
    } else {
        round(rounds(m, (n - 1) as nat))
    }
}

/// The seed word that is folded into state word `i` (only even `i` take one).
pub open spec fn seed_index(i: int) -> int {
    if i < 8 {
        i / 2
    } else {
        ((i - 8) / 2 + 2) % 4
    }
}

/// The state before the warm-up: `PHI`, with the seed folded into the even
/// words, zero output and zero counter.
pub open spec fn seeded(seed: Seq<u64>) -> Model {
    Model {
        state: Seq::new(
            16,
            |i: int|
                if i % 2 == 0 {
                    PHI@[i] ^ seed[seed_index(i)]
                } else {
                    PHI@[i]
                },
        ),
        output: Seq::new(16, |i: int| 0u64),
        counter: Seq::new(4, |i: int| 0u64),
    }
}

/// During warm-up the output of a round becomes the next state, its four
/// vectors taken in reverse order.
pub open spec fn reseed(m: Model) -> Model {
    Model {
        state: Seq::new(16, |i: int| m.output[(3 - i / 4) * 4 + i % 4]),
        output: m.output,
        counter: m.counter,
    }
}

pub open spec fn warmup(m: Model, n: nat) -> Model
    decreases n,
{
    if n == 0 {
        m
    } else {
        reseed(round(warmup(m, (n - 1) as nat)))
    }
}

/// The state of a generator freshly made from `seed`.
pub open spec fn init_model(seed: Seq<u64>) -> Model {
    warmup(seeded(seed), WARMUP_ROUNDS as nat)
}

/// Byte `k` (0..8) of the little-endian encoding of `w`.
pub open spec fn byte_of(w: u64, k: int) -> u8 {
    (w >> ((8 * k) as u64)) as u8
}

/// The little-endian encoding of a sequence of words.
pub open spec fn le_bytes(words: Seq<u64>) -> Seq<u8> {
    Seq::new(words.len() * 8, |i: int| byte_of(words[i / 8], i % 8))
}

/// The word whose little-endian encoding is `b[at..at + 8]`.
pub open spec fn le_word(b: Seq<u8>, at: int) -> int {
    b[at] + b[at + 1] * 0x100 + b[at + 2] * 0x1_0000 + b[at + 3] * 0x100_0000 + b[at + 4]
        * 0x1_0000_0000 + b[at + 5] * 0x100_0000_0000 + b[at + 6] * 0x1_0000_0000_0000 + b[at
        + 7] * 0x100_0000_0000_0000
}

/// The 32-bit word whose little-endian encoding is `b[at..at + 4]`.
pub open spec fn le_word32(b: Seq<u8>, at: int) -> int {
    b[at] + b[at + 1] * 0x100 + b[at + 2] * 0x1_0000 + b[at + 3] * 0x100_0000
}

/// Byte `i` of the stream that a generator in state `m` emits: block
/// `i / 128` is the little-endian encoding of the output words after that many
/// rounds.
pub open spec fn stream_byte(m: Model, i: int) -> u8 {
    byte_of(rounds(m, (i / 128) as nat).output[(i % 128) / 8], i % 8)
}

/// `new` is `old` with `new[start..start + len]` replaced by the first `len`
/// bytes of the stream of `m`.
pub open spec fn holds_stream(new: Seq<u8>, old: Seq<u8>, start: int, len: int, m: Model) -> bool {
    &&& new.len() == old.len()
    &&& forall|i: int|
        0 <= i < new.len() ==> #[trigger] new[i] == if start <= i < start + len {
            stream_byte(m, i - start)
        } else {
            old[i]
        }
}

/// Byte `p` of block `c` of the stream is byte `p` of the encoding of the
/// output words after `c` rounds.
pub proof fn lemma_stream_block(m: Model, c: nat, p: int)
    requires
        0 <= p < 128,
    ensures
        stream_byte(m, 128 * c + p) == byte_of(rounds(m, c).output[p / 8], p % 8),
{
    assert((128 * c + p) / 128 == c) by (nonlinear_arith)
        requires
            0 <= p < 128,
    ;
    assert((128 * c + p) % 128 == p) by (nonlinear_arith)
        requires
            0 <= p < 128,
    ;
    assert((128 * c + p) % 8 == p % 8) by (nonlinear_arith)
        requires
            0 <= p < 128,
    ;
}

/// One round, as `rounds` counts them.
pub proof fn lemma_rounds_one(m: Model)
    ensures
        rounds(m, 1) == round(m),
{
    assert(rounds(m, 0) == m);
}

/// `a` rounds followed by `b` rounds are `a + b` rounds.
pub proof fn lemma_rounds_add(m: Model, a: nat, b: nat)
    ensures
        rounds(rounds(m, a), b) == rounds(m, a + b),
    decreases b,
{
    if b > 0 {
        lemma_rounds_add(m, a, (b - 1) as nat);
        assert((a + b - 1) as nat == (a + (b - 1) as nat));
    }
}

/// After `a` rounds the stream continues where it stood `128 * a` bytes in.
pub proof fn lemma_stream_skip(m: Model, a: nat, i: int)
    requires
        0 <= i,
    ensures
        stream_byte(rounds(m, a), i) == stream_byte(m, i + 128 * a),
{
    let q = i / 128;
    assert((i + 128 * a) / 128 == q + a) by (nonlinear_arith)
        requires
            0 <= i,
            q == i / 128,
    ;
    assert((i + 128 * a) % 128 == i % 128) by (nonlinear_arith)
        requires
            0 <= i,
    ;
    assert((i + 128 * a) % 8 == i % 8) by (nonlinear_arith)
        requires
            0 <= i,
    ;
    lemma_rounds_add(m, a, q as nat);
}

/// Addition modulo 2^64 is the remainder of the sum.
pub proof fn lemma_wadd_is_mod(a: u64, b: u64)
    ensures
        wadd(a, b) as int == (a + b) % 0x1_0000_0000_0000_0000,
{
    let m: int = 0x1_0000_0000_0000_0000;
    if a + b > u64::MAX {
        vstd::arithmetic::div_mod::lemma_mod_add_multiples_vanish(a + b - m, m);
        vstd::arithmetic::div_mod::lemma_small_mod((a + b - m) as nat, m as nat);
    } else {
        vstd::arithmetic::div_mod::lemma_small_mod((a + b) as nat, m as nat);
    }
}

/// The counter walks by a fixed step: after `n` rounds lane `k` has grown by
/// `n * (7 - 2k)`, modulo 2^64.
pub proof fn lemma_counter_after_rounds(m: Model, n: nat, k: int)
    requires
        m.counter.len() == 4,
        0 <= k < 4,
    ensures
        rounds(m, n).counter.len() == 4,
        rounds(m, n).counter[k] as int == (m.counter[k] + n * (7 - 2 * k))
            % 0x1_0000_0000_0000_0000,
    decreases n,
{
    let modulus: int = 0x1_0000_0000_0000_0000;
    if n == 0 {
        vstd::arithmetic::div_mod::lemma_small_mod(m.counter[k] as nat, modulus as nat);
    } else {
        let prev = rounds(m, (n - 1) as nat);
        lemma_counter_after_rounds(m, (n - 1) as nat, k);
        let step = 7 - 2 * k;
        let c = prev.counter[k];
        lemma_wadd_is_mod(c, step as u64);
        assert(rounds(m, n).counter[k] == wadd(c, step as u64));
        let total = m.counter[k] + (n - 1) * step;
        assert(c as int == total % modulus);
        vstd::arithmetic::div_mod::lemma_add_mod_noop(total, step, modulus);
        vstd::arithmetic::div_mod::lemma_small_mod(step as nat, modulus as nat);
        vstd::arithmetic::div_mod::lemma_mod_twice(total, modulus);
        assert(total + step == m.counter[k] + n * step) by (nonlinear_arith)
            requires
                total == m.counter[k] + (n - 1) * step,
        ;
    }
}

/// Exclusive or with a fixed word can be undone.
pub proof fn lemma_xor_cancel(a: u64, p: u64)
    ensures
        (p ^ a) ^ p == a,
{
    assert((p ^ a) ^ p == a) by (bit_vector);
}

/// Every seed word is folded whole into the state: xoring the seeded state
/// words with `PHI` gives back each seed word, twice over.
pub proof fn lemma_seeded_recovers_seed(seed: Seq<u64>, k: int)
    requires
        seed.len() == 4,
        0 <= k < 4,
    ensures
        seeded(seed).state[2 * k] ^ PHI@[2 * k] == seed[k],
        seeded(seed).state[8 + 2 * k] ^ PHI@[8 + 2 * k] == seed[(k + 2) % 4],
{
    assert(seed_index(2 * k) == k);
    assert(seed_index(8 + 2 * k) == (k + 2) % 4);
    lemma_xor_cancel(seed[k], PHI@[2 * k]);
    lemma_xor_cancel(seed[(k + 2) % 4], PHI@[8 + 2 * k]);
}

/// Different seeds give different seeded states.
pub proof fn lemma_seeded_injective(s1: Seq<u64>, s2: Seq<u64>)
    requires
        s1.len() == 4,
        s2.len() == 4,
        seeded(s1) == seeded(s2),
    ensures
        s1 == s2,
{
    assert forall|k: int| 0 <= k < 4 implies s1[k] == s2[k] by {
        lemma_seeded_recovers_seed(s1, k);
        lemma_seeded_recovers_seed(s2, k);
    }
    assert(s1 =~= s2);
}

} // verus!
