//! The NEON backend: the state held in 128-bit vectors, two words each, and a
//! round computed with vector extracts, shifts, adds and xors.
use vstd::prelude::*;

use crate::le::{bytes_to_u64s, lemma_decode_block};
use crate::model::{
    byte_of, counted_group, group_out, group_state, holds_stream, init_model, lemma_rounds_one,
    lemma_stream_block, next_counter, next_output, next_state, reseed, round, rounds, seeded,
    seed_index, stream_byte, warmup, Model, BLOCK_BYTES, PHI, WARMUP_ROUNDS,
};
use crate::simd::{
    dword, extract_bytes, half_group, lanes_add, lanes_shr, lanes_xor, lemma_lane_from_halves,
    lemma_xor_commutes, lemma_xor_zero, store_lanes, words2,
};

verus! {

#[derive(Copy, Clone)]
pub struct State {
    state: [[u64; 2]; 8],
    output: [[u64; 2]; 8],
    counter: [[u64; 2]; 2],
}

impl View for State {
    type V = Model;

    closed spec fn view(&self) -> Model {
        Model {
            state: words2(self.state@),
            output: words2(self.output@),
            counter: words2(self.counter@),
        }
    }
}

/// The vector whose lanes are `low` and `high`.
fn set_u64x2(low: u64, high: u64) -> (v: [u64; 2])
    ensures
        v@ == seq![low, high],
{
    let v = [low, high];
    assert(v@ =~= seq![low, high]);
    v
}

/// The vector of `PHI[index]` and `PHI[index + 1]`.
fn load_phi(index: usize) -> (v: [u64; 2])
    requires
        index + 1 < 16,
    ensures
        v@ == seq![PHI@[index as int], PHI@[index + 1]],
{
    set_u64x2(PHI[index], PHI[index + 1])
}

/// The window `amount` bytes into `rm:rn` (`vextq_u8`); the offsets in use
/// are 4 and 12.
fn vext_u64x2(rn: [u64; 2], rm: [u64; 2], amount: usize) -> (r: [u64; 2])
    requires
        amount == 4 || amount == 12,
    ensures
        forall|i: int|
            0 <= i < 4 ==> #[trigger] dword(r@, i) == if i + amount / 4 < 4 {
                dword(rn@, i + amount / 4)
            } else {
                dword(rm@, i + amount / 4 - 4)
            },
{
    extract_bytes(rn, rm, amount)
}

/// One half of a round on the vectors `s0..s3`: returns the four new state
/// vectors and the two output vectors.
fn round_half(
    s0: [u64; 2],
    s1: [u64; 2],
    s2: [u64; 2],
    s3: [u64; 2],
    counter_lo: [u64; 2],
    counter_hi: [u64; 2],
) -> (r: ([u64; 2], [u64; 2], [u64; 2], [u64; 2], [u64; 2], [u64; 2]))
    ensures
        ({
            let g = half_group(s0, s1, s2, s3, counter_lo, counter_hi);
            &&& r.0@ == seq![group_state(g, 0), group_state(g, 1)]
            &&& r.1@ == seq![group_state(g, 2), group_state(g, 3)]
            &&& r.2@ == seq![group_state(g, 4), group_state(g, 5)]
            &&& r.3@ == seq![group_state(g, 6), group_state(g, 7)]
            &&& r.4@ == seq![group_out(g, 0), group_out(g, 1)]
            &&& r.5@ == seq![group_out(g, 2), group_out(g, 3)]
        }),
{
    let ghost g = half_group(s0, s1, s2, s3, counter_lo, counter_hi);
    let s0_lo = s0;
    let s0_hi = s1;
    let s1_lo = lanes_add(s2, counter_lo);
    let s1_hi = lanes_add(s3, counter_hi);

    let t0_lo = vext_u64x2(s0_hi, s0_lo, 4);
    let t0_hi = vext_u64x2(s0_lo, s0_hi, 4);
    let t1_lo = vext_u64x2(s1_lo, s1_hi, 12);
    let t1_hi = vext_u64x2(s1_hi, s1_lo, 12);

    let u_lo = lanes_shr(s0_lo, 1);
    let u_hi = lanes_shr(s0_hi, 1);

    let n0 = lanes_add(t0_lo, u_lo);
    let n1 = lanes_add(t0_hi, u_hi);
    let n2 = lanes_add(t1_lo, lanes_shr(s1_lo, 3));
    let n3 = lanes_add(t1_hi, lanes_shr(s1_hi, 3));

    let o0 = lanes_xor(u_lo, t1_lo);
    let o1 = lanes_xor(u_hi, t1_hi);

    proof {
        assert(s1_lo@ == seq![g[4], g[5]]);
        assert(s1_hi@ == seq![g[6], g[7]]);
        assert(dword(t0_lo@, 0) == dword(s0_hi@, 1) && dword(t0_lo@, 1) == dword(s0_hi@, 2));
        assert(dword(t0_lo@, 2) == dword(s0_hi@, 3) && dword(t0_lo@, 3) == dword(s0_lo@, 0));
        lemma_lane_from_halves(t0_lo@[0], g[2], g[3]);
        lemma_lane_from_halves(t0_lo@[1], g[3], g[0]);
        assert(dword(t0_hi@, 0) == dword(s0_lo@, 1) && dword(t0_hi@, 1) == dword(s0_lo@, 2));
        assert(dword(t0_hi@, 2) == dword(s0_lo@, 3) && dword(t0_hi@, 3) == dword(s0_hi@, 0));
        lemma_lane_from_halves(t0_hi@[0], g[0], g[1]);
        lemma_lane_from_halves(t0_hi@[1], g[1], g[2]);
        assert(dword(t1_lo@, 0) == dword(s1_lo@, 3) && dword(t1_lo@, 1) == dword(s1_hi@, 0));
        assert(dword(t1_lo@, 2) == dword(s1_hi@, 1) && dword(t1_lo@, 3) == dword(s1_hi@, 2));
        lemma_lane_from_halves(t1_lo@[0], g[5], g[6]);
        lemma_lane_from_halves(t1_lo@[1], g[6], g[7]);
        assert(dword(t1_hi@, 0) == dword(s1_hi@, 3) && dword(t1_hi@, 1) == dword(s1_lo@, 0));
        assert(dword(t1_hi@, 2) == dword(s1_lo@, 1) && dword(t1_hi@, 3) == dword(s1_lo@, 2));
        lemma_lane_from_halves(t1_hi@[0], g[7], g[4]);
        lemma_lane_from_halves(t1_hi@[1], g[4], g[5]);

        assert(n0@ =~= seq![group_state(g, 0), group_state(g, 1)]);
        assert(n1@ =~= seq![group_state(g, 2), group_state(g, 3)]);
        assert(n2@ =~= seq![group_state(g, 4), group_state(g, 5)]);
        assert(n3@ =~= seq![group_state(g, 6), group_state(g, 7)]);
        assert(o0@ =~= seq![group_out(g, 0), group_out(g, 1)]);
        assert(o1@ =~= seq![group_out(g, 2), group_out(g, 3)]);
    }
    (n0, n1, n2, n3, o0, o1)
}

impl State {
    /// One round on the vectors.
    fn round_halves(&mut self)
        ensures
            words2(final(self).state@) == next_state(old(self)@),
            forall|i: int|
                0 <= i < 8 ==> #[trigger] words2(final(self).output@)[i] == next_output(
                    old(self)@,
                )[i],
            final(self).counter == old(self).counter,
    {
        let ghost m = self@;
        let mut j: usize = 0;
        while j < 2
            invariant
                j <= 2,
                self.counter == old(self).counter,
                self.state@.len() == 8,
                self.output@.len() == 8,
                words2(self.counter@) == m.counter,
                forall|i: int|
                    8 * j <= i < 16 ==> #[trigger] words2(self.state@)[i] == m.state[i],
                forall|i: int|
                    0 <= i < 8 * j ==> #[trigger] words2(self.state@)[i] == next_state(m)[i],
                forall|i: int|
                    0 <= i < 4 * j ==> #[trigger] words2(self.output@)[i] == next_output(m)[i],
            decreases 2 - j,
        {
            proof {
                let g = half_group(
                    self.state[4 * j as int],
                    self.state[4 * j + 1],
                    self.state[4 * j + 2],
                    self.state[4 * j + 3],
                    self.counter[0],
                    self.counter[1],
                );
                assert forall|k: int| 0 <= k < 8 implies #[trigger] g[k] == counted_group(
                    m,
                    j as int,
                )[k] by {
                    let i = 8 * j + k;
                    assert(words2(self.state@)[i] == m.state[i]);
                    assert(i / 2 == 4 * j + k / 2);
                    assert(i % 2 == k % 2);
                    if k >= 4 {
                        assert(m.counter[k - 4] == words2(self.counter@)[k - 4]);
                    }
                }
                assert(g =~= counted_group(m, j as int));
            }
            let ghost old_state = self.state@;
            let ghost old_output = self.output@;
            let r = round_half(
                self.state[4 * j],
                self.state[4 * j + 1],
                self.state[4 * j + 2],
                self.state[4 * j + 3],
                self.counter[0],
                self.counter[1],
            );
            self.state[4 * j] = r.0;
            self.state[4 * j + 1] = r.1;
            self.state[4 * j + 2] = r.2;
            self.state[4 * j + 3] = r.3;
            self.output[2 * j] = r.4;
            self.output[2 * j + 1] = r.5;
            proof {
                let g = counted_group(m, j as int);
                assert forall|i: int| 0 <= i < 8 * (j + 1) implies #[trigger] words2(self.state@)[i]
                    == next_state(m)[i] by {
                    if i >= 8 * j {
                        let k = i - 8 * j;
                        assert(i / 8 == j);
                        assert(i % 8 == k);
                        assert(i / 2 == 4 * j + k / 2);
                        assert(i % 2 == k % 2);
                    } else {
                        assert(i / 2 < 4 * j);
                        assert(words2(old_state)[i] == next_state(m)[i]);
                    }
                }
                assert forall|i: int| 8 * (j + 1) <= i < 16 implies #[trigger] words2(
                    self.state@,
                )[i] == m.state[i] by {
                    assert(i / 2 >= 4 * j + 4);
                    assert(words2(old_state)[i] == m.state[i]);
                }
                assert forall|i: int| 0 <= i < 4 * (j + 1) implies #[trigger] words2(self.output@)[i]
                    == next_output(m)[i] by {
                    if i >= 4 * j {
                        let k = i - 4 * j;
                        assert(i / 4 == j);
                        assert(i % 4 == k);
                        assert(i / 2 == 2 * j + k / 2);
                        assert(i % 2 == k % 2);
                    } else {
                        assert(i / 2 < 2 * j);
                        assert(words2(old_output)[i] == next_output(m)[i]);
                    }
                }
            }
            j = j + 1;
        }

        assert(words2(self.state@) =~= next_state(m));
    }

    /// One round on the vectors.
    fn round(&mut self)
        ensures
            final(self)@ == round(old(self)@),
    {
        let ghost m = self@;
        let increment_lo = set_u64x2(7, 5);
        let increment_hi = set_u64x2(3, 1);
        self.round_halves();
        let ghost mid = self.output@;
        self.output[4] = lanes_xor(self.state[0], self.state[6]);
        self.output[5] = lanes_xor(self.state[1], self.state[7]);
        self.output[6] = lanes_xor(self.state[2], self.state[4]);
        self.output[7] = lanes_xor(self.state[3], self.state[5]);

        self.counter[0] = lanes_add(self.counter[0], increment_lo);
        self.counter[1] = lanes_add(self.counter[1], increment_hi);
        proof {
            let o = words2(self.output@);
            let w = words2(self.state@);
            let no = next_output(m);
            assert(o[8] == no[8] && o[9] == no[9]) by {
                assert(o[8] == w[0] ^ w[12] && o[9] == w[1] ^ w[13]);
            }
            assert(o[10] == no[10] && o[11] == no[11]) by {
                assert(o[10] == w[2] ^ w[14] && o[11] == w[3] ^ w[15]);
            }
            assert(o[12] == no[12] && o[13] == no[13]) by {
                assert(o[12] == w[4] ^ w[8] && o[13] == w[5] ^ w[9]);
                lemma_xor_commutes(w[4], w[8]);
                lemma_xor_commutes(w[5], w[9]);
            }
            assert(o[14] == no[14] && o[15] == no[15]) by {
                assert(o[14] == w[6] ^ w[10] && o[15] == w[7] ^ w[11]);
                lemma_xor_commutes(w[6], w[10]);
                lemma_xor_commutes(w[7], w[11]);
            }
            assert forall|i: int| 0 <= i < 8 implies #[trigger] o[i] == no[i] by {
                assert(words2(mid)[i] == no[i]);
            }
            assert(words2(self.output@) =~= next_output(m));
            assert(words2(self.counter@) =~= next_counter(m));
        }
    }

    /// Writes the little-endian encoding of the output words to
    /// `dest[at..at + 128]`.
    fn store_output(&self, dest: &mut [u8], at: usize)
        requires
            at + 128 <= old(dest)@.len(),
        ensures
            final(dest)@.len() == old(dest)@.len(),
            forall|i: int|
                0 <= i < final(dest)@.len() ==> #[trigger] final(dest)@[i] == if at <= i < at
                    + 128 {
                    byte_of(self@.output[(i - at) / 8], (i - at) % 8)
                } else {
                    old(dest)@[i]
                },
    {
        let ghost m = self@;
        let ghost before = dest@;
        let len = dest.len();
        let mut index: usize = 0;
        while index < 8
            invariant
                index <= 8,
                at + 128 <= len,
                len == dest@.len(),
                words2(self.output@) == m.output,
                forall|i: int|
                    0 <= i < dest@.len() ==> #[trigger] dest@[i] == if at <= i < at + 16
                        * index {
                        byte_of(m.output[(i - at) / 8], (i - at) % 8)
                    } else {
                        before[i]
                    },
            decreases 8 - index,
        {
            let ghost prev = dest@;
            store_lanes(dest, at + index * 16, self.output[index]);
            proof {
                assert forall|i: int|
                    at + 16 * index <= i < at + 16 * index + 16 implies #[trigger] dest@[i]
                    == byte_of(m.output[(i - at) / 8], (i - at) % 8) by {
                    let p = i - at - 16 * index;
                    assert((i - at) / 8 == 2 * index + p / 8);
                    assert((i - at) % 8 == p % 8);
                }
            }
            index = index + 1;
        }
    }

    /// Writes `blocks` blocks of the stream to `dest` from `start` on.
    pub(crate) fn generate_blocks(&mut self, dest: &mut [u8], start: usize, blocks: usize)
        requires
            start + 128 * blocks <= old(dest)@.len(),
        ensures
            holds_stream(final(dest)@, old(dest)@, start as int, 128 * blocks, old(self)@),
            final(self)@ == rounds(old(self)@, blocks as nat),
    {
        let ghost m0 = self@;
        let ghost d0 = dest@;
        let len = dest.len();
        let mut c: usize = 0;
        while c < blocks
            invariant
                c <= blocks,
                len == dest@.len(),
                start + 128 * blocks <= len,
                self@ == rounds(m0, c as nat),
                holds_stream(dest@, d0, start as int, 128 * c, m0),
            decreases blocks - c,
        {
            let at = start + c * BLOCK_BYTES;
            self.store_output(dest, at);
            proof {
                assert forall|i: int| 0 <= i < dest@.len() implies #[trigger] dest@[i] == if start
                    <= i < start + 128 * (c + 1) {
                    stream_byte(m0, i - start)
                } else {
                    d0[i]
                } by {
                    if at <= i < at + 128 {
                        lemma_stream_block(m0, c as nat, i - at);
                    }
                }
            }
            self.round();
            c = c + 1;
        }
    }

    /// The output vectors, in reverse order of their pairs, become the state.
    fn reseed(&mut self)
        ensures
            final(self)@ == reseed(old(self)@),
    {
        let ghost out = words2(self.output@);
        self.state[0] = self.output[6];
        self.state[1] = self.output[7];
        self.state[2] = self.output[4];
        self.state[3] = self.output[5];
        self.state[4] = self.output[2];
        self.state[5] = self.output[3];
        self.state[6] = self.output[0];
        self.state[7] = self.output[1];
        assert forall|i: int| 0 <= i < 16 implies #[trigger] words2(self.state@)[i] == out[(3 - i
            / 4) * 4 + i % 4] by {
            let j = (3 - i / 4) * 4 + i % 4;
            assert(j / 2 == 6 - 2 * (i / 4) + (i / 2) % 2);
            assert(j % 2 == i % 2);
        }
        assert(words2(self.state@) =~= reseed(old(self)@).state);
    }

    /// A state seeded with `seed` and put through the warm-up rounds.
    pub fn new(seed: [u64; 4]) -> (s: Self)
        ensures
            s@ == init_model(seed@),
    {
        let zero = [0u64; 2];
        let mut state = Self {
            state: [
                lanes_xor(set_u64x2(seed[0], 0), load_phi(0)),
                lanes_xor(set_u64x2(seed[1], 0), load_phi(2)),
                lanes_xor(set_u64x2(seed[2], 0), load_phi(4)),
                lanes_xor(set_u64x2(seed[3], 0), load_phi(6)),
                lanes_xor(set_u64x2(seed[2], 0), load_phi(8)),
                lanes_xor(set_u64x2(seed[3], 0), load_phi(10)),
                lanes_xor(set_u64x2(seed[0], 0), load_phi(12)),
                lanes_xor(set_u64x2(seed[1], 0), load_phi(14)),
            ],
            output: [zero; 8],
            counter: [zero; 2],
        };
        proof {
            let m = seeded(seed@);
            assert forall|i: int| 0 <= i < 16 implies #[trigger] words2(state.state@)[i]
                == m.state[i] by {
                lemma_xor_zero(PHI@[i]);
                lemma_xor_commutes(PHI@[i], seed@[seed_index(i)]);
            }
            assert(words2(state.state@) =~= m.state);
            assert(words2(state.output@) =~= m.output);
            assert(words2(state.counter@) =~= m.counter);
        }

        let mut buffer = [0u8; 128];
        let mut t: usize = 0;
        while t < WARMUP_ROUNDS
            invariant
                t <= WARMUP_ROUNDS,
                buffer@.len() == 128,
                state@ == warmup(seeded(seed@), t as nat),
            decreases WARMUP_ROUNDS - t,
        {
            let ghost prev = state@;
            state.generate_blocks(&mut buffer, 0, 1);
            proof {
                lemma_rounds_one(prev);
            }
            state.reseed();
            t = t + 1;
        }
        state
    }

    /// Returns the pending output words and advances the state one round.
    pub fn round_unpack(&mut self) -> (words: [u64; 16])
        ensures
            words@ == old(self)@.output,
            final(self)@ == round(old(self)@),
    {
        let ghost m = self@;
        let mut bytes = [0u8; 128];
        self.generate_blocks(&mut bytes, 0, 1);
        proof {
            lemma_decode_block(m, bytes@);
            lemma_rounds_one(m);
        }
        let words = bytes_to_u64s(&bytes);
        assert(words@ =~= m.output);
        words
    }

    /// Fills `output_slice`, whose length is a multiple of 128, with the
    /// stream.
    pub fn generate_bytes(&mut self, output_slice: &mut [u8])
        requires
            old(output_slice)@.len() % 128 == 0,
        ensures
            holds_stream(
                final(output_slice)@,
                old(output_slice)@,
                0,
                old(output_slice)@.len() as int,
                old(self)@,
            ),
            final(self)@ == rounds(old(self)@, (old(output_slice)@.len() / 128) as nat),
    {
        let blocks = output_slice.len() / BLOCK_BYTES;
        self.generate_blocks(output_slice, 0, blocks);
    }
}

} // verus!
