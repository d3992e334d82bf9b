//! The AVX2 backend: the state held in four 256-bit vectors, four words each,
//! and a round computed with 32-bit permutes, shifts, adds and xors.
use vstd::prelude::*;

use crate::le::{bytes_to_u64s, lemma_decode_block};
use crate::model::{
    byte_of, counted_group, group_out, group_state, holds_stream, init_model, lemma_rounds_one,
    lemma_stream_block, next_counter, next_output, next_state, reseed, round, rounds, seeded,
    stream_byte, warmup, Model, BLOCK_BYTES, PHI, WARMUP_ROUNDS,
};
use crate::simd::{
    dword, lanes_add, lanes_shr, lanes_xor, lemma_lane_from_halves, permute_dwords, store_lanes, words4,
};

verus! {

#[derive(Copy, Clone)]
pub struct State {
    state: [[u64; 4]; 4],
    output: [[u64; 4]; 4],
    counter: [u64; 4],
}

impl View for State {
    type V = Model;

    closed spec fn view(&self) -> Model {
        Model { state: words4(self.state@), output: words4(self.output@), counter: self.counter@ }
    }
}

/// The vector whose lanes, from the highest down, are `e3, e2, e1, e0`
/// (`_mm256_set_epi64x`).
fn set_epi64x(e3: u64, e2: u64, e1: u64, e0: u64) -> (v: [u64; 4])
    ensures
        v@ == seq![e0, e1, e2, e3],
{
    let v = [e0, e1, e2, e3];
    assert(v@ =~= seq![e0, e1, e2, e3]);
    v
}

/// The 32-bit word indices, lowest first, of the shuffle applied to the lower
/// vector of a group.
fn shuffle0() -> (idx: [u32; 8])
    ensures
        idx@ == seq![5u32, 6, 7, 0, 1, 2, 3, 4],
{
    let idx = [5u32, 6, 7, 0, 1, 2, 3, 4];
    assert(idx@ =~= seq![5u32, 6, 7, 0, 1, 2, 3, 4]);
    idx
}

/// The 32-bit word indices, lowest first, of the shuffle applied to the upper
/// vector of a group.
fn shuffle1() -> (idx: [u32; 8])
    ensures
        idx@ == seq![3u32, 4, 5, 6, 7, 0, 1, 2],
{
    let idx = [3u32, 4, 5, 6, 7, 0, 1, 2];
    assert(idx@ =~= seq![3u32, 4, 5, 6, 7, 0, 1, 2]);
    idx
}

/// One group of a round: `lo` is the lower vector and `hi` the upper vector
/// with the counter already added; returns the two new state vectors and
/// the output vector.
fn round_group(lo: [u64; 4], hi: [u64; 4]) -> (r: ([u64; 4], [u64; 4], [u64; 4]))
    ensures
        ({
            let g = lo@ + hi@;
            &&& r.0@ == seq![
                group_state(g, 0),
                group_state(g, 1),
                group_state(g, 2),
                group_state(g, 3),
            ]
            &&& r.1@ == seq![
                group_state(g, 4),
                group_state(g, 5),
                group_state(g, 6),
                group_state(g, 7),
            ]
            &&& r.2@ == seq![group_out(g, 0), group_out(g, 1), group_out(g, 2), group_out(g, 3)]
        }),
{
    let ghost g = lo@ + hi@;
    let u0 = lanes_shr(lo, 1);
    let u1 = lanes_shr(hi, 3);
    let t0 = permute_dwords(lo, shuffle0());
    let t1 = permute_dwords(hi, shuffle1());
    let n0 = lanes_add(t0, u0);
    let n1 = lanes_add(t1, u1);
    let o = lanes_xor(u0, t1);
    proof {
        assert(g.len() == 8);
        assert(dword(t0@, 0) == dword(lo@, 5) && dword(t0@, 1) == dword(lo@, 6));
        assert(dword(t0@, 2) == dword(lo@, 7) && dword(t0@, 3) == dword(lo@, 0));
        assert(dword(t0@, 4) == dword(lo@, 1) && dword(t0@, 5) == dword(lo@, 2));
        assert(dword(t0@, 6) == dword(lo@, 3) && dword(t0@, 7) == dword(lo@, 4));
        assert(dword(t1@, 0) == dword(hi@, 3) && dword(t1@, 1) == dword(hi@, 4));
        assert(dword(t1@, 2) == dword(hi@, 5) && dword(t1@, 3) == dword(hi@, 6));
        assert(dword(t1@, 4) == dword(hi@, 7) && dword(t1@, 5) == dword(hi@, 0));
        assert(dword(t1@, 6) == dword(hi@, 1) && dword(t1@, 7) == dword(hi@, 2));
        lemma_lane_from_halves(t0@[0], g[2], g[3]);
        lemma_lane_from_halves(t0@[1], g[3], g[0]);
        lemma_lane_from_halves(t0@[2], g[0], g[1]);
        lemma_lane_from_halves(t0@[3], g[1], g[2]);
        lemma_lane_from_halves(t1@[0], g[5], g[6]);
        lemma_lane_from_halves(t1@[1], g[6], g[7]);
        lemma_lane_from_halves(t1@[2], g[7], g[4]);
        lemma_lane_from_halves(t1@[3], g[4], g[5]);
        assert(n0@ =~= seq![group_state(g, 0), group_state(g, 1), group_state(g, 2), group_state(g, 3)]);
        assert(n1@ =~= seq![group_state(g, 4), group_state(g, 5), group_state(g, 6), group_state(g, 7)]);
        assert(o@ =~= seq![group_out(g, 0), group_out(g, 1), group_out(g, 2), group_out(g, 3)]);
    }
    (n0, n1, o)
}

impl State {
    /// One round on the vectors.
    fn round(&mut self)
        ensures
            final(self)@ == round(old(self)@),
    {
        let ghost m = self@;
        let increment = set_epi64x(1, 3, 5, 7);
        let c1 = lanes_add(self.state[1], self.counter);
        let c3 = lanes_add(self.state[3], self.counter);
        self.counter = lanes_add(self.counter, increment);
        proof {
            assert(self.state[0]@ + c1@ =~= counted_group(m, 0));
            assert(self.state[2]@ + c3@ =~= counted_group(m, 1));
        }

        let (s0, s1, o0) = round_group(self.state[0], c1);
        let (s2, s3, o1) = round_group(self.state[2], c3);
        self.state = [s0, s1, s2, s3];
        self.output = [o0, o1, lanes_xor(s0, s3), lanes_xor(s2, s1)];
        proof {
            assert(words4(self.state@) =~= next_state(m));
            assert(words4(self.output@) =~= next_output(m));
            assert(self.counter@ =~= next_counter(m));
        }
    }

    /// Writes the little-endian encoding of the output words to
    /// `dest[at..at + 128]`.
    fn store_output(&self, dest: &mut [u8], at: usize)
        requires
            at + 128 <= old(dest)@.len(),
        ensures
            final(dest)@.len() == old(dest)@.len(),
            forall|i: int|
                0 <= i < final(dest)@.len() ==> #[trigger] final(dest)@[i] == if at <= i < at
                    + 128 {
                    byte_of(self@.output[(i - at) / 8], (i - at) % 8)
                } else {
                    old(dest)@[i]
                },
    {
        let ghost m = self@;
        let ghost before = dest@;
        let len = dest.len();
        let mut index: usize = 0;
        while index < 4
            invariant
                index <= 4,
                at + 128 <= len,
                len == dest@.len(),
                words4(self.output@) == m.output,
                forall|i: int|
                    0 <= i < dest@.len() ==> #[trigger] dest@[i] == if at <= i < at + 32
                        * index {
                        byte_of(m.output[(i - at) / 8], (i - at) % 8)
                    } else {
                        before[i]
                    },
            decreases 4 - index,
        {
            let ghost prev = dest@;
            store_lanes(dest, at + index * 32, self.output[index]);
            proof {
                assert forall|i: int|
                    at + 32 * index <= i < at + 32 * index + 32 implies #[trigger] dest@[i]
                    == byte_of(m.output[(i - at) / 8], (i - at) % 8) by {
                    let p = i - at - 32 * index;
                    assert((i - at) / 8 == 4 * index + p / 8);
                    assert((i - at) % 8 == p % 8);
                }
            }
            index = index + 1;
        }
    }

    /// Writes `blocks` blocks of the stream to `dest` from `start` on.
    pub(crate) fn generate_blocks(&mut self, dest: &mut [u8], start: usize, blocks: usize)
        requires
            start + 128 * blocks <= old(dest)@.len(),
        ensures
            holds_stream(final(dest)@, old(dest)@, start as int, 128 * blocks, old(self)@),
            final(self)@ == rounds(old(self)@, blocks as nat),
    {
        let ghost m0 = self@;
        let ghost d0 = dest@;
        let len = dest.len();
        let mut c: usize = 0;
        while c < blocks
            invariant
                c <= blocks,
                len == dest@.len(),
                start + 128 * blocks <= len,
                self@ == rounds(m0, c as nat),
                holds_stream(dest@, d0, start as int, 128 * c, m0),
            decreases blocks - c,
        {
            let at = start + c * BLOCK_BYTES;
            self.store_output(dest, at);
            proof {
                assert forall|i: int| 0 <= i < dest@.len() implies #[trigger] dest@[i] == if start
                    <= i < start + 128 * (c + 1) {
                    stream_byte(m0, i - start)
                } else {
                    d0[i]
                } by {
                    if at <= i < at + 128 {
                        lemma_stream_block(m0, c as nat, i - at);
                    }
                }
            }
            self.round();
            c = c + 1;
        }
    }

    /// The output vectors, in reverse order, become the state.
    fn reseed(&mut self)
        ensures
            final(self)@ == reseed(old(self)@),
    {
        self.state[0] = self.output[3];
        self.state[1] = self.output[2];
        self.state[2] = self.output[1];
        self.state[3] = self.output[0];
        assert(words4(self.state@) =~= reseed(old(self)@).state);
    }

    /// A state seeded with `seed` and put through the warm-up rounds.
    pub fn new(seed: [u64; 4]) -> (s: Self)
        ensures
            s@ == init_model(seed@),
    {
        let zero = [0u64; 4];
        let mut state = Self {
            state: [
                set_epi64x(PHI[3], PHI[2] ^ seed[1], PHI[1], PHI[0] ^ seed[0]),
                set_epi64x(PHI[7], PHI[6] ^ seed[3], PHI[5], PHI[4] ^ seed[2]),
                set_epi64x(PHI[11], PHI[10] ^ seed[3], PHI[9], PHI[8] ^ seed[2]),
                set_epi64x(PHI[15], PHI[14] ^ seed[1], PHI[13], PHI[12] ^ seed[0]),
            ],
            output: [zero; 4],
            counter: zero,
        };
        proof {
            let m = seeded(seed@);
            assert(words4(state.state@) =~= m.state);
            assert(words4(state.output@) =~= m.output);
            assert(state.counter@ =~= m.counter);
        }

        let mut buffer = [0u8; 128];
        let mut t: usize = 0;
        while t < WARMUP_ROUNDS
            invariant
                t <= WARMUP_ROUNDS,
                buffer@.len() == 128,
                state@ == warmup(seeded(seed@), t as nat),
            decreases WARMUP_ROUNDS - t,
        {
            let ghost prev = state@;
            state.generate_blocks(&mut buffer, 0, 1);
            proof {
                lemma_rounds_one(prev);
            }
            state.reseed();
            t = t + 1;
        }
        state
    }

    /// Returns the pending output words and advances the state one round.
    pub fn round_unpack(&mut self) -> (words: [u64; 16])
        ensures
            words@ == old(self)@.output,
            final(self)@ == round(old(self)@),
    {
        let ghost m = self@;
        let mut bytes = [0u8; 128];
        self.generate_blocks(&mut bytes, 0, 1);
        proof {
            lemma_decode_block(m, bytes@);
            lemma_rounds_one(m);
        }
        let words = bytes_to_u64s(&bytes);
        assert(words@ =~= m.output);
        words
    }

    /// Fills `output_slice`, whose length is a multiple of 128, with the
    /// stream.
    pub fn generate_bytes(&mut self, output_slice: &mut [u8])
        requires
            old(output_slice)@.len() % 128 == 0,
        ensures
            holds_stream(
                final(output_slice)@,
                old(output_slice)@,
                0,
                old(output_slice)@.len() as int,
                old(self)@,
            ),
            final(self)@ == rounds(old(self)@, (old(output_slice)@.len() / 128) as nat),
    {
        let blocks = output_slice.len() / BLOCK_BYTES;
        self.generate_blocks(output_slice, 0, blocks);
    }
}

} // verus!
