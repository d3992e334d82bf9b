//! The portable backend: the state as plain arrays of 64-bit words.
use vstd::prelude::*;

use crate::le::store_block;
use crate::model::{
    counted_group, group_mix, group_out, group_state, holds_stream, init_model,
    lemma_stream_block, next_counter, next_output, next_state, reseed, round, rounds, seeded, shuf,
    stream_byte, warmup, Model, BLOCK_BYTES, PHI, WARMUP_ROUNDS,
};

verus! {

/// Word offsets read by the 32-bit shuffle of a round (see `shuf`).
const SHUF_OFFSETS: [usize; 16] = [2, 3, 0, 1, 5, 6, 7, 4, 3, 0, 1, 2, 6, 7, 4, 5];

proof fn lemma_shuf_offsets()
    ensures
        forall|k: int| 0 <= k < 16 ==> #[trigger] SHUF_OFFSETS@[k] == shuf(k),
{
    assert(SHUF_OFFSETS@ =~= seq![2usize, 3, 0, 1, 5, 6, 7, 4, 3, 0, 1, 2, 6, 7, 4, 5]);
}

#[derive(Copy, Clone)]
pub struct State {
    state: [u64; 16],
    output: [u64; 16],
    counter: [u64; 4],
}

impl View for State {
    type V = Model;

    closed spec fn view(&self) -> Model {
        Model { state: self.state@, output: self.output@, counter: self.counter@ }
    }
}

impl State {
    /// One round: the counter is added in, each group of eight words is
    /// shifted and mixed, and the output words are formed.
    fn round(&mut self)
        ensures
            final(self)@ == round(old(self)@),
    {
        let ghost m = self@;
        proof {
            lemma_shuf_offsets();
        }
        let mut j: usize = 0;
        while j < 2
            invariant
                j <= 2,
                self.counter@ == m.counter,
                self.state@.len() == 16,
                self.output@.len() == 16,
                forall|i: int| 8 * j <= i < 16 ==> #[trigger] self.state@[i] == m.state[i],
                forall|i: int| 0 <= i < 8 * j ==> #[trigger] self.state@[i] == next_state(m)[i],
                forall|i: int|
                    0 <= i < 4 * j ==> #[trigger] self.output@[i] == next_output(m)[i],
                forall|k: int| 0 <= k < 16 ==> #[trigger] SHUF_OFFSETS@[k] == shuf(k),
            decreases 2 - j,
        {
            let state_offset = j * 8;
            let output_offset = j * 4;
            let ghost g = counted_group(m, j as int);
            let mut temp = [0u64; 8];

            let mut k: usize = 0;
            while k < 4
                invariant
                    k <= 4,
                    j < 2,
                    state_offset == 8 * j,
                    g == counted_group(m, j as int),
                    self.counter@ == m.counter,
                    self.state@.len() == 16,
                    self.output@.len() == 16,
                    forall|i: int|
                        0 <= i < 8 * j ==> #[trigger] self.state@[i] == next_state(m)[i],
                    forall|i: int| 8 * j + 8 <= i < 16 ==> #[trigger] self.state@[i] == m.state[i],
                    forall|i: int|
                        0 <= i < 4 * j ==> #[trigger] self.output@[i] == next_output(m)[i],
                    forall|i: int|
                        8 * j <= i < 8 * j + 4 + k ==> #[trigger] self.state@[i] == g[i - 8 * j],
                    forall|i: int|
                        8 * j + 4 + k <= i < 8 * j + 8 ==> #[trigger] self.state@[i] == m.state[i],
                decreases 4 - k,
            {
                self.state[state_offset + k + 4] = self.state[state_offset + k + 4].wrapping_add(
                    self.counter[k],
                );
                k = k + 1;
            }

            let mut k: usize = 0;
            while k < 8
                invariant
                    k <= 8,
                    j < 2,
                    state_offset == 8 * j,
                    self.state@.len() == 16,
                    forall|i: int|
                        8 * j <= i < 8 * j + 8 ==> #[trigger] self.state@[i] == g[i - 8 * j],
                    forall|i: int| 0 <= i < k ==> #[trigger] temp@[i] == group_mix(g, i),
                    forall|k: int| 0 <= k < 16 ==> #[trigger] SHUF_OFFSETS@[k] == shuf(k),
                decreases 8 - k,
            {
                temp[k] = (self.state[state_offset + SHUF_OFFSETS[k]] >> 32) | (self.state[state_offset
                    + SHUF_OFFSETS[k + 8]] << 32);
                k = k + 1;
            }

            let mut k: usize = 0;
            while k < 4
                invariant
                    k <= 4,
                    j < 2,
                    state_offset == 8 * j,
                    output_offset == 4 * j,
                    g == counted_group(m, j as int),
                    self.counter@ == m.counter,
                    self.state@.len() == 16,
                    self.output@.len() == 16,
                    forall|i: int| 0 <= i < 8 ==> #[trigger] temp@[i] == group_mix(g, i),
                    forall|i: int|
                        0 <= i < 8 * j ==> #[trigger] self.state@[i] == next_state(m)[i],
                    forall|i: int| 8 * j + 8 <= i < 16 ==> #[trigger] self.state@[i] == m.state[i],
                    forall|i: int|
                        0 <= i < 4 * j ==> #[trigger] self.output@[i] == next_output(m)[i],
                    forall|i: int|
                        4 * j <= i < 4 * j + k ==> #[trigger] self.output@[i] == next_output(m)[i],
                    forall|i: int|
                        (8 * j <= i < 8 * j + k || 8 * j + 4 <= i < 8 * j + 4 + k)
                            ==> #[trigger] self.state@[i] == next_state(m)[i],
                    forall|i: int|
                        (8 * j + k <= i < 8 * j + 4 || 8 * j + 4 + k <= i < 8 * j + 8)
                            ==> #[trigger] self.state@[i] == g[i - 8 * j],
                decreases 4 - k,
            {
                proof {
                    let lo = 8 * j + k;
                    let hi = 8 * j + k + 4;
                    let o = 4 * j + k;
                    assert(lo / 8 == j && lo % 8 == k);
                    assert(hi / 8 == j && hi % 8 == k + 4);
                    assert(o / 4 == j && o % 4 == k);
                    assert(next_state(m)[lo] == group_state(g, k as int));
                    assert(next_state(m)[hi] == group_state(g, k + 4));
                    assert(next_output(m)[o] == group_out(g, k as int));
                }
                let u_lo = self.state[state_offset + k] >> 1;
                let u_hi = self.state[state_offset + k + 4] >> 3;

                self.state[state_offset + k] = u_lo.wrapping_add(temp[k]);
                self.state[state_offset + k + 4] = u_hi.wrapping_add(temp[k + 4]);
                self.output[output_offset + k] = u_lo ^ temp[k + 4];
                k = k + 1;
            }
            j = j + 1;
        }

        let ghost n = next_state(m);
        let mut j: usize = 0;
        while j < 4
            invariant
                j <= 4,
                self.state@ == n,
                n == next_state(m),
                self.output@.len() == 16,
                self.counter@.len() == 4,
                forall|i: int| 0 <= i < 8 ==> #[trigger] self.output@[i] == next_output(m)[i],
                forall|i: int|
                    8 <= i < 16 && (i - 8) % 4 < j ==> #[trigger] self.output@[i]
                        == next_output(m)[i],
                forall|i: int| 0 <= i < j ==> #[trigger] self.counter@[i] == next_counter(m)[i],
                forall|i: int| j <= i < 4 ==> #[trigger] self.counter@[i] == m.counter[i],
            decreases 4 - j,
        {
            self.output[j + 8] = self.state[j] ^ self.state[j + 12];
            self.output[j + 12] = self.state[j + 8] ^ self.state[j + 4];
            self.counter[j] = self.counter[j].wrapping_add(7 - (j as u64 * 2));
            j = j + 1;
        }
        assert(self.state@ =~= next_state(m));
        assert(self.output@ =~= next_output(m));
        assert(self.counter@ =~= next_counter(m));
    }

    /// A state seeded with `seed` and put through the warm-up rounds.
    pub fn new(seed: [u64; 4]) -> (s: Self)
        ensures
            s@ == init_model(seed@),
    {
        let mut state = Self { state: PHI, output: [0; 16], counter: [0; 4] };

        let mut i: usize = 0;
        while i < 4
            invariant
                i <= 4,
                state.output@ == seeded(seed@).output,
                state.counter@ == seeded(seed@).counter,
                forall|k: int|
                    0 <= k < 16 ==> #[trigger] state.state@[k] == if (k < 2 * i || 8 <= k < 8 + 2
                        * i) && k % 2 == 0 {
                        seeded(seed@).state[k]
                    } else {
                        PHI@[k]
                    },
            decreases 4 - i,
        {
            state.state[i * 2] = state.state[i * 2] ^ seed[i];
            state.state[i * 2 + 8] = state.state[i * 2 + 8] ^ seed[(i + 2) % 4];
            i = i + 1;
        }
        assert(state.state@ =~= seeded(seed@).state);
        assert(state.output@ =~= seeded(seed@).output);
        assert(state.counter@ =~= seeded(seed@).counter);

        let mut t: usize = 0;
        while t < WARMUP_ROUNDS
            invariant
                t <= WARMUP_ROUNDS,
                state@ == warmup(seeded(seed@), t as nat),
            decreases WARMUP_ROUNDS - t,
        {
            state.round();
            state.state[0] = state.output[12];
            state.state[1] = state.output[13];
            state.state[2] = state.output[14];
            state.state[3] = state.output[15];
            state.state[4] = state.output[8];
            state.state[5] = state.output[9];
            state.state[6] = state.output[10];
            state.state[7] = state.output[11];
            state.state[8] = state.output[4];
            state.state[9] = state.output[5];
            state.state[10] = state.output[6];
            state.state[11] = state.output[7];
            state.state[12] = state.output[0];
            state.state[13] = state.output[1];
            state.state[14] = state.output[2];
            state.state[15] = state.output[3];
            assert(state.state@ =~= reseed(round(warmup(seeded(seed@), t as nat))).state);
            t = t + 1;
        }
        state
    }

    /// Returns the pending output words and advances the state one round.
    pub fn round_unpack(&mut self) -> (words: [u64; 16])
        ensures
            words@ == old(self)@.output,
            final(self)@ == round(old(self)@),
    {
        let output = self.output;
        self.round();
        output
    }

    /// Fills `output_slice`, whose length is a multiple of 128, with the
    /// stream: block after block of the pending output words in
    /// little-endian order, one round per block.
    pub fn generate_bytes(&mut self, output_slice: &mut [u8])
        requires
            old(output_slice)@.len() % 128 == 0,
        ensures
            holds_stream(
                final(output_slice)@,
                old(output_slice)@,
                0,
                old(output_slice)@.len() as int,
                old(self)@,
            ),
            final(self)@ == rounds(old(self)@, (old(output_slice)@.len() / 128) as nat),
    {
        let blocks = output_slice.len() / BLOCK_BYTES;
        self.generate_blocks(output_slice, 0, blocks);
    }

    /// Writes `blocks` blocks of the stream to `dest` from `start` on.
    pub(crate) fn generate_blocks(&mut self, dest: &mut [u8], start: usize, blocks: usize)
        requires
            start + 128 * blocks <= old(dest)@.len(),
        ensures
            holds_stream(final(dest)@, old(dest)@, start as int, 128 * blocks, old(self)@),
            final(self)@ == rounds(old(self)@, blocks as nat),
    {
        let ghost m0 = self@;
        let ghost d0 = dest@;
        let len = dest.len();
        let mut c: usize = 0;
        while c < blocks
            invariant
                c <= blocks,
                len == dest@.len(),
                start + 128 * blocks <= len,
                self@ == rounds(m0, c as nat),
                holds_stream(dest@, d0, start as int, 128 * c, m0),
            decreases blocks - c,
        {
            let ghost before = dest@;
            store_block(dest, start + c * BLOCK_BYTES, &self.output);
            proof {
                assert forall|i: int| 0 <= i < dest@.len() implies #[trigger] dest@[i] == if start
                    <= i < start + 128 * (c + 1) {
                    stream_byte(m0, i - start)
                } else {
                    d0[i]
                } by {
                    if start + 128 * c <= i < start + 128 * (c + 1) {
                        lemma_stream_block(m0, c as nat, i - start - 128 * c);
                    }
                }
            }
            self.round();
            c = c + 1;
        }
    }
}

} // verus!
