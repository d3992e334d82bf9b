//! A byte-oriented wrapper around `ShiShuAState`, with the entry points that
//! a random number generator interface needs.
//!
//! An internal buffer splits the generator's 128-byte blocks into requests of
//! any size; what a caller sees does not depend on how the requests are cut.
use vstd::prelude::*;

use crate::le::{lemma_le_word_of_le_bytes, load_word, load_word32};
use crate::model::{
    init_model, le_bytes, le_word, le_word32, lemma_rounds_one, lemma_stream_skip, stream_byte, Model, BLOCK_BYTES,
};
use crate::state::{backend_label, Backend, ShiShuAState, TargetFeatures};

verus! {

/// What a `ShiShuARng` holds: the buffered bytes not handed out yet and the
/// generator that follows them.
pub struct RngView {
    pub pending: Seq<u8>,
    pub source: Model,
}

/// Byte `i` of everything the generator will still hand out: the pending
/// bytes, then the stream of the generator.
pub open spec fn future_byte(v: RngView, i: int) -> u8 {
    if i < v.pending.len() {
        v.pending[i]
    } else {
        stream_byte(v.source, i - v.pending.len())
    }
}

/// The next `n` bytes that will be handed out.
pub open spec fn future_bytes(v: RngView, n: nat) -> Seq<u8> {
    Seq::new(n, |i: int| future_byte(v, i))
}

/// `w` is everything `v` will hand out, less the first `n` bytes.
pub open spec fn advanced_by(w: RngView, v: RngView, n: int) -> bool {
    forall|i: int| 0 <= i ==> #[trigger] future_byte(w, i) == future_byte(v, i + n)
}

/// Two requests in a row, of `a` and then `b` bytes, hand out the same bytes
/// as one request of `a + b` bytes.
pub proof fn lemma_split_requests(v0: RngView, v1: RngView, a: nat, b: nat)
    requires
        advanced_by(v1, v0, a as int),
    ensures
        future_bytes(v0, a) + future_bytes(v1, b) == future_bytes(v0, a + b),
{
    assert forall|i: int| 0 <= i < a + b implies #[trigger] (future_bytes(v0, a) + future_bytes(
        v1,
        b,
    ))[i] == future_bytes(v0, a + b)[i] by {
        if i >= a {
            assert(future_byte(v1, i - a) == future_byte(v0, i - a + a));
        }
    }
    assert(future_bytes(v0, a) + future_bytes(v1, b) =~= future_bytes(v0, a + b));
}

/// Advancing by `a` and then by `b` advances by `a + b`.
pub proof fn lemma_advance_trans(v0: RngView, v1: RngView, v2: RngView, a: int, b: int)
    requires
        0 <= a,
        0 <= b,
        advanced_by(v1, v0, a),
        advanced_by(v2, v1, b),
    ensures
        advanced_by(v2, v0, a + b),
{
    assert forall|i: int| 0 <= i implies #[trigger] future_byte(v2, i) == future_byte(v0, i + a + b) by {
        assert(future_byte(v2, i) == future_byte(v1, i + b));
        assert(future_byte(v1, i + b) == future_byte(v0, i + b + a));
    }
}

/// A generator that hands out the stream of a `ShiShuAState` in pieces of
/// any size.
pub struct ShiShuARng {
    state: ShiShuAState,
    buffer: [u8; 128],
    buffer_index: usize,
}

impl View for ShiShuARng {
    type V = RngView;

    closed spec fn view(&self) -> RngView {
        RngView { pending: self.buffer@.subrange(self.buffer_index as int, 128), source: self.state@ }
    }
}

impl ShiShuARng {
    #[verifier::type_invariant]
    spec fn inv(self) -> bool {
        self.buffer_index <= 128
    }

    /// The backend of the wrapped generator.
    pub closed spec fn backend(&self) -> Backend {
        self.state.backend()
    }

    /// A generator seeded with `seed`, on the backend that `features` prefer.
    pub fn new(seed: [u64; 4], features: TargetFeatures) -> (r: Self)
        ensures
            r@.pending.len() == 0,
            r@.source == init_model(seed@),
            r.backend() == crate::state::preferred_backend(features),
    {
        Self::from_state(ShiShuAState::new(seed, features))
    }

    /// Wraps `state`; nothing is buffered yet, so the bytes handed out are
    /// exactly the stream of `state`.
    pub fn from_state(state: ShiShuAState) -> (r: Self)
        ensures
            r@.pending.len() == 0,
            r@.source == state@,
            r.backend() == state.backend(),
            forall|i: int| 0 <= i ==> #[trigger] future_byte(r@, i) == stream_byte(state@, i),
    {
        ShiShuARng { state, buffer: [0;128], buffer_index: BLOCK_BYTES }
    }

    pub fn new_scalar(seed: [u64; 4]) -> (r: Self)
        ensures
            r@.pending.len() == 0,
            r@.source == init_model(seed@),
            r.backend() == Backend::Scalar,
    {
        Self::from_state(ShiShuAState::new_scalar(seed))
    }

    /// A generator that always uses the SSE2 backend.
    pub fn new_sse2(seed: [u64; 4]) -> (r: Self)
        ensures
            r@.pending.len() == 0,
            r@.source == init_model(seed@),
            r.backend() == Backend::Sse2,
    {
        Self::from_state(ShiShuAState::new_sse2(seed))
    }

    /// A generator that always uses the SSSE3 backend.
    pub fn new_ssse3(seed: [u64; 4]) -> (r: Self)
        ensures
            r@.pending.len() == 0,
            r@.source == init_model(seed@),
            r.backend() == Backend::Ssse3,
    {
        Self::from_state(ShiShuAState::new_ssse3(seed))
    }

    /// A generator that always uses the AVX2 backend.
    pub fn new_avx2(seed: [u64; 4]) -> (r: Self)
        ensures
            r@.pending.len() == 0,
            r@.source == init_model(seed@),
            r.backend() == Backend::Avx2,
    {
        Self::from_state(ShiShuAState::new_avx2(seed))
    }

    /// A generator that always uses the NEON backend.
    pub fn new_neon(seed: [u64; 4]) -> (r: Self)
        ensures
            r@.pending.len() == 0,
            r@.source == init_model(seed@),
            r.backend() == Backend::Neon,
    {
        Self::from_state(ShiShuAState::new_neon(seed))
    }

    pub fn backend_name(&self) -> (name: &'static str)
        ensures
            name@ == backend_label(self.backend()),
    {
        self.state.backend_name()
    }

    /// The next byte: from the buffer, which is refilled with the next block
    /// of the stream when it runs empty.
    pub fn get_byte(&mut self) -> (b: u8)
        ensures
            b == future_byte(old(self)@, 0),
            advanced_by(final(self)@, old(self)@, 1),
            final(self).backend() == old(self).backend(),
    {
        proof {
            use_type_invariant(&*self);
        }
        let ghost v0 = self@;
        if self.buffer_index >= BLOCK_BYTES {
            let mut state = self.state;
            let mut buffer = self.buffer;
            state.generate_bytes(&mut buffer);
            self.state = state;
            self.buffer = buffer;
            self.buffer_index = 0;
            proof {
                lemma_rounds_one(v0.source);
                assert forall|i: int| 0 <= i implies #[trigger] future_byte(self@, i)
                    == future_byte(v0, i) by {
                    if i >= 128 {
                        lemma_stream_skip(v0.source, 1, i - 128);
                    }
                }
            }
        }
        let ghost mid = self@;
        let index = self.buffer_index;
        self.buffer_index = self.buffer_index + 1;
        proof {
            assert forall|i: int| 0 <= i implies #[trigger] future_byte(self@, i) == future_byte(
                mid,
                i + 1,
            ) by {}
        }
        self.buffer[index]
    }

    /// Copies the first `count` pending bytes to `dest[..count]`.
    fn drain_buffer(&mut self, dest: &mut [u8], count: usize)
        requires
            count <= old(self)@.pending.len(),
            count <= old(dest)@.len(),
        ensures
            final(dest)@.len() == old(dest)@.len(),
            forall|k: int|
                0 <= k < final(dest)@.len() ==> #[trigger] final(dest)@[k] == if k < count {
                    future_byte(old(self)@, k)
                } else {
                    old(dest)@[k]
                },
            final(self)@.pending == old(self)@.pending.subrange(
                count as int,
                old(self)@.pending.len() as int,
            ),
            final(self)@.source == old(self)@.source,
            advanced_by(final(self)@, old(self)@, count as int),
            final(self).backend() == old(self).backend(),
    {
        proof {
            use_type_invariant(&*self);
        }
        let ghost v0 = self@;
        let mut i: usize = 0;
        while i < count
            invariant
                i <= count,
                count <= dest@.len(),
                dest@.len() == old(dest)@.len(),
                self.buffer_index + count <= 128,
                self@ == v0,
                v0 == old(self)@,
                forall|k: int|
                    0 <= k < dest@.len() ==> #[trigger] dest@[k] == if k < i {
                        future_byte(v0, k)
                    } else {
                        old(dest)@[k]
                    },
            decreases count - i,
        {
            dest[i] = self.buffer[self.buffer_index + i];
            i = i + 1;
        }
        self.buffer_index = self.buffer_index + count;
        assert(self@.pending =~= v0.pending.subrange(count as int, v0.pending.len() as int));
    }

    /// Writes `blocks` blocks of the stream straight into `dest` from `start`
    /// on, when nothing is buffered.
    fn fill_blocks(&mut self, dest: &mut [u8], start: usize, blocks: usize)
        requires
            old(self)@.pending.len() == 0,
            start + 128 * blocks <= old(dest)@.len(),
        ensures
            final(dest)@.len() == old(dest)@.len(),
            forall|k: int|
                0 <= k < final(dest)@.len() ==> #[trigger] final(dest)@[k] == if start <= k < start
                    + 128 * blocks {
                    future_byte(old(self)@, k - start)
                } else {
                    old(dest)@[k]
                },
            final(self)@.pending.len() == 0,
            advanced_by(final(self)@, old(self)@, 128 * blocks),
            final(self).backend() == old(self).backend(),
    {
        proof {
            use_type_invariant(&*self);
        }
        let ghost v0 = self@;
        let mut state = self.state;
        state.generate_blocks(dest, start, blocks);
        self.state = state;
        assert forall|i: int| 0 <= i implies #[trigger] future_byte(self@, i) == future_byte(
            v0,
            i + 128 * blocks,
        ) by {
            lemma_stream_skip(v0.source, blocks as nat, i);
        }
    }

    /// Fills `dest` with the next `dest.len()` bytes: first those still
    /// buffered, then whole blocks written straight into `dest`, then the
    /// rest through the buffer.
    #[verifier::spinoff_prover]
    #[verifier::rlimit(40)]
    pub fn fill_bytes(&mut self, dest: &mut [u8])
        ensures
            final(dest)@.len() == old(dest)@.len(),
            final(dest)@ == future_bytes(old(self)@, old(dest)@.len()),
            advanced_by(final(self)@, old(self)@, old(dest)@.len() as int),
            final(self).backend() == old(self).backend(),
    {
        proof {
            use_type_invariant(&*self);
        }
        let ghost v0 = self@;
        let len = dest.len();
        let available = BLOCK_BYTES - self.buffer_index;
        let buffered = if available < len {
            available
        } else {
            len
        };
        self.drain_buffer(dest, buffered);
        let ghost v1 = self@;
        let ghost d1 = dest@;

        let remaining = len - buffered;
        let block_bytes = remaining / BLOCK_BYTES * BLOCK_BYTES;
        if block_bytes > 0 {
            self.fill_blocks(dest, buffered, block_bytes / BLOCK_BYTES);
        }
        let ghost v2 = self@;
        proof {
            lemma_advance_trans(v0, v1, v2, buffered as int, block_bytes as int);
            assert forall|k: int| 0 <= k < buffered + block_bytes implies #[trigger] dest@[k]
                == future_byte(v0, k) by {
                if k >= buffered {
                    assert(future_byte(v1, k - buffered) == future_byte(v0, k - buffered
                        + buffered));
                } else {
                    assert(d1[k] == future_byte(v0, k));
                }
            }
        }
        self.fill_tail(dest, buffered + block_bytes);
        proof {
            lemma_advance_trans(v0, v2, self@, (buffered + block_bytes) as int, len - buffered
                - block_bytes);
            assert forall|k: int| 0 <= k < len implies #[trigger] dest@[k] == future_byte(v0, k) by {
                if k >= buffered + block_bytes {
                    assert(future_byte(v2, k - buffered - block_bytes) == future_byte(
                        v0,
                        k - buffered - block_bytes + (buffered + block_bytes),
                    ));
                }
            }
        }
        assert(dest@ =~= future_bytes(v0, len as nat));
    }

    /// Fills `dest[from..]` byte by byte through the buffer.
    fn fill_tail(&mut self, dest: &mut [u8], from: usize)
        requires
            from <= old(dest)@.len(),
        ensures
            final(dest)@.len() == old(dest)@.len(),
            forall|k: int|
                0 <= k < final(dest)@.len() ==> #[trigger] final(dest)@[k] == if k < from {
                    old(dest)@[k]
                } else {
                    future_byte(old(self)@, k - from)
                },
            advanced_by(final(self)@, old(self)@, old(dest)@.len() - from),
            final(self).backend() == old(self).backend(),
    {
        let ghost v0 = self@;
        let len = dest.len();
        let mut pos: usize = from;
        while pos < len
            invariant
                from <= pos <= len,
                len == dest@.len(),
                v0 == old(self)@,
                forall|k: int|
                    0 <= k < pos ==> #[trigger] dest@[k] == if k < from {
                        old(dest)@[k]
                    } else {
                        future_byte(v0, k - from)
                    },
                advanced_by(self@, v0, pos - from),
                self.backend() == old(self).backend(),
            decreases len - pos,
        {
            let ghost v2 = self@;
            dest[pos] = self.get_byte();
            proof {
                assert(future_byte(v2, 0) == future_byte(v0, pos - from));
                assert forall|i: int| 0 <= i implies #[trigger] future_byte(self@, i)
                    == future_byte(v0, i + (pos + 1 - from)) by {
                    assert(future_byte(self@, i) == future_byte(v2, i + 1));
                }
            }
            pos = pos + 1;
        }
    }

    /// The next four bytes, read as a little-endian number.
    pub fn next_u32(&mut self) -> (r: u32)
        ensures
            r as int == le_word32(future_bytes(old(self)@, 4), 0),
            advanced_by(final(self)@, old(self)@, 4),
            final(self).backend() == old(self).backend(),
    {
        let mut buffer = [0u8; 4];
        self.fill_bytes(&mut buffer);
        load_word32(&buffer, 0)
    }

    /// The next eight bytes, read as a little-endian number.
    pub fn next_u64(&mut self) -> (r: u64)
        ensures
            r as int == le_word(future_bytes(old(self)@, 8), 0),
            advanced_by(final(self)@, old(self)@, 8),
            final(self).backend() == old(self).backend(),
    {
        let mut buffer = [0u8; 8];
        self.fill_bytes(&mut buffer);
        load_word(&buffer, 0)
    }

    /// A generator seeded with the four little-endian words of `seed`, on the
    /// backend that `features` prefer.
    pub fn from_seed(seed: [u8; 32], features: TargetFeatures) -> (r: Self)
        ensures
            r@.pending.len() == 0,
            r@.source == init_model(seed_words(seed@)),
            r.backend() == crate::state::preferred_backend(features),
    {
        let mut words = [0u64; 4];
        let mut i: usize = 0;
        while i < 4
            invariant
                i <= 4,
                seed@.len() == 32,
                forall|k: int| 0 <= k < i ==> #[trigger] words@[k] == seed_words(seed@)[k],
            decreases 4 - i,
        {
            words[i] = load_word(&seed, 8 * i);
            i = i + 1;
        }
        assert(words@ =~= seed_words(seed@));
        Self::new(words, features)
    }
}

/// The four little-endian words of a 32-byte seed.
pub open spec fn seed_words(seed: Seq<u8>) -> Seq<u64> {
    Seq::new(4, |i: int| le_word(seed, 8 * i) as u64)
}

/// Seeding from bytes reads each seed word from all eight of its bytes: the
/// little-endian encoding of any four words seeds the generator with exactly
/// those words.
pub proof fn lemma_seed_words_of_le_bytes(w: Seq<u64>)
    requires
        w.len() == 4,
    ensures
        seed_words(le_bytes(w)) == w,
        init_model(seed_words(le_bytes(w))) == init_model(w),
{
    assert forall|i: int| 0 <= i < 4 implies #[trigger] seed_words(le_bytes(w))[i] == w[i] by {
        lemma_le_word_of_le_bytes(w, i);
    }
    assert(seed_words(le_bytes(w)) =~= w);
}

} // verus!
