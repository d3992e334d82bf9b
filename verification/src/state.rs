//! The generator with its backend chosen at run time.
use vstd::prelude::*;

use crate::avx2_backend;
use crate::model::{holds_stream, init_model, round, rounds, Model, BLOCK_BYTES};
use crate::neon_backend;
use crate::scalar_backend;
use crate::sse2_backend;
use crate::ssse3_backend;

verus! {

/// The implementations of a round that a state can use.
#[derive(Copy, Clone, Debug, PartialEq, Eq, Structural)]
pub enum Backend {
    Scalar,
    Sse2,
    Ssse3,
    Avx2,
    Neon,
}

/// What is known of the machine the generator runs on: its architecture and,
/// on x86, which vector extensions the processor and the operating system
/// support.
#[derive(Copy, Clone, Debug, PartialEq, Eq, Structural)]
pub struct TargetFeatures {
    pub x86: bool,
    pub aarch64: bool,
    pub sse2: bool,
    pub ssse3: bool,
    pub avx2: bool,
}

/// The fastest backend the machine supports: AVX2, then SSSE3, then SSE2, on
/// x86; NEON on
/// AArch64; the scalar backend otherwise.
pub open spec fn preferred_backend(f: TargetFeatures) -> Backend {
    if f.x86 {
        if f.avx2 {
            Backend::Avx2
        } else if f.ssse3 {
            Backend::Ssse3
        } else if f.sse2 {
            Backend::Sse2
        } else {
            Backend::Scalar
        }
    } else if f.aarch64 {
        Backend::Neon
    } else {
        Backend::Scalar
    }
}

/// The name of a backend.
pub open spec fn backend_label(b: Backend) -> Seq<char> {
    match b {
        Backend::Scalar => "scalar"@,
        Backend::Sse2 => "sse2"@,
        Backend::Ssse3 => "ssse3"@,
        Backend::Avx2 => "avx2"@,
        Backend::Neon => "neon"@,
    }
}

/// Chooses the backend that `new` uses on a machine with the features `f`.
pub fn select_backend(f: TargetFeatures) -> (b: Backend)
    ensures
        b == preferred_backend(f),
{
    if f.x86 {
        if f.avx2 {
            Backend::Avx2
        } else if f.ssse3 {
            Backend::Ssse3
        } else if f.sse2 {
            Backend::Sse2
        } else {
            Backend::Scalar
        }
    } else if f.aarch64 {
        Backend::Neon
    } else {
        Backend::Scalar
    }
}

#[derive(Copy, Clone)]
enum StateImpl {
    Scalar(scalar_backend::State),
    Sse2(sse2_backend::State),
    Ssse3(ssse3_backend::State),
    Avx2(avx2_backend::State),
    Neon(neon_backend::State),
}

/// The raw ShiShuA generator.
///
/// `new` picks the fastest backend that the machine supports; the explicit
/// constructors force one.  Every backend computes the same stream.
#[derive(Copy, Clone)]
pub struct ShiShuAState {
    inner: StateImpl,
}

impl View for ShiShuAState {
    type V = Model;

    closed spec fn view(&self) -> Model {
        match self.inner {
            StateImpl::Scalar(s) => s@,
            StateImpl::Sse2(s) => s@,
            StateImpl::Ssse3(s) => s@,
            StateImpl::Avx2(s) => s@,
            StateImpl::Neon(s) => s@,
        }
    }
}

impl ShiShuAState {
    /// The backend that this state runs on.
    pub closed spec fn backend(&self) -> Backend {
        match self.inner {
            StateImpl::Scalar(_) => Backend::Scalar,
            StateImpl::Sse2(_) => Backend::Sse2,
            StateImpl::Ssse3(_) => Backend::Ssse3,
            StateImpl::Avx2(_) => Backend::Avx2,
            StateImpl::Neon(_) => Backend::Neon,
        }
    }

    /// A state seeded with `seed`, on the backend that `features` prefer.
    pub fn new(seed: [u64; 4], features: TargetFeatures) -> (s: Self)
        ensures
            s@ == init_model(seed@),
            s.backend() == preferred_backend(features),
    {
        Self::with_backend(seed, select_backend(features))
    }

    /// A state seeded with `seed`, on the given backend.
    pub fn with_backend(seed: [u64; 4], backend: Backend) -> (s: Self)
        ensures
            s@ == init_model(seed@),
            s.backend() == backend,
    {
        match backend {
            Backend::Scalar => Self::new_scalar(seed),
            Backend::Sse2 => Self::new_sse2(seed),
            Backend::Ssse3 => Self::new_ssse3(seed),
            Backend::Avx2 => Self::new_avx2(seed),
            Backend::Neon => Self::new_neon(seed),
        }
    }

    pub fn new_scalar(seed: [u64; 4]) -> (s: Self)
        ensures
            s@ == init_model(seed@),
            s.backend() == Backend::Scalar,
    {
        Self { inner: StateImpl::Scalar(scalar_backend::State::new(seed)) }
    }

    /// A state that always uses the SSE2 layout and operations.
    pub fn new_sse2(seed: [u64; 4]) -> (s: Self)
        ensures
            s@ == init_model(seed@),
            s.backend() == Backend::Sse2,
    {
        Self { inner: StateImpl::Sse2(sse2_backend::State::new(seed)) }
    }

    /// A state that always uses the SSSE3 layout and operations.
    pub fn new_ssse3(seed: [u64; 4]) -> (s: Self)
        ensures
            s@ == init_model(seed@),
            s.backend() == Backend::Ssse3,
    {
        Self { inner: StateImpl::Ssse3(ssse3_backend::State::new(seed)) }
    }

    /// A state that always uses the AVX2 layout and operations.
    pub fn new_avx2(seed: [u64; 4]) -> (s: Self)
        ensures
            s@ == init_model(seed@),
            s.backend() == Backend::Avx2,
    {
        Self { inner: StateImpl::Avx2(avx2_backend::State::new(seed)) }
    }

    /// A state that always uses the NEON layout and operations.
    pub fn new_neon(seed: [u64; 4]) -> (s: Self)
        ensures
            s@ == init_model(seed@),
            s.backend() == Backend::Neon,
    {
        Self { inner: StateImpl::Neon(neon_backend::State::new(seed)) }
    }

    pub fn backend_name(&self) -> (name: &'static str)
        ensures
            name@ == backend_label(self.backend()),
    {
        match &self.inner {
            StateImpl::Scalar(_) => "scalar",
            StateImpl::Sse2(_) => "sse2",
            StateImpl::Ssse3(_) => "ssse3",
            StateImpl::Avx2(_) => "avx2",
            StateImpl::Neon(_) => "neon",
        }
    }

    /// Returns the pending output words and advances the state one round.
    pub fn round_unpack(&mut self) -> (words: [u64; 16])
        ensures
            words@ == old(self)@.output,
            final(self)@ == round(old(self)@),
            final(self).backend() == old(self).backend(),
    {
        match &mut self.inner {
            StateImpl::Scalar(state) => state.round_unpack(),
            StateImpl::Sse2(state) => state.round_unpack(),
            StateImpl::Ssse3(state) => state.round_unpack(),
            StateImpl::Avx2(state) => state.round_unpack(),
            StateImpl::Neon(state) => state.round_unpack(),
        }
    }

    /// Fills `output_slice`, whose length is a multiple of 128, with the
    /// stream.
    pub(crate) fn generate_bytes(&mut self, output_slice: &mut [u8])
        requires
            old(output_slice)@.len() % 128 == 0,
        ensures
            holds_stream(
                final(output_slice)@,
                old(output_slice)@,
                0,
                old(output_slice)@.len() as int,
                old(self)@,
            ),
            final(self)@ == rounds(old(self)@, (old(output_slice)@.len() / 128) as nat),
            final(self).backend() == old(self).backend(),
    {
        let blocks = output_slice.len() / BLOCK_BYTES;
        self.generate_blocks(output_slice, 0, blocks);
    }

    /// Writes `blocks` blocks of the stream to `dest` from `start` on.
    pub(crate) fn generate_blocks(&mut self, dest: &mut [u8], start: usize, blocks: usize)
        requires
            start + 128 * blocks <= old(dest)@.len(),
        ensures
            holds_stream(final(dest)@, old(dest)@, start as int, 128 * blocks, old(self)@),
            final(self)@ == rounds(old(self)@, blocks as nat),
            final(self).backend() == old(self).backend(),
    {
        match &mut self.inner {
            StateImpl::Scalar(state) => state.generate_blocks(dest, start, blocks),
            StateImpl::Sse2(state) => state.generate_blocks(dest, start, blocks),
            StateImpl::Ssse3(state) => state.generate_blocks(dest, start, blocks),
            StateImpl::Avx2(state) => state.generate_blocks(dest, start, blocks),
            StateImpl::Neon(state) => state.generate_blocks(dest, start, blocks),
        }
    }
}

} // verus!
