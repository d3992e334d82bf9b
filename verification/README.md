# shishua

ShiShuA, a fast pseudo-random generator, as a Verus library.

- `src/model.rs` — the generator as mathematics: one round, the warm-up of a
  seed, the byte stream, and lemmas about them.
- `src/scalar_backend.rs`, `src/sse2_backend.rs`, `src/ssse3_backend.rs`,
  `src/avx2_backend.rs`,
  `src/neon_backend.rs` — five implementations of the state and their rounds, each
  proved to compute the model.
- `src/simd.rs` — the vector operations the vector backends use, written
  over 64-bit lanes and specified over 32-bit words.
- `src/le.rs` — little-endian conversions between words and bytes.
- `src/state.rs` — `ShiShuAState`, the generator with a backend chosen from the
  machine's features.
- `src/rand.rs` — `ShiShuARng`, which hands the stream out in pieces of any
  size; its contracts say that the pieces do not change the bytes.
- `src/xtask.rs` — the plan of the test matrix.
- `app/` — CPU feature detection, the `rand_core` traits, and running the
  test matrix.
