use shishua::model::BLOCK_BYTES;
use shishua::state::select_backend;
use shishua::{avx2_backend, neon_backend, scalar_backend, sse2_backend, ssse3_backend};
use shishua::{Backend, ShiShuAState, TargetFeatures};

const SEED: [u64; 4] = [1, 2, 3, 4];

const FIRST_OUTPUT: [u64; 16] = [
    0x970efd6b4b3cfa60,
    0xb80f58ecee77239c,
    0x41a9fcaca6a22dc2,
    0x6672e8d26c305f7f,
    0x4623b12c2f21f756,
    0xe39f351e86e5a9b5,
    0x77729ddc349b124b,
    0xd7ab4f0302fb82c7,
    0xb824669d51a4bba0,
    0xfd1edde6074fba2f,
    0xe45207c7187c0806,
    0x58fb6b0db1eb2e4d,
    0x458a6574f765d3f2,
    0x3c7e23fbedd7cc4f,
    0x0c3e01fb39653922,
    0x0339f017b273f7e8,
];

fn all_backends(seed: [u64; 4]) -> Vec<ShiShuAState> {
    vec![
        ShiShuAState::new_scalar(seed),
        ShiShuAState::new_sse2(seed),
        ShiShuAState::new_ssse3(seed),
        ShiShuAState::new_avx2(seed),
        ShiShuAState::new_neon(seed),
    ]
}

#[test]
fn scalar_round_unpack_known_answer() {
    let mut state = ShiShuAState::new_scalar(SEED);
    assert_eq!(state.round_unpack(), FIRST_OUTPUT);
    let second = state.round_unpack();
    assert_eq!(
        &second[..4],
        &[0x3ab93a9786ac341f, 0xafd43fa712b9e1e0, 0x57bbbb06c449f79c, 0x06d3427b611d9d69]
    );
}

#[test]
fn every_backend_gives_the_known_answer() {
    for mut state in all_backends(SEED) {
        assert_eq!(state.round_unpack(), FIRST_OUTPUT, "{}", state.backend_name());
    }
}

#[test]
fn backends_agree_over_many_rounds() {
    for seed in [[0, 0, 0, 0], [u64::MAX, 7, 0x0123456789abcdef, 42], SEED] {
        let mut states = all_backends(seed);
        for _ in 0..50 {
            let words: Vec<[u64; 16]> = states.iter_mut().map(|s| s.round_unpack()).collect();
            for w in &words[1..] {
                assert_eq!(*w, words[0]);
            }
        }
    }
}

#[test]
fn backend_generate_bytes_agree_and_encode_round_unpack() {
    let mut scalar = scalar_backend::State::new(SEED);
    let mut sse2 = sse2_backend::State::new(SEED);
    let mut avx2 = avx2_backend::State::new(SEED);
    let mut neon = neon_backend::State::new(SEED);
    let mut ssse3 = ssse3_backend::State::new(SEED);
    let mut e = vec![4u8; 3 * BLOCK_BYTES];
    ssse3.generate_bytes(&mut e);
    let mut a = vec![0u8; 3 * BLOCK_BYTES];
    let mut b = vec![1u8; 3 * BLOCK_BYTES];
    let mut c = vec![2u8; 3 * BLOCK_BYTES];
    let mut d = vec![3u8; 3 * BLOCK_BYTES];
    scalar.generate_bytes(&mut a);
    sse2.generate_bytes(&mut b);
    avx2.generate_bytes(&mut c);
    neon.generate_bytes(&mut d);
    assert_eq!(a, b);
    assert_eq!(a, c);
    assert_eq!(a, d);
    assert_eq!(a, e);

    let mut reference = scalar_backend::State::new(SEED);
    for block in 0..3 {
        let words = reference.round_unpack();
        for (i, w) in words.iter().enumerate() {
            let at = block * BLOCK_BYTES + 8 * i;
            assert_eq!(&a[at..at + 8], &w.to_le_bytes());
        }
    }
    assert_eq!(scalar.round_unpack(), reference.round_unpack());
}

#[test]
fn zero_seed_first_bytes() {
    let mut state = scalar_backend::State::new([0; 4]);
    let mut block = [0u8; 128];
    state.generate_bytes(&mut block);
    assert_eq!(
        &block[..16],
        &[0x95, 0x5d, 0x96, 0xf9, 0x0f, 0xb4, 0xaa, 0x53, 0x09, 0x2d, 0x82, 0xe6, 0x3a, 0x7c, 0x09, 0xe2]
    );
}

#[test]
fn empty_generate_leaves_state() {
    let mut state = scalar_backend::State::new(SEED);
    let mut nothing: [u8; 0] = [];
    state.generate_bytes(&mut nothing);
    assert_eq!(state.round_unpack(), FIRST_OUTPUT);
}

#[test]
fn backend_names() {
    let names: Vec<&str> = all_backends(SEED).iter().map(|s| s.backend_name()).collect();
    assert_eq!(names, vec!["scalar", "sse2", "ssse3", "avx2", "neon"]);
}

#[test]
fn backend_selection_prefers_fastest() {
    let x86 = |sse2, avx2| TargetFeatures { x86: true, aarch64: false, sse2, ssse3: false, avx2 };
    assert_eq!(select_backend(x86(true, true)), Backend::Avx2);
    assert_eq!(select_backend(x86(false, true)), Backend::Avx2);
    assert_eq!(select_backend(x86(true, false)), Backend::Sse2);
    assert_eq!(select_backend(x86(false, false)), Backend::Scalar);
    let arm = TargetFeatures { x86: false, aarch64: true, sse2: false, ssse3: false, avx2: false };
    assert_eq!(select_backend(arm), Backend::Neon);
    let other = TargetFeatures { x86: false, aarch64: false, sse2: true, ssse3: false, avx2: true };
    assert_eq!(select_backend(other), Backend::Scalar);
    let mut state = ShiShuAState::new(SEED, arm);
    assert_eq!(state.backend_name(), "neon");
    assert_eq!(state.round_unpack(), FIRST_OUTPUT);
    assert_eq!(ShiShuAState::with_backend(SEED, Backend::Sse2).backend_name(), "sse2");
    let ssse3_no_avx2 = TargetFeatures { x86: true, aarch64: false, sse2: true, ssse3: true, avx2: false };
    assert_eq!(select_backend(ssse3_no_avx2), Backend::Ssse3);
    assert_eq!(ShiShuAState::new(SEED, ssse3_no_avx2).backend_name(), "ssse3");
    let all = TargetFeatures { x86: true, aarch64: false, sse2: true, ssse3: true, avx2: true };
    assert_eq!(select_backend(all), Backend::Avx2);
}
