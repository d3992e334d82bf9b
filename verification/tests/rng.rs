use shishua::{ShiShuARng, ShiShuAState, TargetFeatures};

const SEED: [u64; 4] = [1, 2, 3, 4];

fn reference_bytes(n: usize) -> Vec<u8> {
    let mut state = ShiShuAState::new_scalar(SEED);
    let mut out = Vec::new();
    while out.len() < n {
        for w in state.round_unpack() {
            out.extend_from_slice(&w.to_le_bytes());
        }
    }
    out.truncate(n);
    out
}

#[test]
fn fill_bytes_hands_out_the_stream() {
    let mut rng = ShiShuARng::new_scalar(SEED);
    let mut buf = vec![0u8; 1000];
    rng.fill_bytes(&mut buf);
    assert_eq!(buf, reference_bytes(1000));
}

#[test]
fn split_requests_match_one_request() {
    let expected = reference_bytes(1000);
    let mut rng = ShiShuARng::new_sse2(SEED);
    let mut got = Vec::new();
    for size in [1usize, 127, 300, 0, 256, 13, 303] {
        let mut piece = vec![0u8; size];
        rng.fill_bytes(&mut piece);
        got.extend_from_slice(&piece);
    }
    assert_eq!(got, expected);
}

#[test]
fn get_byte_matches_fill_bytes() {
    let expected = reference_bytes(300);
    let mut rng = ShiShuARng::new_avx2(SEED);
    let got: Vec<u8> = (0..300).map(|_| rng.get_byte()).collect();
    assert_eq!(got, expected);
}

#[test]
fn next_words_are_little_endian() {
    let mut rng = ShiShuARng::new_neon(SEED);
    assert_eq!(rng.next_u32(), 0x4b3cfa60);
    assert_eq!(rng.next_u32(), 0x970efd6b);
    assert_eq!(rng.next_u64(), 0xb80f58ecee77239c);
    let mut rest = [0u8; 8];
    rng.fill_bytes(&mut rest);
    assert_eq!(u64::from_le_bytes(rest), 0x41a9fcaca6a22dc2);
}

#[test]
fn from_seed_reads_little_endian_words() {
    let mut seed = [0u8; 32];
    for (i, w) in SEED.iter().enumerate() {
        seed[8 * i..8 * i + 8].copy_from_slice(&w.to_le_bytes());
    }
    let features = TargetFeatures { x86: false, aarch64: false, sse2: false, ssse3: false, avx2: false };
    let mut rng = ShiShuARng::from_seed(seed, features);
    assert_eq!(rng.backend_name(), "scalar");
    assert_eq!(rng.next_u64(), 0x970efd6b4b3cfa60);
}

#[test]
fn from_state_starts_with_the_state_stream() {
    let state = ShiShuAState::new_scalar(SEED);
    let mut rng = ShiShuARng::from_state(state);
    let mut buf = [0u8; 129];
    rng.fill_bytes(&mut buf);
    assert_eq!(buf.to_vec(), reference_bytes(129));
}

#[test]
fn ssse3_rng_hands_out_the_stream() {
    let mut rng = ShiShuARng::new_ssse3(SEED);
    assert_eq!(rng.backend_name(), "ssse3");
    let mut buf = vec![0u8; 500];
    rng.fill_bytes(&mut buf);
    assert_eq!(buf, reference_bytes(500));
}

#[test]
fn rng_new_uses_preferred_backend() {
    let features = TargetFeatures { x86: true, aarch64: false, sse2: true, ssse3: false, avx2: false };
    let mut rng = ShiShuARng::new(SEED, features);
    assert_eq!(rng.backend_name(), "sse2");
    assert_eq!(rng.next_u64(), 0x970efd6b4b3cfa60);
}
