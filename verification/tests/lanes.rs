use shishua::le::{bytes_to_u64s, load_word, load_word32, store_block, store_word};
use shishua::simd::{
    extract_bytes, lanes_add, lanes_or, lanes_shr, lanes_xor, permute_dwords, shift_left_bytes,
    shift_right_bytes, store_lanes,
};

const V: [u64; 2] = [0x1111111122222222, 0x3333333344444444];

#[test]
fn byte_shifts_move_whole_words() {
    assert_eq!(shift_left_bytes(V, 4), [0x2222222200000000, 0x4444444411111111]);
    assert_eq!(shift_left_bytes(V, 12), [0, 0x2222222200000000]);
    assert_eq!(shift_right_bytes(V, 4), [0x4444444411111111, 0x0000000033333333]);
    assert_eq!(shift_right_bytes(V, 12), [0x0000000033333333, 0]);
    assert_eq!(shift_left_bytes(V, 0), V);
}

#[test]
fn extract_takes_window_of_concatenation() {
    let w = [0x5555555566666666, 0x7777777788888888];
    assert_eq!(extract_bytes(V, w, 4), [0x4444444411111111, 0x6666666633333333]);
    assert_eq!(extract_bytes(V, w, 12), [0x6666666633333333, 0x8888888855555555]);
}

#[test]
fn permute_picks_dwords() {
    let v = [0x0000000100000000, 0x0000000300000002, 0x0000000500000004, 0x0000000700000006];
    assert_eq!(
        permute_dwords(v, [5, 6, 7, 0, 1, 2, 3, 4]),
        [0x0000000600000005, 0x0000000000000007, 0x0000000200000001, 0x0000000400000003]
    );
    assert_eq!(permute_dwords(v, [8, 9, 10, 11, 12, 13, 14, 15]), v);
}

#[test]
fn lane_arithmetic() {
    assert_eq!(lanes_add([u64::MAX, 1], [1, 1]), [0, 2]);
    assert_eq!(lanes_xor([0b1100u64, 5], [0b1010, 5]), [0b0110, 0]);
    assert_eq!(lanes_or([0b1100u64, 0], [0b1010, 9]), [0b1110, 9]);
    assert_eq!(lanes_shr([u64::MAX, 8, 1, 0], 3), [u64::MAX >> 3, 1, 0, 0]);
}

#[test]
fn words_and_bytes_round_trip() {
    let mut buf = [0xaau8; 12];
    store_word(&mut buf, 2, 0x0807060504030201);
    assert_eq!(buf, [0xaa, 0xaa, 1, 2, 3, 4, 5, 6, 7, 8, 0xaa, 0xaa]);
    assert_eq!(load_word(&buf, 2), 0x0807060504030201);
    assert_eq!(load_word32(&buf, 2), 0x04030201);

    let words: [u64; 16] = core::array::from_fn(|i| (i as u64).wrapping_mul(0x9E3779B97F4A7C15));
    let mut block = [0u8; 130];
    store_block(&mut block, 1, &words);
    assert_eq!(block[0], 0);
    assert_eq!(block[129], 0);
    let mut inner = [0u8; 128];
    inner.copy_from_slice(&block[1..129]);
    assert_eq!(bytes_to_u64s(&inner), words);

    let mut lanes = [0u8; 16];
    store_lanes(&mut lanes, 0, [0x0102030405060708u64, 0x1112131415161718]);
    assert_eq!(lanes[0], 0x08);
    assert_eq!(lanes[15], 0x11);
}
