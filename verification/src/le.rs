//! Little-endian conversions between 64-bit words and bytes.
use vstd::prelude::*;

use crate::model::{
    byte_of, le_bytes, le_word, le_word32, lemma_stream_block, stream_byte, Model, BLOCK_BYTES,
};

verus! {

/// The bytes of a word, read back in little-endian order, give the word.
pub proof fn lemma_le_bytes_of_word(w: u64)
    ensures
        byte_of(w, 0) + byte_of(w, 1) * 0x100 + byte_of(w, 2) * 0x1_0000 + byte_of(w, 3)
            * 0x100_0000 + byte_of(w, 4) * 0x1_0000_0000 + byte_of(w, 5) * 0x100_0000_0000
            + byte_of(w, 6) * 0x1_0000_0000_0000 + byte_of(w, 7) * 0x100_0000_0000_0000 == w,
{
    assert((w >> 0u64) as u8 + ((w >> 8u64) as u8) * 0x100u64 + ((w >> 16u64) as u8)
        * 0x1_0000u64 + ((w >> 24u64) as u8) * 0x100_0000u64 + ((w >> 32u64) as u8)
        * 0x1_0000_0000u64 + ((w >> 40u64) as u8) * 0x100_0000_0000u64 + ((w >> 48u64) as u8)
        * 0x1_0000_0000_0000u64 + ((w >> 56u64) as u8) * 0x100_0000_0000_0000u64 == w)
        by (bit_vector);
}

/// Decoding the little-endian encoding of a sequence of words gives back each
/// word.
pub proof fn lemma_le_word_of_le_bytes(words: Seq<u64>, i: int)
    requires
        0 <= i < words.len(),
    ensures
        le_word(le_bytes(words), 8 * i) == words[i],
{
    let b = le_bytes(words);
    assert forall|k: int| 0 <= k < 8 implies #[trigger] b[8 * i + k] == byte_of(words[i], k) by {
        assert((8 * i + k) / 8 == i) by (nonlinear_arith)
            requires
                0 <= k < 8,
        ;
        assert((8 * i + k) % 8 == k) by (nonlinear_arith)
            requires
                0 <= k < 8,
        ;
    }
    assert(b[8 * i] == byte_of(words[i], 0));
    assert(b[8 * i + 1] == byte_of(words[i], 1));
    assert(b[8 * i + 2] == byte_of(words[i], 2));
    assert(b[8 * i + 3] == byte_of(words[i], 3));
    assert(b[8 * i + 4] == byte_of(words[i], 4));
    assert(b[8 * i + 5] == byte_of(words[i], 5));
    assert(b[8 * i + 6] == byte_of(words[i], 6));
    assert(b[8 * i + 7] == byte_of(words[i], 7));
    lemma_le_bytes_of_word(words[i]);
}

/// Writes the little-endian encoding of `w` to `dest[at..at + 8]`.
pub fn store_word(dest: &mut [u8], at: usize, w: u64)
    requires
        at + 8 <= old(dest)@.len(),
    ensures
        final(dest)@.len() == old(dest)@.len(),
        forall|i: int|
            0 <= i < final(dest)@.len() ==> #[trigger] final(dest)@[i] == if at <= i < at + 8 {
                byte_of(w, i - at)
            } else {
                old(dest)@[i]
            },
{
    let len = dest.len();
    let mut k: usize = 0;
    while k < 8
        invariant
            k <= 8,
            at + 8 <= dest@.len(),
            len == dest@.len(),
            dest@.len() == old(dest)@.len(),
            forall|i: int|
                0 <= i < dest@.len() ==> #[trigger] dest@[i] == if at <= i < at + k {
                    byte_of(w, i - at)
                } else {
                    old(dest)@[i]
                },
        decreases 8 - k,
    {
        dest[at + k] = #[verifier::truncate] ((w >> ((8 * k) as u64)) as u8);
        k = k + 1;
    }
}

/// Writes the little-endian encoding of sixteen words to `dest[at..at + 128]`.
pub fn store_block(dest: &mut [u8], at: usize, words: &[u64; 16])
    requires
        at + 128 <= old(dest)@.len(),
    ensures
        final(dest)@.len() == old(dest)@.len(),
        forall|i: int|
            0 <= i < final(dest)@.len() ==> #[trigger] final(dest)@[i] == if at <= i < at + 128 {
                byte_of(words@[(i - at) / 8], (i - at) % 8)
            } else {
                old(dest)@[i]
            },
{
    let len = dest.len();
    let mut w: usize = 0;
    while w < 16
        invariant
            w <= 16,
            at + 128 <= dest@.len(),
            len == dest@.len(),
            dest@.len() == old(dest)@.len(),
            forall|i: int|
                0 <= i < dest@.len() ==> #[trigger] dest@[i] == if at <= i < at + 8 * w {
                    byte_of(words@[(i - at) / 8], (i - at) % 8)
                } else {
                    old(dest)@[i]
                },
        decreases 16 - w,
    {
        store_word(dest, at + 8 * w, words[w]);
        w = w + 1;
    }
}

/// Reads the word whose little-endian encoding is `b[at..at + 8]`.
pub fn load_word(b: &[u8], at: usize) -> (w: u64)
    requires
        at + 8 <= b@.len(),
    ensures
        w as int == le_word(b@, at as int),
{
    (b[at] as u64) + (b[at + 1] as u64) * 0x100 + (b[at + 2] as u64) * 0x1_0000 + (b[at + 3]
        as u64) * 0x100_0000 + (b[at + 4] as u64) * 0x1_0000_0000 + (b[at + 5] as u64)
        * 0x100_0000_0000 + (b[at + 6] as u64) * 0x1_0000_0000_0000 + (b[at + 7] as u64)
        * 0x100_0000_0000_0000
}

/// Reads the 32-bit word whose little-endian encoding is `b[at..at + 4]`.
pub fn load_word32(b: &[u8], at: usize) -> (w: u32)
    requires
        at + 4 <= b@.len(),
    ensures
        w as int == le_word32(b@, at as int),
{
    (b[at] as u32) + (b[at + 1] as u32) * 0x100 + (b[at + 2] as u32) * 0x1_0000 + (b[at + 3]
        as u32) * 0x100_0000
}

/// Decodes a block of 128 bytes into sixteen little-endian words.
pub fn bytes_to_u64s(bytes: &[u8; 128]) -> (words: [u64; 16])
    ensures
        forall|i: int| 0 <= i < 16 ==> #[trigger] words@[i] as int == le_word(bytes@, 8 * i),
{
    let mut output = [0u64; 16];
    let mut index: usize = 0;
    while index < 16
        invariant
            index <= 16,
            bytes@.len() == BLOCK_BYTES,
            forall|i: int| 0 <= i < index ==> #[trigger] output@[i] as int == le_word(bytes@, 8 * i),
        decreases 16 - index,
    {
        output[index] = load_word(bytes.as_slice(), 8 * index);
        index = index + 1;
    }
    output
}

/// A block of the stream, decoded as little-endian words, gives the output
/// words that it was encoded from.
pub proof fn lemma_decode_block(m: Model, b: Seq<u8>)
    requires
        m.output.len() == 16,
        b.len() == 128,
        forall|i: int| 0 <= i < 128 ==> #[trigger] b[i] == stream_byte(m, i),
    ensures
        forall|i: int| 0 <= i < 16 ==> #[trigger] le_word(b, 8 * i) == m.output[i],
{
    assert forall|i: int| 0 <= i < 128 implies #[trigger] b[i] == le_bytes(m.output)[i] by {
        lemma_stream_block(m, 0, i);
    }
    assert(b =~= le_bytes(m.output));
    assert forall|i: int| 0 <= i < 16 implies #[trigger] le_word(b, 8 * i) == m.output[i] by {
        lemma_le_word_of_le_bytes(m.output, i);
    }
}

} // verus!
