//! Words as bytes.
use vstd::prelude::*;

verus! {

/// The byte of a word with that significance, 0 the least.
pub open spec fn byte_of(word: u32, significance: int) -> u8 {
    if significance == 0 {
        (word % 0x100) as u8
    } else if significance == 1 {
        ((word / 0x100) % 0x100) as u8
    } else if significance == 2 {
        ((word / 0x1_0000) % 0x100) as u8
    } else {
        (word / 0x100_0000) as u8
    }
}

/// The bytes of words, the least significant byte of each first.
pub open spec fn little_endian(words: Seq<u32>) -> Seq<u8> {
    Seq::new(4 * words.len(), |k: int| byte_of(words[k / 4], k % 4))
}

/// The bytes of words, the most significant byte of each first.
pub open spec fn big_endian(words: Seq<u32>) -> Seq<u8> {
    Seq::new(4 * words.len(), |k: int| byte_of(words[k / 4], 3 - k % 4))
}

/// The memory of the words, by `bytemuck::cast_slice`, which reinterprets a
/// slice without copying or reordering; the bytes are then copied out. Claimed
/// is that these are the bytes of the words in order, each word's in one of the
/// two orders that machines store them in. Bytes need no alignment and divide
/// any size, so the cast does not fail.
#[verifier::external_body]
fn cast_words(words: &[u32]) -> (r: Vec<u8>)
    ensures
        r@ == little_endian(words@) || r@ == big_endian(words@),
{
    bytemuck::cast_slice::<u32, u8>(words).to_vec()
}

/// The contents of a uniform or storage buffer that holds these words, in the
/// byte order of the machine.
pub fn buffer_bytes(words: &Vec<u32>) -> (r: Vec<u8>)
    ensures
        r@ == little_endian(words@) || r@ == big_endian(words@),
{
    cast_words(words.as_slice())
}

/// The word whose bytes these are, the least significant first.
pub open spec fn le_word(bytes: Seq<u8>) -> int {
    bytes[0] + 0x100 * bytes[1] + 0x1_0000 * bytes[2] + 0x100_0000 * bytes[3]
}

/// Reads the word at a place, the least significant byte first.
pub fn read_le_word(bytes: &Vec<u8>, at: usize) -> (r: u32)
    requires
        at + 4 <= bytes.len(),
    ensures
        r == le_word(bytes@.subrange(at as int, at + 4)),
{
    bytes[at] as u32 + 0x100 * (bytes[at + 1] as u32) + 0x1_0000 * (bytes[at + 2] as u32)
        + 0x100_0000 * (bytes[at + 3] as u32)
}

/// Reads the half word at a place, the least significant byte first.
pub fn read_le_half(bytes: &Vec<u8>, at: usize) -> (r: u16)
    requires
        at + 2 <= bytes.len(),
    ensures
        r == bytes@[at as int] + 0x100 * bytes@[at + 1],
{
    bytes[at] as u16 + 0x100 * (bytes[at + 1] as u16)
}

/// A word reads back from its bytes.
pub proof fn law_word_reads_back(words: Seq<u32>, i: int)
    requires
        0 <= i < words.len(),
    ensures
        le_word(little_endian(words).subrange(4 * i, 4 * i + 4)) == words[i],
{
    let all = little_endian(words);
    let own = all.subrange(4 * i, 4 * i + 4);
    let w = words[i];
    assert(own[0] == byte_of(w, 0)) by {
        assert(own[0] == all[4 * i]);
    }
    assert(own[1] == byte_of(w, 1)) by {
        assert(own[1] == all[4 * i + 1]);
    }
    assert(own[2] == byte_of(w, 2)) by {
        assert(own[2] == all[4 * i + 2]);
    }
    assert(own[3] == byte_of(w, 3)) by {
        assert(own[3] == all[4 * i + 3]);
    }
    lemma_word_is_its_bytes(w);
}

/// A word is the sum of its bytes at their weights.
proof fn lemma_word_is_its_bytes(w: u32)
    ensures
        w == byte_of(w, 0) + 0x100 * byte_of(w, 1) + 0x1_0000 * byte_of(w, 2) + 0x100_0000
            * byte_of(w, 3),
{
    let (b0, b1, b2, b3) = (
        w % 0x100,
        (w / 0x100) % 0x100,
        (w / 0x1_0000) % 0x100,
        w / 0x100_0000,
    );
    assert(w == b0 + 0x100 * b1 + 0x1_0000 * b2 + 0x100_0000 * b3) by (bit_vector)
        requires
            b0 == w % 0x100,
            b1 == (w / 0x100) % 0x100,
            b2 == (w / 0x1_0000) % 0x100,
            b3 == w / 0x100_0000,
    ;
}

/// The two byte orders differ in that each word's bytes come the other way
/// round.
pub proof fn law_byte_orders_are_each_others_reverse(words: Seq<u32>, i: int, k: int)
    requires
        0 <= i < words.len(),
        0 <= k < 4,
    ensures
        little_endian(words).len() == 4 * words.len(),
        big_endian(words).len() == 4 * words.len(),
        big_endian(words)[4 * i + k] == little_endian(words)[4 * i + (3 - k)],
{
}

} // verus!
