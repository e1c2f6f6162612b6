//! Little-endian 32-bit words in byte sequences.

use vstd::prelude::*;

verus! {

/// The word whose little-endian bytes stand in `bytes` from position `at` on.
pub open spec fn word_at(bytes: Seq<u8>, at: int) -> u32 {
    (bytes[at] + 0x100 * bytes[at + 1] + 0x1_0000 * bytes[at + 2] + 0x100_0000 * bytes[at
        + 3]) as u32
}

/// The two's complement number that a word stands for.
pub open spec fn signed(word: u32) -> i32 {
    if word < 0x8000_0000 {
        word as i32
    } else {
        (word - 0x1_0000_0000) as i32
    }
}

/// The byte of a word at position `index`, lowest first.
pub open spec fn byte_of(word: u32, index: int) -> u8 {
    if index == 0 {
        (word % 0x100) as u8
    } else if index == 1 {
        (word / 0x100 % 0x100) as u8
    } else if index == 2 {
        (word / 0x1_0000 % 0x100) as u8
    } else {
        (word / 0x100_0000) as u8
    }
}

/// The little-endian bytes of all words, one word after the other.
pub open spec fn bytes_of(words: Seq<u32>) -> Seq<u8> {
    Seq::new(4 * words.len(), |i: int| byte_of(words[i / 4], i % 4))
}

/// The word that stands in `bytes` from position `at` on.
pub fn read_word(bytes: &[u8], at: usize) -> (word: u32)
    requires
        at + 4 <= bytes@.len(),
    ensures
        word == word_at(bytes@, at as int),
{
    bytes[at] as u32 + 0x100 * bytes[at + 1] as u32 + 0x1_0000 * bytes[at + 2] as u32
        + 0x100_0000 * bytes[at + 3] as u32
}

/// The two's complement number that a word stands for.
pub fn to_signed(word: u32) -> (number: i32)
    ensures
        number == signed(word),
{
    if word < 0x8000_0000 {
        word as i32
    } else {
        (word as i64 - 0x1_0000_0000) as i32
    }
}

/// Append the bytes of a word.
pub fn push_word(out: &mut Vec<u8>, word: u32)
    ensures
        final(out)@ == old(out)@ + bytes_of(seq![word]),
{
    out.push((word % 0x100) as u8);
    out.push((word / 0x100 % 0x100) as u8);
    out.push((word / 0x1_0000 % 0x100) as u8);
    out.push((word / 0x100_0000) as u8);
    assert(out@ =~= old(out)@ + bytes_of(seq![word]));
}

/// Append the bytes of all words.
pub fn push_words(out: &mut Vec<u8>, words: &[u32])
    ensures
        final(out)@ == old(out)@ + bytes_of(words@),
{
    let mut next: usize = 0;
    assert(out@ =~= old(out)@ + bytes_of(words@.take(0)));
    while next < words.len()
        invariant
            next <= words@.len(),
            out@ == old(out)@ + bytes_of(words@.take(next as int)),
        decreases words@.len() - next,
    {
        push_word(out, words[next]);
        proof {
            lemma_bytes_of_push(words@.take(next as int), words@[next as int]);
            assert(words@.take(next + 1) =~= words@.take(next as int).push(words@[next as int]));
            assert(out@ =~= old(out)@ + bytes_of(words@.take(next + 1)));
        }
        next += 1;
    }
    assert(words@.take(words@.len() as int) =~= words@);
}

/// The bytes of one word more.
proof fn lemma_bytes_of_push(words: Seq<u32>, word: u32)
    ensures
        bytes_of(words.push(word)) == bytes_of(words) + bytes_of(seq![word]),
{
    assert(bytes_of(words.push(word)) =~= bytes_of(words) + bytes_of(seq![word]));
}

/// The bytes from which a word is read are its digits to the base of 256, the lowest first.
pub proof fn law_word_digits(bytes: Seq<u8>, at: int)
    ensures
        word_at(bytes, at) % 0x100 == bytes[at],
        word_at(bytes, at) / 0x100 % 0x100 == bytes[at + 1],
        word_at(bytes, at) / 0x1_0000 % 0x100 == bytes[at + 2],
        word_at(bytes, at) / 0x100_0000 == bytes[at + 3],
{
}

/// Every word is written as four bytes, which add up to it, the lowest first.
pub proof fn law_word_bytes(words: Seq<u32>, index: int)
    ensures
        bytes_of(words).len() == 4 * words.len(),
        0 <= index < words.len() ==> bytes_of(words)[4 * index] + 0x100 * bytes_of(words)[4 * index
            + 1] + 0x1_0000 * bytes_of(words)[4 * index + 2] + 0x100_0000 * bytes_of(words)[4
            * index + 3] == words[index],
{
    if 0 <= index < words.len() {
        law_word_read_back(words, index);
    }
}

/// A word and the signed number that it stands for differ by a multiple of two to the power of 32.
pub proof fn law_signed_word(word: u32)
    ensures
        (word - signed(word)) % 0x1_0000_0000 == 0,
{
}

/// Reading a word gives back what was written.
pub proof fn law_word_read_back(words: Seq<u32>, index: int)
    requires
        0 <= index < words.len(),
    ensures
        word_at(bytes_of(words), 4 * index) == words[index],
{
    let bytes = bytes_of(words);
    let word = words[index];
    assert(bytes[4 * index] == byte_of(word, 0));
    assert(bytes[4 * index + 1] == byte_of(word, 1));
    assert(bytes[4 * index + 2] == byte_of(word, 2));
    assert(bytes[4 * index + 3] == byte_of(word, 3));
}

/// A word is made of its bytes.
proof fn lemma_bytes_of_word(b0: u8, b1: u8, b2: u8, b3: u8)
    ensures
        ({
            let word = (b0 + 0x100 * b1 + 0x1_0000 * b2 + 0x100_0000 * b3) as u32;
            &&& byte_of(word, 0) == b0
            &&& byte_of(word, 1) == b1
            &&& byte_of(word, 2) == b2
            &&& byte_of(word, 3) == b3
        }),
{
}

/// Writing the words that were read gives back the bytes.
pub proof fn law_word_write_back(bytes: Seq<u8>, words: Seq<u32>)
    requires
        bytes.len() == 4 * words.len(),
        forall|index: int| 0 <= index < words.len() ==> words[index] == word_at(bytes, 4 * index),
    ensures
        bytes_of(words) == bytes,
{
    assert forall|i: int| 0 <= i < bytes.len() implies bytes_of(words)[i] == bytes[i] by {
        let at = 4 * (i / 4);
        assert(words[i / 4] == word_at(bytes, at));
        lemma_bytes_of_word(bytes[at], bytes[at + 1], bytes[at + 2], bytes[at + 3]);
        assert(bytes_of(words)[i] == byte_of(words[i / 4], i % 4));
    }
    assert(bytes_of(words) =~= bytes);
}

} // verus!
