//! Turning a program image, a stream of bytes, into instruction words.

use vstd::prelude::*;

verus! {

/// The word that four bytes spell, the most significant byte first.
pub open spec fn word_of_bytes(b0: u8, b1: u8, b2: u8, b3: u8) -> u32 {
    (b0 * 0x100_0000 + b1 * 0x1_0000 + b2 * 0x100 + b3) as u32
}

/// The words of a program image: each group of four bytes, in order, is one
/// word, the most significant byte first. Bytes left over after the last
/// whole group are not part of any word.
pub open spec fn words_of(bytes: Seq<u8>) -> Seq<u32> {
    Seq::new(
        bytes.len() / 4,
        |i: int| word_of_bytes(bytes[4 * i], bytes[4 * i + 1], bytes[4 * i + 2], bytes[4 * i + 3]),
    )
}

/// Reads a program image into instruction words.
pub fn load(bytes: &[u8]) -> (words: Vec<u32>)
    ensures
        words@ == words_of(bytes@),
{
    let count = bytes.len() / 4;
    let mut words: Vec<u32> = Vec::with_capacity(count);
    let mut i: usize = 0;
    while i < count
        invariant
            count == bytes@.len() / 4,
            bytes@.len() <= usize::MAX,
            i <= count,
            words@ == words_of(bytes@).subrange(0, i as int),
        decreases count - i,
    {
        let word = (bytes[4 * i] as u32) * 0x100_0000 + (bytes[4 * i + 1] as u32) * 0x1_0000 + (
        bytes[4 * i + 2] as u32) * 0x100 + (bytes[4 * i + 3] as u32);
        words.push(word);
        i = i + 1;
        assert(words@ =~= words_of(bytes@).subrange(0, i as int));
    }
    assert(words@ =~= words_of(bytes@));
    words
}

} // verus!
