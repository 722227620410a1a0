//! The little-endian byte view of a word buffer.

use vstd::prelude::*;

verus! {

/// Byte `k` (0 is the least significant) of a word.
pub open spec fn byte_of_word(w: u32, k: int) -> u8 {
    if k == 0 {
        (w & 0xff) as u8
    } else if k == 1 {
        ((w >> 8u32) & 0xff) as u8
    } else if k == 2 {
        ((w >> 16u32) & 0xff) as u8
    } else {
        (w >> 24u32) as u8
    }
}

/// Byte `i` of a word sequence read in little-endian order.
pub open spec fn byte_at(words: Seq<u32>, i: int) -> u8 {
    byte_of_word(words[i / 4], i % 4)
}

/// All bytes of a word sequence, four per word, little-endian.
pub open spec fn bytes_of(words: Seq<u32>) -> Seq<u8> {
    Seq::new((words.len() * 4) as nat, |i: int| byte_at(words, i))
}

/// Reads byte `i` of the little-endian view of `words`.
pub fn read_byte(words: &[u32], i: usize) -> (b: u8)
    requires
        i < words@.len() * 4,
    ensures
        b == byte_at(words@, i as int),
        b == bytes_of(words@)[i as int],
{
    let w: u32 = words[i / 4];
    let k: usize = i % 4;
    if k == 0 {
        (w & 0xff) as u8
    } else if k == 1 {
        ((w >> 8u32) & 0xff) as u8
    } else if k == 2 {
        ((w >> 16u32) & 0xff) as u8
    } else {
        (w >> 24u32) as u8
    }
}

/// The word made of four little-endian bytes.
pub open spec fn word_of_bytes(b0: u8, b1: u8, b2: u8, b3: u8) -> u32 {
    (b0 as u32) | ((b1 as u32) << 8u32) | ((b2 as u32) << 16u32) | ((b3 as u32) << 24u32)
}

/// Splitting a word into bytes and joining them again gives the word back.
pub proof fn lemma_word_bytes(w: u32)
    ensures
        word_of_bytes(
            byte_of_word(w, 0),
            byte_of_word(w, 1),
            byte_of_word(w, 2),
            byte_of_word(w, 3),
        ) == w,
{
    assert(((w & 0xff) as u8 as u32) | ((((w >> 8u32) & 0xff) as u8 as u32) << 8u32) | ((((w
        >> 16u32) & 0xff) as u8 as u32) << 16u32) | (((w >> 24u32) as u8 as u32) << 24u32) == w)
        by (bit_vector);
}

/// Bytes of a word built from four bytes are those bytes.
pub proof fn lemma_bytes_word(b0: u8, b1: u8, b2: u8, b3: u8)
    ensures
        byte_of_word(word_of_bytes(b0, b1, b2, b3), 0) == b0,
        byte_of_word(word_of_bytes(b0, b1, b2, b3), 1) == b1,
        byte_of_word(word_of_bytes(b0, b1, b2, b3), 2) == b2,
        byte_of_word(word_of_bytes(b0, b1, b2, b3), 3) == b3,
{
    let w: u32 = word_of_bytes(b0, b1, b2, b3);
    assert(((w & 0xff) as u8) == b0 && (((w >> 8u32) & 0xff) as u8) == b1 && (((w >> 16u32) & 0xff)
        as u8) == b2 && ((w >> 24u32) as u8) == b3) by (bit_vector)
        requires
            w == (b0 as u32) | ((b1 as u32) << 8u32) | ((b2 as u32) << 16u32) | ((b3 as u32)
                << 24u32),
    ;
}

} // verus!

verus! {

/// A read-only byte sequence held either as bytes or as the little-endian
/// bytes of a word buffer.
#[derive(Clone, Copy, Debug)]
pub enum ByteSource<'a> {
    Bytes(&'a [u8]),
    Words(&'a [u32]),
}

impl<'a> View for ByteSource<'a> {
    type V = Seq<u8>;

    open spec fn view(&self) -> Seq<u8> {
        match self {
            ByteSource::Bytes(b) => b@,
            ByteSource::Words(w) => bytes_of(w@),
        }
    }
}

impl<'a> ByteSource<'a> {
    /// Number of bytes, when it fits in a `usize`.
    pub fn len(&self) -> (r: usize)
        ensures
            r as int == if self@.len() <= usize::MAX { self@.len() as int } else { usize::MAX as int },
    {
        match self {
            ByteSource::Bytes(b) => b.len(),
            ByteSource::Words(w) => {
                if w.len() > usize::MAX / 4 {
                    usize::MAX
                } else {
                    w.len() * 4
                }
            },
        }
    }

    /// Byte `i`.
    pub fn byte(&self, i: usize) -> (r: u8)
        requires
            i < self@.len(),
        ensures
            r == self@[i as int],
    {
        match self {
            ByteSource::Bytes(b) => b[i],
            ByteSource::Words(w) => read_byte(w, i),
        }
    }
}

} // verus!
