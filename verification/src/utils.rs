//! Word sizes, fixed-width scalar encodings and read errors.

use vstd::prelude::*;

verus! {

/// Identifier of an enum value as stored in a field.
pub type EnumValue = i32;

/// Number of 32-bit words needed to hold `size` bytes.
pub open spec fn spec_word_size(size: nat) -> nat {
    (size + 3) / 4
}

/// Number of 32-bit words needed to hold `size` bytes.
pub fn word_size(size: usize) -> (r: usize)
    requires
        size + 3 <= usize::MAX,
    ensures
        r == spec_word_size(size as nat),
{
    (size + 3) / 4
}

/// A value stored inline in one or two little-endian words.
pub trait Scalar: Copy + Sized {
    /// Number of words the value occupies.
    spec fn spec_width() -> nat;

    /// The value encoded by exactly `spec_width()` words.
    spec fn spec_from_words(words: Seq<u32>) -> Self;

    /// The words that encode the value.
    spec fn spec_to_words(self) -> Seq<u32>;

    /// Encoding and decoding are inverse on every value.
    proof fn lemma_words_roundtrip(v: Self)
        ensures
            1 <= Self::spec_width() <= 2,
            v.spec_to_words().len() == Self::spec_width(),
            Self::spec_from_words(v.spec_to_words()) == v,
    ;

    /// Number of words the value occupies.
    fn width() -> (w: usize)
        ensures
            w == Self::spec_width(),
            1 <= w <= 2,
    ;

    /// Decodes a value from exactly `width()` words.
    fn from_words(words: &[u32]) -> (r: Option<Self>)
        ensures
            words@.len() == Self::spec_width() ==> r == Some(Self::spec_from_words(words@)),
            words@.len() != Self::spec_width() ==> r is None,
    ;

    /// Writes the encoding into exactly `width()` words.
    fn write_words(self, words: &mut [u32]) -> (r: Option<()>)
        ensures
            old(words)@.len() == Self::spec_width() ==> r is Some && final(words)@
                == self.spec_to_words(),
            old(words)@.len() != Self::spec_width() ==> r is None && final(words)@ == old(
                words,
            )@,
    ;
}

impl Scalar for u32 {
    open spec fn spec_width() -> nat {
        1
    }

    open spec fn spec_from_words(words: Seq<u32>) -> u32 {
        words[0]
    }

    open spec fn spec_to_words(self) -> Seq<u32> {
        seq![self]
    }

    proof fn lemma_words_roundtrip(v: u32) {
    }

    fn width() -> (w: usize) {
        1
    }

    fn from_words(words: &[u32]) -> (r: Option<u32>) {
        if words.len() != 1 {
            return None;
        }
        Some(words[0])
    }

    fn write_words(self, words: &mut [u32]) -> (r: Option<()>) {
        if words.len() != 1 {
            return None;
        }
        words[0] = self;
        assert(words@ =~= seq![self]);
        Some(())
    }
}

impl Scalar for i32 {
    open spec fn spec_width() -> nat {
        1
    }

    open spec fn spec_from_words(words: Seq<u32>) -> i32 {
        words[0] as i32
    }

    open spec fn spec_to_words(self) -> Seq<u32> {
        seq![self as u32]
    }

    proof fn lemma_words_roundtrip(v: i32) {
        let w: u32 = v as u32;
        assert((w as i32) == v) by (bit_vector)
            requires
                w == v as u32,
        ;
    }

    fn width() -> (w: usize) {
        1
    }

    fn from_words(words: &[u32]) -> (r: Option<i32>) {
        if words.len() != 1 {
            return None;
        }
        Some(words[0] as i32)
    }

    fn write_words(self, words: &mut [u32]) -> (r: Option<()>) {
        if words.len() != 1 {
            return None;
        }
        words[0] = self as u32;
        assert(words@ =~= seq![self as u32]);
        Some(())
    }
}

/// Low word of a 64-bit value.
pub open spec fn lo_word(v: u64) -> u32 {
    (v & 0xffff_ffff) as u32
}

/// High word of a 64-bit value.
pub open spec fn hi_word(v: u64) -> u32 {
    (v >> 32) as u32
}

/// The 64-bit value made of a low and a high word.
pub open spec fn join_words(lo: u32, hi: u32) -> u64 {
    (lo as u64) | ((hi as u64) << 32)
}

pub proof fn lemma_join_split(v: u64)
    ensures
        join_words(lo_word(v), hi_word(v)) == v,
{
    assert((((v & 0xffff_ffff) as u32) as u64) | ((((v >> 32) as u32) as u64) << 32) == v)
        by (bit_vector);
}

/// The low and high words of a 64-bit value are its remainder and quotient
/// by 2^32, and joining two words puts the first one low.
pub proof fn lemma_word_halves(v: u64, lo: u32, hi: u32)
    by (bit_vector)
    ensures
        lo_word(v) == v % 0x1_0000_0000,
        hi_word(v) == v / 0x1_0000_0000,
        join_words(lo, hi) == lo + hi * 0x1_0000_0000,
{
}

impl Scalar for u64 {
    open spec fn spec_width() -> nat {
        2
    }

    open spec fn spec_from_words(words: Seq<u32>) -> u64 {
        join_words(words[0], words[1])
    }

    open spec fn spec_to_words(self) -> Seq<u32> {
        seq![lo_word(self), hi_word(self)]
    }

    proof fn lemma_words_roundtrip(v: u64) {
        lemma_join_split(v);
    }

    fn width() -> (w: usize) {
        2
    }

    fn from_words(words: &[u32]) -> (r: Option<u64>) {
        if words.len() != 2 {
            return None;
        }
        Some((words[0] as u64) | ((words[1] as u64) << 32))
    }

    fn write_words(self, words: &mut [u32]) -> (r: Option<()>) {
        if words.len() != 2 {
            return None;
        }
        words[0] = (self & 0xffff_ffff) as u32;
        words[1] = (self >> 32) as u32;
        assert(words@ =~= seq![lo_word(self), hi_word(self)]);
        Some(())
    }
}

impl Scalar for i64 {
    open spec fn spec_width() -> nat {
        2
    }

    open spec fn spec_from_words(words: Seq<u32>) -> i64 {
        join_words(words[0], words[1]) as i64
    }

    open spec fn spec_to_words(self) -> Seq<u32> {
        seq![lo_word(self as u64), hi_word(self as u64)]
    }

    proof fn lemma_words_roundtrip(v: i64) {
        let u: u64 = v as u64;
        lemma_join_split(u);
        assert((u as i64) == v) by (bit_vector)
            requires
                u == v as u64,
        ;
    }

    fn width() -> (w: usize) {
        2
    }

    fn from_words(words: &[u32]) -> (r: Option<i64>) {
        if words.len() != 2 {
            return None;
        }
        Some(((words[0] as u64) | ((words[1] as u64) << 32)) as i64)
    }

    fn write_words(self, words: &mut [u32]) -> (r: Option<()>) {
        if words.len() != 2 {
            return None;
        }
        let u: u64 = self as u64;
        words[0] = (u & 0xffff_ffff) as u32;
        words[1] = (u >> 32) as u32;
        assert(words@ =~= seq![lo_word(self as u64), hi_word(self as u64)]);
        Some(())
    }
}

/// A `u64` is stored low word first: its words are its remainder and
/// quotient by 2^32, and two words `w0, w1` read back as `w0 + w1 * 2^32`.
pub proof fn lemma_u64_words_little_endian(v: u64, w0: u32, w1: u32)
    ensures
        v.spec_to_words().len() == 2,
        v.spec_to_words()[0] == v % 0x1_0000_0000,
        v.spec_to_words()[1] == v / 0x1_0000_0000,
        u64::spec_from_words(seq![w0, w1]) == w0 + w1 * 0x1_0000_0000,
{
    lemma_word_halves(v, w0, w1);
}

/// An `i64` is stored low word first: its words are the remainder and
/// quotient by 2^32 of its two's-complement form, and two words `w0, w1`
/// read back as the two's-complement value of `w0 + w1 * 2^32`.
pub proof fn lemma_i64_words_little_endian(v: i64, w0: u32, w1: u32)
    ensures
        v.spec_to_words().len() == 2,
        v.spec_to_words()[0] == (v as u64) % 0x1_0000_0000,
        v.spec_to_words()[1] == (v as u64) / 0x1_0000_0000,
        i64::spec_from_words(seq![w0, w1]) == (w0 + w1 * 0x1_0000_0000) as i64,
{
    lemma_word_halves(v as u64, w0, w1);
}

impl Scalar for bool {
    open spec fn spec_width() -> nat {
        1
    }

    open spec fn spec_from_words(words: Seq<u32>) -> bool {
        words[0] != 0
    }

    open spec fn spec_to_words(self) -> Seq<u32> {
        seq![if self { 1u32 } else { 0u32 }]
    }

    proof fn lemma_words_roundtrip(v: bool) {
    }

    fn width() -> (w: usize) {
        1
    }

    fn from_words(words: &[u32]) -> (r: Option<bool>) {
        if words.len() != 1 {
            return None;
        }
        Some(words[0] != 0)
    }

    fn write_words(self, words: &mut [u32]) -> (r: Option<()>) {
        if words.len() != 1 {
            return None;
        }
        words[0] = if self { 1u32 } else { 0u32 };
        assert(words@ =~= self.spec_to_words());
        Some(())
    }
}

/// The kind of corruption detected while reading encoded data.
#[derive(Clone, Copy, Debug, PartialEq, Eq, Structural)]
pub enum CorruptionKind {
    Truncated,
    InvalidHeader,
    InvalidUtf8,
    IntegerOverflow,
}

/// Error reported when encoded data cannot be read.
#[derive(Clone, Copy, Debug, PartialEq, Eq, Structural)]
pub struct ReadError {
    pub kind: CorruptionKind,
}

impl ReadError {
    /// An error of the given kind.
    pub fn new(kind: CorruptionKind) -> (r: Self)
        ensures
            r.kind == kind,
    {
        ReadError { kind }
    }
}

} // verus!
