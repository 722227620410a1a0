//! Zero-copy readers over encoded words: strings, messages, arrays and maps.

use vstd::prelude::*;
use vstd::slice::slice_subrange;
use vstd::utf8::{decode_utf8, valid_utf8};
use vstd::string::StringSliceAdditionalSpecFns;

use crate::perfect_hash::{ph_bytes, ph_complete, ph_len, spec_locate, PerfectHashView};
use crate::utils::{spec_word_size, Scalar};
use crate::words::{byte_at, bytes_of, read_byte};

verus! {

broadcast use vstd::slice::group_slice_axioms;

/// Upper bound (exclusive) of a length mark whose encoding starts at byte `k`.
pub open spec fn mark_bound(k: nat) -> nat {
    if k == 0 {
        0x8_0000_0000
    } else if k == 1 {
        0x1000_0000
    } else if k == 2 {
        0x20_0000
    } else if k == 3 {
        0x4000
    } else if k == 4 {
        0x80
    } else {
        1
    }
}

/// The base-128 length mark that starts at byte `k` of `raw` (at most five
/// bytes in all, counted from byte 0): its value and the index just past it.
pub open spec fn spec_mark(raw: Seq<u8>, k: nat) -> Option<(nat, nat)>
    decreases 5 - k,
{
    if k >= 5 || k >= raw.len() {
        None
    } else if raw[k as int] < 0x80 {
        Some((raw[k as int] as nat, k + 1))
    } else {
        match spec_mark(raw, k + 1) {
            Some((v, used)) => Some(((raw[k as int] - 0x80) as nat + 128 * v, used)),
            None => None,
        }
    }
}

/// Byte range `(start, len)` of the string whose encoding starts `words`.
pub open spec fn spec_string_span(words: Seq<u32>) -> Option<(nat, nat)> {
    let raw = bytes_of(words);
    if raw.len() == 0 || raw[0] % 4 != 0 {
        None
    } else {
        match spec_mark(raw, 0) {
            Some((mark, used)) => if used + mark / 4 <= raw.len() && used + mark / 4 <= usize::MAX {
                Some((used, mark / 4))
            } else {
                None
            },
            None => None,
        }
    }
}

/// Payload bytes of the string whose encoding starts `words`.
pub open spec fn spec_string_bytes(words: Seq<u32>) -> Option<Seq<u8>> {
    match spec_string_span(words) {
        Some((start, len)) => Some(bytes_of(words).subrange(start as int, (start + len) as int)),
        None => None,
    }
}

/// Number of words spanned by the string encoding that starts `words`,
/// computed from its length mark alone.
pub open spec fn spec_string_detect_len(words: Seq<u32>) -> Option<nat> {
    let raw = bytes_of(words);
    if raw.len() == 0 || raw[0] % 4 != 0 {
        None
    } else {
        match spec_mark(raw, 0) {
            Some((mark, used)) => Some((used + mark / 4 + 3) / 4),
            None => None,
        }
    }
}

fn parse_mark(words: &[u32], k: usize) -> (r: Option<(u64, usize)>)
    requires
        k <= 5,
    ensures
        match r {
            Some((v, used)) => spec_mark(bytes_of(words@), k as nat) == Some((v as nat, used as nat))
                && (v as nat) < mark_bound(k as nat) && used <= 5,
            None => spec_mark(bytes_of(words@), k as nat) is None,
        },
    decreases 5 - k,
{
    if k >= 5 || k / 4 >= words.len() {
        return None;
    }
    let byte: u8 = read_byte(words, k);
    if byte < 0x80 {
        Some((byte as u64, k + 1))
    } else {
        match parse_mark(words, k + 1) {
            Some((v, used)) => Some(((byte - 0x80) as u64 + 128 * v, used)),
            None => None,
        }
    }
}

proof fn lemma_low_two_bits(b: u8)
    ensures
        (b & 3 == 0) <==> (b % 4 == 0),
{
    lemma_bits();
    assert((b & 3 == 0) <==> (b % 4 == 0));
}

/// Bit facts on bytes used by the readers.
proof fn lemma_bits_u8()
    by (bit_vector)
    ensures
        forall|b: u8| #![trigger (b & 3u8)] ((b & 3u8) == 0u8) <==> (b % 4u8 == 0u8),
{
}

/// Bit facts on words used by the readers.
proof fn lemma_bits_u32()
    by (bit_vector)
    ensures
        forall|x: u32| #![trigger (x & 0xffu32)] (x & 0xffu32) <= 0xffu32,
        forall|x: u32| #![trigger (x & 3u32)] (x & 3u32) <= 3u32,
        forall|x: u32| #![trigger (x >> 2u32)] (x >> 2u32) < 0x4000_0000u32,
        forall|x: u32| #![trigger ((x >> 30u32) & 3u32)] ((x >> 30u32) & 3u32) <= 3u32,
        forall|x: u32| #![trigger ((x >> 28u32) & 3u32)] ((x >> 28u32) & 3u32) <= 3u32,
{
}

/// Bit facts on 64-bit values used by the readers.
proof fn lemma_bits_u64()
    by (bit_vector)
    ensures
        forall|x: u64| #![trigger (x >> 2u64)] (x >> 2u64) == x / 4u64,
        forall|v: u64, j: u64| #![trigger ((v >> j) & 3u64)] ((v >> j) & 3u64) <= 3u64,
        forall|x: u64| #![trigger (x >> 50u64)] (x >> 50u64) < 0x4000u64,
{
}

/// Bit facts used by the readers.
proof fn lemma_bits()
    ensures
        forall|b: u8| #![trigger (b & 3u8)] ((b & 3u8) == 0u8) <==> (b % 4u8 == 0u8),
        forall|x: u32| #![trigger (x & 0xffu32)] (x & 0xffu32) <= 0xffu32,
        forall|x: u32| #![trigger (x & 3u32)] (x & 3u32) <= 3u32,
        forall|x: u32| #![trigger (x >> 2u32)] (x >> 2u32) < 0x4000_0000u32,
        forall|x: u32| #![trigger ((x >> 30u32) & 3u32)] ((x >> 30u32) & 3u32) <= 3u32,
        forall|x: u32| #![trigger ((x >> 28u32) & 3u32)] ((x >> 28u32) & 3u32) <= 3u32,
        forall|x: u64| #![trigger (x >> 2u64)] (x >> 2u64) == x / 4u64,
        forall|v: u64, j: u64| #![trigger ((v >> j) & 3u64)] ((v >> j) & 3u64) <= 3u64,
        forall|x: u64| #![trigger (x >> 50u64)] (x >> 50u64) < 0x4000u64,
{
    lemma_bits_u8();
    lemma_bits_u32();
    lemma_bits_u64();
}

/// A string or byte-string payload inside an encoded word buffer.
#[derive(Clone, Copy, Debug)]
pub struct StringView<'a> {
    words: &'a [u32],
    start: usize,
    len: usize,
}

impl<'a> View for StringView<'a> {
    type V = Seq<u8>;

    closed spec fn view(&self) -> Seq<u8> {
        bytes_of(self.words@).subrange(self.start as int, (self.start + self.len) as int)
    }
}

impl<'a> StringView<'a> {
    #[verifier::type_invariant]
    closed spec fn inv(self) -> bool {
        self.start + self.len <= self.words@.len() * 4 && self.start + self.len <= usize::MAX
    }

    /// Reads the string whose encoding starts `words`.
    pub fn new(words: &'a [u32]) -> (r: Option<Self>)
        ensures
            match r {
                Some(s) => spec_string_bytes(words@) == Some(s@),
                None => spec_string_bytes(words@) is None,
            },
    {
        if words.len() == 0 {
            return None;
        }
        let first: u8 = read_byte(words, 0);
        proof {
            lemma_low_two_bits(first);
        }
        if (first & 3) != 0 {
            return None;
        }
        let (mark, used) = parse_mark(words, 0)?;
        let byte_len: u64 = mark >> 2u64;
        proof {
            lemma_bits();
        }
        assert(byte_len == mark / 4);
        let end: u128 = used as u128 + byte_len as u128;
        if end > words.len() as u128 * 4 || end > usize::MAX as u128 {
            return None;
        }
        Some(StringView { words, start: used, len: byte_len as usize })
    }

    /// Number of words the string encoding that starts `words` spans.
    pub fn detect_len(words: &'a [u32]) -> (r: Option<usize>)
        ensures
            match r {
                Some(n) => spec_string_detect_len(words@) == Some(n as nat),
                None => spec_string_detect_len(words@) is None,
            },
    {
        if words.len() == 0 {
            return None;
        }
        let first: u8 = read_byte(words, 0);
        proof {
            lemma_low_two_bits(first);
        }
        if (first & 3) != 0 {
            return None;
        }
        let (mark, used) = parse_mark(words, 0)?;
        let byte_len: u64 = mark >> 2u64;
        proof {
            lemma_bits();
        }
        assert(byte_len == mark / 4);
        Some(((used as u64 + byte_len + 3) / 4) as usize)
    }

    /// The words spanned by the string encoding that starts `words`.
    pub fn detect(words: &'a [u32]) -> (r: Option<&'a [u32]>)
        ensures
            match r {
                Some(d) => spec_string_detect_len(words@) matches Some(n) && n <= words@.len()
                    && d@ == words@.subrange(0, n as int),
                None => !(spec_string_detect_len(words@) matches Some(n) && n <= words@.len()),
            },
    {
        let n: usize = Self::detect_len(words)?;
        if n > words.len() {
            return None;
        }
        Some(slice_subrange(words, 0, n))
    }

    /// Length of the payload in bytes.
    pub fn len(&self) -> (r: usize)
        ensures
            r == self@.len(),
    {
        proof {
            use_type_invariant(self);
        }
        self.len
    }

    /// Byte `index` of the payload.
    pub fn byte(&self, index: usize) -> (r: u8)
        requires
            index < self@.len(),
        ensures
            r == self@[index as int],
    {
        proof {
            use_type_invariant(self);
        }
        read_byte(self.words, self.start + index)
    }

    /// A copy of the payload bytes.
    pub fn as_bytes(self) -> (r: Vec<u8>)
        ensures
            r@ == self@,
    {
        proof {
            use_type_invariant(&self);
        }
        let mut out: Vec<u8> = Vec::with_capacity(self.len);
        let mut i: usize = 0;
        while i < self.len
            invariant
                self.start + self.len <= self.words@.len() * 4,
                self.start + self.len <= usize::MAX,
                i <= self.len,
                out@ == self@.subrange(0, i as int),
            decreases self.len - i,
        {
            let b: u8 = read_byte(self.words, self.start + i);
            out.push(b);
            i += 1;
            assert(out@ =~= self@.subrange(0, i as int));
        }
        assert(out@ =~= self@);
        out
    }

    /// The payload as text, when it is valid UTF-8.
    pub fn as_str(self) -> (r: Option<String>)
        ensures
            match r {
                Some(s) => valid_utf8(self@) && s@ == decode_utf8(self@),
                None => !valid_utf8(self@),
            },
    {
        utf8_string(self.as_bytes())
    }

    /// The payload read as one boolean per byte.
    pub fn as_bool_array(self) -> (r: BoolArray<'a>)
        ensures
            r@ == self@,
    {
        BoolArray { bytes: self }
    }
}

/// `String::from_utf8`: the text that the bytes encode, or nothing when they
/// are not valid UTF-8.
#[verifier::external_body]
fn utf8_string(bytes: Vec<u8>) -> (r: Option<String>)
    ensures
        match r {
            Some(s) => valid_utf8(bytes@) && s@ == decode_utf8(bytes@),
            None => !valid_utf8(bytes@),
        },
{
    String::from_utf8(bytes).ok()
}

/// Booleans stored one per byte.
#[derive(Clone, Copy, Debug)]
pub struct BoolArray<'a> {
    bytes: StringView<'a>,
}

impl<'a> View for BoolArray<'a> {
    type V = Seq<u8>;

    closed spec fn view(&self) -> Seq<u8> {
        self.bytes@
    }
}

impl<'a> BoolArray<'a> {
    /// Number of booleans.
    pub fn len(&self) -> (r: usize)
        ensures
            r == self@.len(),
    {
        self.bytes.len()
    }

    /// Whether there are no booleans.
    pub fn is_empty(&self) -> (r: bool)
        ensures
            r == (self@.len() == 0),
    {
        self.bytes.len() == 0
    }

    /// Boolean `index`: any nonzero byte is true.
    pub fn get(&self, index: usize) -> (r: Option<bool>)
        ensures
            index < self@.len() ==> r == Some(self@[index as int] != 0),
            index >= self@.len() ==> r is None,
    {
        if index >= self.bytes.len() {
            return None;
        }
        Some(self.bytes.byte(index) != 0)
    }

    /// All booleans in order.
    pub fn iter(&self) -> (r: Vec<bool>)
        ensures
            r@.len() == self@.len(),
            forall|i: int| 0 <= i < r@.len() ==> r@[i] == (self@[i] != 0),
    {
        let n: usize = self.bytes.len();
        let mut out: Vec<bool> = Vec::with_capacity(n);
        let mut i: usize = 0;
        while i < n
            invariant
                n == self@.len(),
                i <= n,
                out@.len() == i,
                forall|j: int| 0 <= j < i ==> out@[j] == (self@[j] != 0),
            decreases n - i,
        {
            out.push(self.bytes.byte(i) != 0);
            i += 1;
        }
        out
    }
}

/// Width in words of the 2-bit group `j` of `v`.
pub open spec fn group_width(v: u64, j: nat) -> nat {
    ((v >> ((2 * j) as u64)) & 3u64) as nat
}

/// Sum of the 2-bit groups `0..n` of `v`.
pub open spec fn group_sum(v: u64, n: nat) -> nat
    decreases n,
{
    if n == 0 {
        0
    } else {
        group_sum(v, (n - 1) as nat) + group_width(v, (n - 1) as nat)
    }
}

proof fn lemma_group_sum_bound(v: u64, n: nat)
    ensures
        group_sum(v, n) <= 3 * n,
    decreases n,
{
    if n > 0 {
        lemma_group_sum_bound(v, (n - 1) as nat);
        let j: u64 = (2 * (n - 1)) as u64;
        lemma_bits();
        assert((v >> j) & 3u64 <= 3u64);
    }
}

fn sum_groups(v: u64, n: usize) -> (r: u64)
    requires
        n <= 32,
    ensures
        r == group_sum(v, n as nat),
        r <= 3 * n,
{
    let mut sum: u64 = 0;
    let mut j: usize = 0;
    while j < n
        invariant
            j <= n <= 32,
            sum == group_sum(v, j as nat),
            sum <= 3 * j,
        decreases n - j,
    {
        let g: u64 = (v >> ((2 * j) as u64)) & 3u64;
        proof {
            lemma_bits();
        }
        assert(g <= 3);
        sum = sum + g;
        j += 1;
    }
    sum
}

fn group_at(v: u64, j: usize) -> (r: u64)
    requires
        j < 32,
    ensures
        r == group_width(v, j as nat),
        r <= 3,
{
    let g: u64 = (v >> ((2 * j) as u64)) & 3u64;
    proof {
        lemma_bits();
    }
    assert(g <= 3);
    g
}

/// Header of a message: its first word, the number of extra sections and the
/// index of the first body word.
pub open spec fn spec_message_layout(words: Seq<u32>) -> Option<(u32, nat, nat)> {
    if words.len() == 0 {
        None
    } else {
        let head = words[0];
        let section = (head & 0xff) as nat;
        let body = 1 + 2 * section;
        if body <= words.len() {
            Some((head, section, body))
        } else {
            None
        }
    }
}

/// The 64-bit mark of extra section `s` of a message.
pub open spec fn section_mark(words: Seq<u32>, s: nat) -> u64 {
    crate::utils::join_words(words[1 + 2 * s as int], words[2 + 2 * s as int])
}

/// Start index and width of field `id` of the message that starts `words`.
pub open spec fn spec_message_field(words: Seq<u32>, id: nat) -> Option<(nat, nat)> {
    match spec_message_layout(words) {
        None => None,
        Some((head, section, body)) => {
            let loc: Option<(nat, nat)> = if id < 12 {
                let v = (head >> 8u32) as u64;
                let w = group_width(v, id);
                if w == 0 {
                    None
                } else {
                    Some((group_sum(v, id), w))
                }
            } else {
                let s = ((id - 12) as nat) / 25;
                let b = ((id - 12) as nat) % 25;
                if s >= section {
                    None
                } else {
                    let mark = section_mark(words, s);
                    let w = group_width(mark, b);
                    if w == 0 {
                        None
                    } else {
                        Some((group_sum(mark, b) + (mark >> 50u64) as nat, w))
                    }
                }
            };
            match loc {
                Some((off, w)) => if body + off <= words.len() {
                    Some((body + off, w))
                } else {
                    None
                },
                None => None,
            }
        },
    }
}

/// Number of words spanned by the message that starts `words`, computed from
/// its header alone; it must lie within `words`.
pub open spec fn spec_message_detect_len(words: Seq<u32>) -> Option<nat> {
    if words.len() == 0 {
        None
    } else {
        let head = words[0];
        let section = (head & 0xff) as nat;
        let tail = 1 + 2 * section;
        let total: Option<nat> = if section == 0 {
            Some(tail + group_sum(head as u64, 16))
        } else if tail <= words.len() {
            let mark = section_mark(words, (section - 1) as nat);
            Some(tail + group_sum(mark, 25) + (mark >> 50u64) as nat)
        } else {
            None
        };
        match total {
            Some(t) => if t <= words.len() {
                Some(t)
            } else {
                None
            },
            None => None,
        }
    }
}

/// The `width` cell words at the start of `tail`, when they are there.
pub open spec fn cell_raw(tail: Seq<u32>, width: nat) -> Option<Seq<u32>> {
    if width <= tail.len() {
        Some(tail.subrange(0, width as int))
    } else {
        None
    }
}

/// The words at which the object of the cell starting `tail` starts: after
/// following an offset cell (low bits `11`), or the cell itself.
pub open spec fn cell_object(tail: Seq<u32>) -> Option<Seq<u32>> {
    if tail.len() == 0 {
        None
    } else if tail[0] & 3 == 3 {
        let off = (tail[0] >> 2u32) as nat;
        if off <= tail.len() {
            Some(tail.subrange(off as int, tail.len() as int))
        } else {
            None
        }
    } else {
        Some(tail)
    }
}

/// The scalar stored in the `width`-word cell at the start of `tail`.
pub open spec fn cell_scalar<T: Scalar>(tail: Seq<u32>, width: nat) -> Option<T> {
    match cell_raw(tail, width) {
        Some(w) => if w.len() == T::spec_width() {
            Some(T::spec_from_words(w))
        } else {
            None
        },
        None => None,
    }
}

/// One field slot: the words from the field's cell to the end of the buffer
/// and the cell's width.
#[derive(Clone, Copy, Debug)]
pub struct FieldView<'a> {
    tail: &'a [u32],
    width: usize,
}

impl<'a> FieldView<'a> {
    /// The words from the field's cell to the end of the buffer.
    pub closed spec fn spec_tail(self) -> Seq<u32> {
        self.tail@
    }

    /// Width of the field's cell in words.
    pub closed spec fn spec_width(self) -> nat {
        self.width as nat
    }

    /// The cell words, when the buffer holds them.
    pub open spec fn spec_raw_words(self) -> Option<Seq<u32>> {
        cell_raw(self.spec_tail(), self.spec_width())
    }

    /// The words at which the field's object starts: after following an
    /// offset cell, or the cell itself.
    pub open spec fn spec_object_words(self) -> Option<Seq<u32>> {
        cell_object(self.spec_tail())
    }

    /// The scalar stored in the cell.
    pub open spec fn spec_scalar<T: Scalar>(self) -> Option<T> {
        cell_scalar::<T>(self.spec_tail(), self.spec_width())
    }

    /// The cell words.
    pub fn raw_words(self) -> (r: Option<&'a [u32]>)
        ensures
            match r {
                Some(w) => self.spec_raw_words() == Some(w@),
                None => self.spec_raw_words() is None,
            },
    {
        if self.width > self.tail.len() {
            return None;
        }
        Some(slice_subrange(self.tail, 0, self.width))
    }

    /// The cell words; the cell must lie within the buffer.
    pub fn expect_raw_words(self) -> (r: &'a [u32])
        requires
            self.spec_raw_words() is Some,
        ensures
            self.spec_raw_words() == Some(r@),
    {
        slice_subrange(self.tail, 0, self.width)
    }

    /// The words at which the field's object starts.
    pub fn object_words(self) -> (r: Option<&'a [u32]>)
        ensures
            match r {
                Some(w) => self.spec_object_words() == Some(w@),
                None => self.spec_object_words() is None,
            },
    {
        if self.tail.len() == 0 {
            return None;
        }
        let first: u32 = self.tail[0];
        if (first & 3) == 3 {
            let off: usize = (first >> 2u32) as usize;
            if off > self.tail.len() {
                return None;
            }
            Some(slice_subrange(self.tail, off, self.tail.len()))
        } else {
            Some(self.tail)
        }
    }

    /// Number of words from the field's cell to the end of the buffer.
    pub(crate) fn tail_len(self) -> (r: usize)
        ensures
            r == self.spec_tail().len(),
    {
        self.tail.len()
    }

    /// Where the field's object starts, counted from the field's cell.
    pub(crate) fn object_offset(self) -> (r: Option<usize>)
        ensures
            match r {
                Some(o) => o <= self.spec_tail().len() && self.spec_object_words() == Some(
                    self.spec_tail().subrange(o as int, self.spec_tail().len() as int),
                ),
                None => self.spec_object_words() is None,
            },
    {
        if self.tail.len() == 0 {
            return None;
        }
        let first: u32 = self.tail[0];
        if (first & 3) == 3 {
            let off: usize = (first >> 2u32) as usize;
            if off > self.tail.len() {
                return None;
            }
            Some(off)
        } else {
            assert(self.tail@.subrange(0, self.tail@.len() as int) =~= self.tail@);
            Some(0)
        }
    }

    /// The words at which the field's object starts; they must exist.
    pub fn expect_object_words(self) -> (r: &'a [u32])
        requires
            self.spec_object_words() is Some,
        ensures
            self.spec_object_words() == Some(r@),
    {
        let first: u32 = self.tail[0];
        if (first & 3) == 3 {
            slice_subrange(self.tail, (first >> 2u32) as usize, self.tail.len())
        } else {
            self.tail
        }
    }

    /// The scalar stored in the cell.
    pub fn scalar<T: Scalar>(self) -> (r: Option<T>)
        ensures
            r == self.spec_scalar::<T>(),
    {
        let w = self.raw_words()?;
        T::from_words(w)
    }

    /// The scalar stored in the cell; it must be there.
    pub fn expect_scalar<T: Scalar>(self) -> (r: T)
        requires
            self.spec_scalar::<T>() is Some,
        ensures
            Some(r) == self.spec_scalar::<T>(),
    {
        let w = self.expect_raw_words();
        match T::from_words(w) {
            Some(v) => v,
            None => vstd::pervasive::unreached(),
        }
    }

    /// The cell words of a scalar field.
    pub fn detect_scalar(self) -> (r: Option<&'a [u32]>)
        ensures
            match r {
                Some(w) => self.spec_raw_words() == Some(w@),
                None => self.spec_raw_words() is None,
            },
    {
        self.raw_words()
    }

    /// The string the field refers to.
    pub fn string(self) -> (r: Option<StringView<'a>>)
        ensures
            match r {
                Some(s) => self.spec_object_words() matches Some(w) && spec_string_bytes(w) == Some(
                    s@,
                ),
                None => !(self.spec_object_words() matches Some(w) && spec_string_bytes(w) is Some),
            },
    {
        let w = self.object_words()?;
        StringView::new(w)
    }

    /// The string the field refers to; it must be there.
    pub fn expect_string(self) -> (r: StringView<'a>)
        requires
            self.spec_object_words() matches Some(w) && spec_string_bytes(w) is Some,
        ensures
            self.spec_object_words() matches Some(w) && spec_string_bytes(w) == Some(r@),
    {
        let w = self.expect_object_words();
        match StringView::new(w) {
            Some(s) => s,
            None => vstd::pervasive::unreached(),
        }
    }

    /// The words spanned by the string the field refers to.
    pub fn detect_string(self) -> (r: Option<&'a [u32]>)
        ensures
            match r {
                Some(d) => self.spec_object_words() matches Some(w) && spec_string_detect_len(w)
                    matches Some(n) && n <= w.len() && d@ == w.subrange(0, n as int),
                None => !(self.spec_object_words() matches Some(w) && spec_string_detect_len(w)
                    matches Some(n) && n <= w.len()),
            },
    {
        let w = self.object_words()?;
        StringView::detect(w)
    }

    /// The message the field refers to.
    pub fn message(self) -> (r: Option<MessageView<'a>>)
        ensures
            match r {
                Some(m) => self.spec_object_words() == Some(m@) && spec_message_layout(m@) is Some,
                None => !(self.spec_object_words() matches Some(w) && spec_message_layout(w) is Some),
            },
    {
        let w = self.object_words()?;
        MessageView::new(w)
    }

    /// The message the field refers to; it must be there.
    pub fn expect_message(self) -> (r: MessageView<'a>)
        requires
            self.spec_object_words() matches Some(w) && spec_message_layout(w) is Some,
        ensures
            self.spec_object_words() == Some(r@),
    {
        let w = self.expect_object_words();
        match MessageView::new(w) {
            Some(m) => m,
            None => vstd::pervasive::unreached(),
        }
    }

    /// The words spanned by the message the field refers to.
    pub fn detect_message(self) -> (r: Option<&'a [u32]>)
        ensures
            match r {
                Some(d) => self.spec_object_words() matches Some(w) && spec_message_detect_len(w)
                    matches Some(n) && d@ == w.subrange(0, n as int),
                None => !(self.spec_object_words() matches Some(w) && spec_message_detect_len(w)
                    is Some),
            },
    {
        let w = self.object_words()?;
        MessageView::detect(w)
    }

    /// The array the field refers to.
    pub fn array(self) -> (r: Option<ArrayView<'a>>)
        ensures
            match r {
                Some(a) => self.spec_object_words() == Some(a@) && spec_array_header(a@) is Some,
                None => !(self.spec_object_words() matches Some(w) && spec_array_header(w) is Some),
            },
    {
        let w = self.object_words()?;
        ArrayView::new(w)
    }

    /// The array the field refers to; it must be there.
    pub fn expect_array(self) -> (r: ArrayView<'a>)
        requires
            self.spec_object_words() matches Some(w) && spec_array_header(w) is Some,
        ensures
            self.spec_object_words() == Some(r@),
    {
        let w = self.expect_object_words();
        match ArrayView::new(w) {
            Some(a) => a,
            None => vstd::pervasive::unreached(),
        }
    }

    /// The words spanned by the array the field refers to.
    pub fn detect_array(self) -> (r: Option<&'a [u32]>)
        ensures
            match r {
                Some(d) => self.spec_object_words() matches Some(w) && spec_array_detect_len(w)
                    matches Some(n) && n <= w.len() && d@ == w.subrange(0, n as int),
                None => !(self.spec_object_words() matches Some(w) && spec_array_detect_len(w)
                    matches Some(n) && n <= w.len()),
            },
    {
        let w = self.object_words()?;
        ArrayView::detect(w)
    }

    /// The map the field refers to.
    pub fn map(self) -> (r: Option<MapView<'a>>)
        ensures
            match r {
                Some(m) => self.spec_object_words() == Some(m@) && spec_map_layout(m@) is Some,
                None => !(self.spec_object_words() matches Some(w) && spec_map_layout(w) is Some),
            },
    {
        let w = self.object_words()?;
        MapView::new(w)
    }

    /// The map the field refers to; it must be there.
    pub fn expect_map(self) -> (r: MapView<'a>)
        requires
            self.spec_object_words() matches Some(w) && spec_map_layout(w) is Some,
        ensures
            self.spec_object_words() == Some(r@),
    {
        let w = self.expect_object_words();
        match MapView::new(w) {
            Some(m) => m,
            None => vstd::pervasive::unreached(),
        }
    }

    /// The words spanned by the map the field refers to.
    pub fn detect_map(self) -> (r: Option<&'a [u32]>)
        ensures
            match r {
                Some(d) => self.spec_object_words() matches Some(w) && spec_map_detect_len(w)
                    matches Some(n) && n <= w.len() && d@ == w.subrange(0, n as int),
                None => !(self.spec_object_words() matches Some(w) && spec_map_detect_len(w)
                    matches Some(n) && n <= w.len()),
            },
    {
        let w = self.object_words()?;
        MapView::detect(w)
    }
}

/// A message: a header of 2-bit field widths followed by the field cells.
#[derive(Clone, Copy, Debug)]
pub struct MessageView<'a> {
    words: &'a [u32],
}

impl<'a> View for MessageView<'a> {
    type V = Seq<u32>;

    closed spec fn view(&self) -> Seq<u32> {
        self.words@
    }
}

impl<'a> MessageView<'a> {
    #[verifier::type_invariant]
    closed spec fn inv(self) -> bool {
        spec_message_layout(self.words@) is Some
    }

    /// Reads the message that starts `words`.
    pub fn new(words: &'a [u32]) -> (r: Option<Self>)
        ensures
            match r {
                Some(m) => m@ == words@ && spec_message_layout(words@) is Some,
                None => spec_message_layout(words@) is None,
            },
    {
        if words.len() == 0 {
            return None;
        }
        let head: u32 = words[0];
        proof {
            lemma_bits();
        }
        assert(head & 0xff <= 0xff);
        let section: usize = (head & 0xff) as usize;
        if 1 + 2 * section > words.len() {
            return None;
        }
        Some(MessageView { words })
    }

    /// Reads the message that starts `words`.
    pub fn from_words(words: &'a [u32]) -> (r: Option<Self>)
        ensures
            match r {
                Some(m) => m@ == words@ && spec_message_layout(words@) is Some,
                None => spec_message_layout(words@) is None,
            },
    {
        Self::new(words)
    }

    /// The words the message was read from.
    pub fn raw_words(self) -> (r: &'a [u32])
        ensures
            r@ == self@,
    {
        self.words
    }

    /// Number of words the message spans.
    pub fn detect_len(words: &'a [u32]) -> (r: Option<usize>)
        ensures
            match r {
                Some(n) => spec_message_detect_len(words@) == Some(n as nat),
                None => spec_message_detect_len(words@) is None,
            },
    {
        if words.len() == 0 {
            return None;
        }
        let head: u32 = words[0];
        proof {
            lemma_bits();
        }
        assert(head & 0xff <= 0xff);
        let section: usize = (head & 0xff) as usize;
        let tail: usize = 1 + 2 * section;
        let total: usize;
        if section == 0 {
            total = tail + sum_groups(head as u64, 16) as usize;
        } else {
            if tail > words.len() {
                return None;
            }
            let mark: u64 = (words[tail - 2] as u64) | ((words[tail - 1] as u64) << 32u64);
            assert(mark == section_mark(words@, (section - 1) as nat));
            let sum: u64 = sum_groups(mark, 25);
            let off: u64 = mark >> 50u64;
            proof {
                lemma_bits();
            }
            assert(off < 0x4000);
            total = tail + sum as usize + off as usize;
        }
        if total > words.len() {
            return None;
        }
        Some(total)
    }

    /// The words the message spans.
    pub fn detect(words: &'a [u32]) -> (r: Option<&'a [u32]>)
        ensures
            match r {
                Some(d) => spec_message_detect_len(words@) matches Some(n) && d@ == words@.subrange(
                    0,
                    n as int,
                ),
                None => spec_message_detect_len(words@) is None,
            },
    {
        let n: usize = Self::detect_len(words)?;
        Some(slice_subrange(words, 0, n))
    }

    /// Whether field `id` is present.
    pub fn has_field(self, id: usize) -> (r: bool)
        ensures
            r == spec_message_field(self@, id as nat) is Some,
    {
        self.field(id).is_some()
    }

    /// Field `id`, when present.
    pub fn field(self, id: usize) -> (r: Option<FieldView<'a>>)
        ensures
            match r {
                Some(f) => spec_message_field(self@, id as nat) matches Some((start, w))
                    && f.spec_tail() == self@.subrange(start as int, self@.len() as int)
                    && f.spec_width() == w,
                None => spec_message_field(self@, id as nat) is None,
            },
    {
        proof {
            use_type_invariant(&self);
        }
        field_in(self.words, id)
    }

    /// Field `id`; it must be present.
    pub fn expect_field(self, id: usize) -> (r: FieldView<'a>)
        requires
            spec_message_field(self@, id as nat) is Some,
        ensures
            spec_message_field(self@, id as nat) matches Some((start, w)) && r.spec_tail()
                == self@.subrange(start as int, self@.len() as int) && r.spec_width() == w,
    {
        match self.field(id) {
            Some(f) => f,
            None => vstd::pervasive::unreached(),
        }
    }

    /// The scalar in field `id`.
    pub fn scalar<T: Scalar>(self, id: usize) -> (r: Option<T>)
        ensures
            r == spec_message_scalar::<T>(self@, id as nat),
    {
        let f = self.field(id)?;
        f.scalar::<T>()
    }

    /// The string in field `id`.
    pub fn string(self, id: usize) -> (r: Option<StringView<'a>>)
        ensures
            match r {
                Some(s) => spec_message_string(self@, id as nat) == Some(s@),
                None => spec_message_string(self@, id as nat) is None,
            },
    {
        let f = self.field(id)?;
        f.string()
    }

    /// A copy of the bytes in field `id`.
    pub fn bytes(self, id: usize) -> (r: Option<Vec<u8>>)
        ensures
            match r {
                Some(b) => spec_message_string(self@, id as nat) == Some(b@),
                None => spec_message_string(self@, id as nat) is None,
            },
    {
        Some(self.string(id)?.as_bytes())
    }

    /// The booleans in field `id`.
    pub fn bools(self, id: usize) -> (r: Option<BoolArray<'a>>)
        ensures
            match r {
                Some(b) => spec_message_string(self@, id as nat) == Some(b@),
                None => spec_message_string(self@, id as nat) is None,
            },
    {
        Some(self.string(id)?.as_bool_array())
    }

    /// The message in field `id`.
    pub fn message(self, id: usize) -> (r: Option<MessageView<'a>>)
        ensures
            match r {
                Some(m) => spec_message_object(self@, id as nat) == Some(m@) && spec_message_layout(
                    m@,
                ) is Some,
                None => !(spec_message_object(self@, id as nat) matches Some(w)
                    && spec_message_layout(w) is Some),
            },
    {
        let f = self.field(id)?;
        f.message()
    }

    /// The array in field `id`.
    pub fn array(self, id: usize) -> (r: Option<ArrayView<'a>>)
        ensures
            match r {
                Some(a) => spec_message_object(self@, id as nat) == Some(a@) && spec_array_header(
                    a@,
                ) is Some,
                None => !(spec_message_object(self@, id as nat) matches Some(w)
                    && spec_array_header(w) is Some),
            },
    {
        let f = self.field(id)?;
        f.array()
    }

    /// The map in field `id`.
    pub fn map(self, id: usize) -> (r: Option<MapView<'a>>)
        ensures
            match r {
                Some(m) => spec_message_object(self@, id as nat) == Some(m@) && spec_map_layout(
                    m@,
                ) is Some,
                None => !(spec_message_object(self@, id as nat) matches Some(w) && spec_map_layout(
                    w,
                ) is Some),
            },
    {
        let f = self.field(id)?;
        f.map()
    }
}

/// The tail of words at the cell of field `id` of a message, and its width.
pub open spec fn spec_message_cell(words: Seq<u32>, id: nat) -> Option<(Seq<u32>, nat)> {
    match spec_message_field(words, id) {
        Some((start, w)) => Some((words.subrange(start as int, words.len() as int), w)),
        None => None,
    }
}

/// The scalar in field `id` of a message.
pub open spec fn spec_message_scalar<T: Scalar>(words: Seq<u32>, id: nat) -> Option<T> {
    match spec_message_cell(words, id) {
        Some((tail, w)) => cell_scalar::<T>(tail, w),
        None => None,
    }
}

/// The object words that field `id` of a message refers to.
pub open spec fn spec_message_object(words: Seq<u32>, id: nat) -> Option<Seq<u32>> {
    match spec_message_cell(words, id) {
        Some((tail, w)) => cell_object(tail),
        None => None,
    }
}

/// The string bytes in field `id` of a message.
pub open spec fn spec_message_string(words: Seq<u32>, id: nat) -> Option<Seq<u8>> {
    match spec_message_object(words, id) {
        Some(w) => spec_string_bytes(w),
        None => None,
    }
}

fn field_in<'a>(words: &'a [u32], id: usize) -> (r: Option<FieldView<'a>>)
    requires
        spec_message_layout(words@) is Some,
    ensures
        match r {
            Some(f) => spec_message_field(words@, id as nat) matches Some((start, w))
                && f.spec_tail() == words@.subrange(start as int, words@.len() as int)
                && f.spec_width() == w,
            None => spec_message_field(words@, id as nat) is None,
        },
{
    let head: u32 = words[0];
    proof {
        lemma_bits();
    }
    assert(head & 0xff <= 0xff);
    let section: usize = (head & 0xff) as usize;
    let body: usize = 1 + 2 * section;
    let width: u64;
    let off: u64;
    if id < 12 {
        let v: u64 = (head >> 8u32) as u64;
        width = group_at(v, id);
        if width == 0 {
            return None;
        }
        off = sum_groups(v, id);
    } else {
        let s: usize = (id - 12) / 25;
        let b: usize = (id - 12) % 25;
        if s >= section {
            return None;
        }
        let mark: u64 = (words[1 + 2 * s] as u64) | ((words[2 + 2 * s] as u64) << 32u64);
        width = group_at(mark, b);
        if width == 0 {
            return None;
        }
        let extra: u64 = mark >> 50u64;
        proof {
            lemma_bits();
        }
        assert(extra < 0x4000);
        off = sum_groups(mark, b) + extra;
    }
    if off as usize > words.len() - body {
        return None;
    }
    let start: usize = body + off as usize;
    Some(FieldView { tail: slice_subrange(words, start, words.len()), width: width as usize })
}

/// Header of an array: its element count and cell width, when the cells lie
/// within `words`.
pub open spec fn spec_array_header(words: Seq<u32>) -> Option<(nat, nat)> {
    if words.len() == 0 {
        None
    } else {
        let head = words[0];
        let len = (head >> 2u32) as nat;
        let width = (head & 3) as nat;
        if width == 0 || 1 + len * width > words.len() {
            None
        } else {
            Some((len, width))
        }
    }
}

/// Number of words spanned by the array that starts `words`, from its header.
pub open spec fn spec_array_detect_len(words: Seq<u32>) -> Option<nat> {
    if words.len() == 0 {
        None
    } else {
        let head = words[0];
        let len = (head >> 2u32) as nat;
        let width = (head & 3) as nat;
        if width == 0 {
            None
        } else {
            Some(1 + len * width)
        }
    }
}

/// An array: a header word followed by equally wide cells.
#[derive(Clone, Copy, Debug)]
pub struct ArrayView<'a> {
    words: &'a [u32],
    len: usize,
    width: usize,
}

impl<'a> View for ArrayView<'a> {
    type V = Seq<u32>;

    closed spec fn view(&self) -> Seq<u32> {
        self.words@
    }
}

proof fn lemma_cells_fit(len: nat, width: nat, index: nat)
    requires
        index < len,
        width <= 3,
    ensures
        index * width + width <= len * width,
{
    assert(index * width + width <= len * width) by (nonlinear_arith)
        requires
            index < len,
            width <= 3,
    ;
}

impl<'a> ArrayView<'a> {
    #[verifier::type_invariant]
    closed spec fn inv(self) -> bool {
        &&& spec_array_header(self.words@) == Some((self.len as nat, self.width as nat))
        &&& 1 <= self.width <= 3
        &&& self.len < 0x4000_0000
        &&& 1 + self.len * self.width <= self.words@.len()
    }

    /// Number of elements and cell width.
    pub open spec fn spec_header(self) -> (nat, nat) {
        spec_array_header(self@).unwrap()
    }

    /// Reads the array that starts `words`.
    pub fn new(words: &'a [u32]) -> (r: Option<Self>)
        ensures
            match r {
                Some(a) => a@ == words@ && spec_array_header(words@) is Some,
                None => spec_array_header(words@) is None,
            },
    {
        if words.len() == 0 {
            return None;
        }
        let head: u32 = words[0];
        let len: usize = (head >> 2u32) as usize;
        let width: usize = (head & 3) as usize;
        if width == 0 {
            return None;
        }
        proof {
            lemma_bits();
        }
        assert((head & 3) <= 3);
        proof {
            lemma_bits();
        }
        assert((head >> 2u32) < 0x4000_0000);
        assert(len * width <= 3 * 0x4000_0000) by (nonlinear_arith)
            requires
                len < 0x4000_0000,
                width <= 3,
        ;
        let cells: u64 = len as u64 * width as u64;
        if 1 + cells > words.len() as u64 {
            return None;
        }
        Some(ArrayView { words, len, width })
    }

    /// Number of words the array spans, from its header.
    pub fn detect_len(words: &'a [u32]) -> (r: Option<usize>)
        ensures
            match r {
                Some(n) => spec_array_detect_len(words@) == Some(n as nat),
                None => spec_array_detect_len(words@) is None,
            },
    {
        if words.len() == 0 {
            return None;
        }
        let head: u32 = words[0];
        let len: u64 = (head >> 2u32) as u64;
        let width: u64 = (head & 3) as u64;
        if width == 0 {
            return None;
        }
        proof {
            lemma_bits();
        }
        assert((head & 3) <= 3);
        proof {
            lemma_bits();
        }
        assert((head >> 2u32) < 0x4000_0000);
        assert(len * width <= 3 * 0x4000_0000) by (nonlinear_arith)
            requires
                len < 0x4000_0000,
                width <= 3,
        ;
        let total: u64 = 1 + len * width;
        if total > usize::MAX as u64 {
            return None;
        }
        Some(total as usize)
    }

    /// The words the array spans.
    pub fn detect(words: &'a [u32]) -> (r: Option<&'a [u32]>)
        ensures
            match r {
                Some(d) => spec_array_detect_len(words@) matches Some(n) && n <= words@.len()
                    && d@ == words@.subrange(0, n as int),
                None => !(spec_array_detect_len(words@) matches Some(n) && n <= words@.len()),
            },
    {
        let n: usize = match Self::detect_len(words) {
            Some(n) => n,
            None => {
                return None;
            },
        };
        if n > words.len() {
            return None;
        }
        Some(slice_subrange(words, 0, n))
    }

    /// Number of elements.
    pub fn len(self) -> (r: usize)
        ensures
            r == self.spec_header().0,
    {
        proof {
            use_type_invariant(&self);
        }
        self.len
    }

    /// Whether the array has no elements.
    pub fn is_empty(self) -> (r: bool)
        ensures
            r == (self.spec_header().0 == 0),
    {
        proof {
            use_type_invariant(&self);
        }
        self.len == 0
    }

    /// Width of each cell in words.
    pub fn width(self) -> (r: usize)
        ensures
            r == self.spec_header().1,
    {
        proof {
            use_type_invariant(&self);
        }
        self.width
    }

    /// Element `index`, as a field whose cell starts at word
    /// `1 + index * width`.
    pub fn field(self, index: usize) -> (r: Option<FieldView<'a>>)
        ensures
            index < self.spec_header().0 ==> (r matches Some(f) && f.spec_tail()
                == self@.subrange(1 + index * self.spec_header().1, self@.len() as int)
                && f.spec_width() == self.spec_header().1),
            index >= self.spec_header().0 ==> r is None,
    {
        proof {
            use_type_invariant(&self);
        }
        if index >= self.len {
            return None;
        }
        Some(self.expect_field(index))
    }

    /// Element `index`, which must exist.
    pub fn expect_field(self, index: usize) -> (r: FieldView<'a>)
        requires
            index < self.spec_header().0,
        ensures
            r.spec_tail() == self@.subrange(1 + index * self.spec_header().1, self@.len() as int),
            r.spec_width() == self.spec_header().1,
    {
        proof {
            use_type_invariant(&self);
            lemma_cells_fit(self.len as nat, self.width as nat, index as nat);
        }
        let start: usize = 1 + index * self.width;
        FieldView { tail: slice_subrange(self.words, start, self.words.len()), width: self.width }
    }

    /// The elements read as scalars of `T`, when the cell width is `T`'s.
    pub fn scalars<T: Scalar>(self) -> (r: Option<ScalarArray<'a, T>>)
        ensures
            self.spec_header().1 == T::spec_width() ==> (r matches Some(s) && s@
                == spec_scalars::<T>(self@.subrange(1, self@.len() as int), self.spec_header().0)),
            self.spec_header().1 != T::spec_width() ==> r is None,
    {
        proof {
            use_type_invariant(&self);
        }
        if self.width != T::width() {
            return None;
        }
        Some(self.expect_scalars::<T>())
    }

    /// The elements read as scalars of `T`; the width must be `T`'s.
    pub fn expect_scalars<T: Scalar>(self) -> (r: ScalarArray<'a, T>)
        requires
            self.spec_header().1 == T::spec_width(),
        ensures
            r@ == spec_scalars::<T>(self@.subrange(1, self@.len() as int), self.spec_header().0),
    {
        proof {
            use_type_invariant(&self);
        }
        let w: usize = T::width();
        let total: usize = self.words.len();
        let cells: &'a [u32] = slice_subrange(self.words, 1, 1 + self.len * self.width);
        let r = ScalarArray { words: cells, len: self.len, _marker: core::marker::PhantomData };
        proof {
            let body = self.words@.subrange(1, self.words@.len() as int);
            assert(cells@ =~= body.subrange(0, cells@.len() as int));
            lemma_scalars_prefix::<T>(body, cells@, self.len as nat);
        }
        r
    }

    /// All elements in order, as fields.
    pub fn iter(self) -> (r: Vec<FieldView<'a>>)
        ensures
            r@.len() == self.spec_header().0,
            forall|i: int|
                0 <= i < r@.len() ==> (#[trigger] r@[i]).spec_tail() == self@.subrange(
                    1 + i * self.spec_header().1,
                    self@.len() as int,
                ) && r@[i].spec_width() == self.spec_header().1,
    {
        proof {
            use_type_invariant(&self);
        }
        let mut out: Vec<FieldView<'a>> = Vec::with_capacity(self.len);
        let mut i: usize = 0;
        while i < self.len
            invariant
                spec_array_header(self.words@) == Some((self.len as nat, self.width as nat)),
                1 <= self.width <= 3,
                self.len < 0x4000_0000,
                1 + self.len * self.width <= self.words@.len(),
                i <= self.len,
                out@.len() == i,
                forall|j: int|
                    0 <= j < i ==> (#[trigger] out@[j]).spec_tail() == self@.subrange(
                        1 + j * self.spec_header().1,
                        self@.len() as int,
                    ) && out@[j].spec_width() == self.spec_header().1,
            decreases self.len - i,
        {
            out.push(self.expect_field(i));
            i += 1;
        }
        out
    }
}

/// The scalars held by `len` cells of `T`'s width at the start of `cells`.
pub open spec fn spec_scalars<T: Scalar>(cells: Seq<u32>, len: nat) -> Seq<T> {
    Seq::new(
        len,
        |i: int|
            T::spec_from_words(
                cells.subrange(i * T::spec_width(), i * T::spec_width() + T::spec_width()),
            ),
    )
}

proof fn lemma_scalars_prefix<T: Scalar>(cells: Seq<u32>, prefix: Seq<u32>, len: nat)
    requires
        prefix.len() <= cells.len(),
        prefix == cells.subrange(0, prefix.len() as int),
        prefix.len() == len * T::spec_width(),
    ensures
        spec_scalars::<T>(prefix, len) == spec_scalars::<T>(cells, len),
{
    T::lemma_words_roundtrip(arbitrary());
    assert forall|i: int| 0 <= i < len implies #[trigger] spec_scalars::<T>(prefix, len)[i]
        == spec_scalars::<T>(cells, len)[i] by {
        let w = T::spec_width() as int;
        assert(i * w + w <= len * w) by (nonlinear_arith)
            requires
                0 <= i < len,
                w >= 0,
        ;
        assert(prefix.subrange(i * w, i * w + w) =~= cells.subrange(i * w, i * w + w));
    }
    assert(spec_scalars::<T>(prefix, len) =~= spec_scalars::<T>(cells, len));
}

/// Scalars of one type stored in consecutive cells.
pub struct ScalarArray<'a, T: Scalar> {
    words: &'a [u32],
    len: usize,
    _marker: core::marker::PhantomData<T>,
}

impl<'a, T: Scalar> Clone for ScalarArray<'a, T> {
    fn clone(&self) -> (r: Self)
        ensures
            r == *self,
    {
        proof {
            use_type_invariant(self);
        }
        ScalarArray { words: self.words, len: self.len, _marker: core::marker::PhantomData }
    }
}

impl<'a, T: Scalar> Copy for ScalarArray<'a, T> {

}

impl<'a, T: Scalar> View for ScalarArray<'a, T> {
    type V = Seq<T>;

    closed spec fn view(&self) -> Seq<T> {
        spec_scalars::<T>(self.words@, self.len as nat)
    }
}

impl<'a, T: Scalar> ScalarArray<'a, T> {
    #[verifier::type_invariant]
    closed spec fn inv(self) -> bool {
        self.words@.len() == self.len * T::spec_width()
    }

    /// Number of scalars.
    pub fn len(&self) -> (r: usize)
        ensures
            r == self@.len(),
    {
        self.len
    }

    /// Whether there are no scalars.
    pub fn is_empty(&self) -> (r: bool)
        ensures
            r == (self@.len() == 0),
    {
        self.len == 0
    }

    /// Scalar `index`.
    pub fn get(&self, index: usize) -> (r: Option<T>)
        ensures
            index < self@.len() ==> r == Some(self@[index as int]),
            index >= self@.len() ==> r is None,
    {
        proof {
            use_type_invariant(self);
        }
        if index >= self.len {
            return None;
        }
        let w: usize = T::width();
        let total: usize = self.words.len();
        proof {
            lemma_cells_fit(self.len as nat, w as nat, index as nat);
            assert(self.words@.len() == self.len * w);
            assert(index * w + w <= self.words@.len());
        }
        let start: usize = index * w;
        T::from_words(slice_subrange(self.words, start, start + w))
    }

    /// All scalars in order.
    pub fn iter(&self) -> (r: Vec<T>)
        ensures
            r@ == self@,
    {
        let n: usize = self.len();
        let mut out: Vec<T> = Vec::with_capacity(n);
        let mut i: usize = 0;
        while i < n
            invariant
                n == self@.len(),
                i <= n,
                out@ == self@.subrange(0, i as int),
            decreases n - i,
        {
            let v = self.get(i);
            match v {
                Some(x) => out.push(x),
                None => {
                    assert(false);
                },
            }
            i += 1;
            assert(out@ =~= self@.subrange(0, i as int));
        }
        assert(out@ =~= self@);
        out
    }
}


/// Layout of a map: number of pairs, key and value cell widths, and the
/// index of the first pair, which follows the perfect-hash index.
pub open spec fn spec_map_layout(words: Seq<u32>) -> Option<(nat, nat, nat, nat)> {
    match spec_map_detect_len(words) {
        Some(total) => if total <= words.len() {
            let head = words[0];
            let raw = bytes_of(words);
            Some(
                (
                    ph_len(raw),
                    ((head >> 30u32) & 3u32) as nat,
                    ((head >> 28u32) & 3u32) as nat,
                    spec_word_size(ph_bytes(ph_len(raw))),
                ),
            )
        } else {
            None
        },
        None => None,
    }
}

/// Number of words a map spans, from its header and index alone.
pub open spec fn spec_map_detect_len(words: Seq<u32>) -> Option<nat> {
    if words.len() == 0 {
        None
    } else {
        let head = words[0];
        let kw = ((head >> 30u32) & 3u32) as nat;
        let vw = ((head >> 28u32) & 3u32) as nat;
        let raw = bytes_of(words);
        if kw == 0 || vw == 0 || !ph_complete(raw) {
            None
        } else {
            Some(spec_word_size(ph_bytes(ph_len(raw))) + ph_len(raw) * (kw + vw))
        }
    }
}

/// The perfect-hash index at the start of a map.
pub open spec fn spec_map_index(words: Seq<u32>) -> Seq<u8> {
    bytes_of(words).subrange(0, ph_bytes(ph_len(bytes_of(words))) as int)
}

/// The words from pair `i` of a map to the end.
pub open spec fn spec_pair_tail(words: Seq<u32>, i: nat) -> Seq<u32> {
    let (len, kw, vw, off) = spec_map_layout(words).unwrap();
    words.subrange((off + i * (kw + vw)) as int, words.len() as int)
}

/// Whether the key cell at the start of `tail` refers to the string `key`.
pub open spec fn key_string_is(tail: Seq<u32>, key: Seq<u8>) -> bool {
    cell_object(tail) matches Some(w) && spec_string_bytes(w) == Some(key)
}

/// The pair that a map gives for a byte-string key: the position the index
/// gives the key, when the key stored there is that string.
pub open spec fn spec_map_find_bytes(words: Seq<u32>, key: Seq<u8>) -> Option<nat> {
    let (len, kw, vw, off) = spec_map_layout(words).unwrap();
    match spec_locate(spec_map_index(words), key) {
        Some(p) => if p < len && key_string_is(spec_pair_tail(words, p), key) {
            Some(p)
        } else {
            None
        },
        None => None,
    }
}

/// A scalar usable as a map key: its bytes for the index, and exact
/// comparison.
pub trait MapKey: Sized {
    /// The bytes the index hashes for this key.
    spec fn spec_key_bytes(&self) -> Seq<u8>;

    /// The bytes the index hashes for this key.
    fn as_key_bytes(&self) -> (r: Vec<u8>)
        ensures
            r@ == self.spec_key_bytes(),
    ;

    /// Whether two keys are the same value.
    fn same_key(&self, other: &Self) -> (r: bool)
        ensures
            r == (*self == *other),
    ;
}

/// The little-endian bytes of a 32-bit word.
pub open spec fn le_bytes_u32(v: u32) -> Seq<u8> {
    seq![(v & 0xff) as u8, ((v >> 8u32) & 0xff) as u8, ((v >> 16u32) & 0xff) as u8, (v >> 24u32) as u8]
}

pub(crate) fn le_bytes_of_u32(v: u32, out: &mut Vec<u8>)
    ensures
        final(out)@ == old(out)@ + le_bytes_u32(v),
{
    out.push((v & 0xff) as u8);
    out.push(((v >> 8u32) & 0xff) as u8);
    out.push(((v >> 16u32) & 0xff) as u8);
    out.push((v >> 24u32) as u8);
    assert(final(out)@ =~= old(out)@ + le_bytes_u32(v));
}

impl MapKey for u32 {
    open spec fn spec_key_bytes(&self) -> Seq<u8> {
        le_bytes_u32(*self)
    }

    fn as_key_bytes(&self) -> (r: Vec<u8>) {
        let mut out: Vec<u8> = Vec::new();
        le_bytes_of_u32(*self, &mut out);
        assert(out@ =~= le_bytes_u32(*self));
        out
    }

    fn same_key(&self, other: &Self) -> (r: bool) {
        *self == *other
    }
}

impl MapKey for i32 {
    open spec fn spec_key_bytes(&self) -> Seq<u8> {
        le_bytes_u32(*self as u32)
    }

    fn as_key_bytes(&self) -> (r: Vec<u8>) {
        let mut out: Vec<u8> = Vec::new();
        le_bytes_of_u32(*self as u32, &mut out);
        assert(out@ =~= le_bytes_u32(*self as u32));
        out
    }

    fn same_key(&self, other: &Self) -> (r: bool) {
        *self == *other
    }
}

impl MapKey for u64 {
    open spec fn spec_key_bytes(&self) -> Seq<u8> {
        le_bytes_u32(crate::utils::lo_word(*self)) + le_bytes_u32(crate::utils::hi_word(*self))
    }

    fn as_key_bytes(&self) -> (r: Vec<u8>) {
        let mut out: Vec<u8> = Vec::new();
        le_bytes_of_u32((*self & 0xffff_ffff) as u32, &mut out);
        le_bytes_of_u32((*self >> 32u64) as u32, &mut out);
        assert(out@ =~= self.spec_key_bytes());
        out
    }

    fn same_key(&self, other: &Self) -> (r: bool) {
        *self == *other
    }
}

impl MapKey for i64 {
    open spec fn spec_key_bytes(&self) -> Seq<u8> {
        le_bytes_u32(crate::utils::lo_word(*self as u64)) + le_bytes_u32(
            crate::utils::hi_word(*self as u64),
        )
    }

    fn as_key_bytes(&self) -> (r: Vec<u8>) {
        let u: u64 = *self as u64;
        let mut out: Vec<u8> = Vec::new();
        le_bytes_of_u32((u & 0xffff_ffff) as u32, &mut out);
        le_bytes_of_u32((u >> 32u64) as u32, &mut out);
        assert(out@ =~= self.spec_key_bytes());
        out
    }

    fn same_key(&self, other: &Self) -> (r: bool) {
        *self == *other
    }
}

/// The bytes the index hashes for a `u64` key are its eight little-endian
/// bytes, lowest first: byte `i` is `(k / 256^i) % 256`.
pub proof fn lemma_u64_key_bytes_little_endian(k: u64)
    ensures
        k.spec_key_bytes().len() == 8,
        k.spec_key_bytes()[0] == k % 0x100,
        k.spec_key_bytes()[1] == (k / 0x100) % 0x100,
        k.spec_key_bytes()[2] == (k / 0x1_0000) % 0x100,
        k.spec_key_bytes()[3] == (k / 0x100_0000) % 0x100,
        k.spec_key_bytes()[4] == (k / 0x1_0000_0000) % 0x100,
        k.spec_key_bytes()[5] == (k / 0x100_0000_0000) % 0x100,
        k.spec_key_bytes()[6] == (k / 0x1_0000_0000_0000) % 0x100,
        k.spec_key_bytes()[7] == k / 0x100_0000_0000_0000,
{
    let lo: u32 = (k & 0xffff_ffff) as u32;
    let hi: u32 = (k >> 32) as u32;
    assert(((lo & 0xff) as u8) == k % 0x100 && (((lo >> 8u32) & 0xff) as u8) == (k / 0x100) % 0x100
        && (((lo >> 16u32) & 0xff) as u8) == (k / 0x1_0000) % 0x100 && ((lo >> 24u32) as u8) == (k
        / 0x100_0000) % 0x100 && ((hi & 0xff) as u8) == (k / 0x1_0000_0000) % 0x100 && (((hi
        >> 8u32) & 0xff) as u8) == (k / 0x100_0000_0000) % 0x100 && (((hi >> 16u32) & 0xff) as u8)
        == (k / 0x1_0000_0000_0000) % 0x100 && ((hi >> 24u32) as u8) == k / 0x100_0000_0000_0000)
        by (bit_vector)
        requires
            lo == (k & 0xffff_ffff) as u32,
            hi == (k >> 32) as u32,
    ;
}

/// The bytes the index hashes for an `i64` key are the eight little-endian
/// bytes of its two's-complement form, lowest first.
pub proof fn lemma_i64_key_bytes_little_endian(k: i64)
    ensures
        k.spec_key_bytes() == (k as u64).spec_key_bytes(),
{
}

/// The bytes the index hashes for an `i32` key are the four little-endian
/// bytes of its two's-complement form, lowest first.
pub proof fn lemma_i32_key_bytes_little_endian(k: i32)
    ensures
        k.spec_key_bytes() == (k as u32).spec_key_bytes(),
{
}

/// The bytes the index hashes for a `u32` key are its four little-endian
/// bytes, lowest first.
pub proof fn lemma_u32_key_bytes_little_endian(k: u32)
    ensures
        k.spec_key_bytes().len() == 4,
        k.spec_key_bytes()[0] == k % 0x100,
        k.spec_key_bytes()[1] == (k / 0x100) % 0x100,
        k.spec_key_bytes()[2] == (k / 0x1_0000) % 0x100,
        k.spec_key_bytes()[3] == k / 0x100_0000,
{
    assert(((k & 0xff) as u8) == k % 0x100 && (((k >> 8u32) & 0xff) as u8) == (k / 0x100) % 0x100
        && (((k >> 16u32) & 0xff) as u8) == (k / 0x1_0000) % 0x100 && ((k >> 24u32) as u8) == k
        / 0x100_0000) by (bit_vector);
}

/// A key/value pair of a map: the words from its key cell to the end of the
/// buffer, and the two cell widths.
#[derive(Clone, Copy, Debug)]
pub struct PairView<'a> {
    tail: &'a [u32],
    key_width: usize,
    value_width: usize,
}

impl<'a> PairView<'a> {
    #[verifier::type_invariant]
    closed spec fn inv(self) -> bool {
        self.key_width <= self.tail@.len()
    }

    /// The words from the key cell to the end of the buffer.
    pub closed spec fn spec_tail(self) -> Seq<u32> {
        self.tail@
    }

    /// Width of the key cell.
    pub closed spec fn spec_key_width(self) -> nat {
        self.key_width as nat
    }

    /// Width of the value cell.
    pub closed spec fn spec_value_width(self) -> nat {
        self.value_width as nat
    }

    /// The key field.
    pub fn key(self) -> (r: FieldView<'a>)
        ensures
            r.spec_tail() == self.spec_tail(),
            r.spec_width() == self.spec_key_width(),
    {
        FieldView { tail: self.tail, width: self.key_width }
    }

    /// The value field, whose cell follows the key cell.
    pub fn value(self) -> (r: FieldView<'a>)
        ensures
            self.spec_key_width() <= self.spec_tail().len(),
            r.spec_tail() == self.spec_tail().subrange(
                self.spec_key_width() as int,
                self.spec_tail().len() as int,
            ),
            r.spec_width() == self.spec_value_width(),
    {
        proof {
            use_type_invariant(&self);
        }
        FieldView {
            tail: slice_subrange(self.tail, self.key_width, self.tail.len()),
            width: self.value_width,
        }
    }
}

/// A map: a perfect-hash index over the keys followed by key/value cells.
#[derive(Clone, Copy, Debug)]
pub struct MapView<'a> {
    words: &'a [u32],
    index: PerfectHashView<'a>,
    len: usize,
    key_width: usize,
    value_width: usize,
    body: usize,
}

impl<'a> View for MapView<'a> {
    type V = Seq<u32>;

    closed spec fn view(&self) -> Seq<u32> {
        self.words@
    }
}

proof fn lemma_pairs_fit(len: nat, w: nat, index: nat)
    requires
        index < len,
        w <= 6,
    ensures
        index * w + w <= len * w,
        len * w <= 6 * len,
{
    assert(index * w + w <= len * w) by (nonlinear_arith)
        requires
            index < len,
    ;
    assert(len * w <= 6 * len) by (nonlinear_arith)
        requires
            w <= 6,
    ;
}

impl<'a> MapView<'a> {
    #[verifier::type_invariant]
    closed spec fn inv(self) -> bool {
        &&& spec_map_layout(self.words@) == Some(
            (self.len as nat, self.key_width as nat, self.value_width as nat, self.body as nat),
        )
        &&& self.index@ == spec_map_index(self.words@)
        &&& 1 <= self.key_width <= 3
        &&& 1 <= self.value_width <= 3
        &&& self.len < 0x1000_0000
    }

    /// Number of pairs and the key and value cell widths.
    pub open spec fn spec_layout(self) -> (nat, nat, nat, nat) {
        spec_map_layout(self@).unwrap()
    }

    fn header(words: &'a [u32]) -> (r: Option<(PerfectHashView<'a>, usize, usize, usize, usize)>)
        ensures
            match r {
                Some((index, len, kw, vw, total)) => spec_map_detect_len(words@) == Some(
                    total as nat,
                ) && index@ == spec_map_index(words@) && len == ph_len(bytes_of(words@)) && kw
                    == ((words@[0] >> 30u32) & 3u32) && vw == ((words@[0] >> 28u32) & 3u32) && 1
                    <= kw <= 3 && 1 <= vw <= 3 && len < 0x1000_0000,
                None => spec_map_detect_len(words@) is None,
            },
    {
        if words.len() == 0 {
            return None;
        }
        let head: u32 = words[0];
        let kw: usize = ((head >> 30u32) & 3u32) as usize;
        let vw: usize = ((head >> 28u32) & 3u32) as usize;
        proof {
            lemma_bits();
        }
        assert((head >> 30u32) & 3u32 <= 3);
        proof {
            lemma_bits();
        }
        assert((head >> 28u32) & 3u32 <= 3);
        if kw == 0 || vw == 0 {
            return None;
        }
        let index = match PerfectHashView::from_words(words) {
            Ok(v) => v,
            Err(_) => {
                return None;
            },
        };
        let size: usize = index.data_size();
        let len: usize = index.len();
        proof {
            assert(index@ =~= spec_map_index(words@));
            assert(ph_len(index@) == ph_len(bytes_of(words@))) by {
                crate::perfect_hash::lemma_le_prefix(bytes_of(words@), index@, 0, 4);
            }
            assert(len * (kw + vw) <= 6 * len) by (nonlinear_arith)
                requires
                    kw + vw <= 6,
            ;
        }
        let total: usize = (size + 3) / 4 + len * (kw + vw);
        Some((index, len, kw, vw, total))
    }

    /// Reads the map that starts `words`.
    pub fn new(words: &'a [u32]) -> (r: Option<Self>)
        ensures
            match r {
                Some(m) => m@ == words@ && spec_map_layout(words@) is Some,
                None => spec_map_layout(words@) is None,
            },
    {
        let (index, len, kw, vw, total) = Self::header(words)?;
        if total > words.len() {
            return None;
        }
        let size: usize = index.data_size();
        Some(MapView { words, index, len, key_width: kw, value_width: vw, body: (size + 3) / 4 })
    }

    /// Number of words the map that starts `words` spans, from its header and
    /// index.
    pub fn detect_len(words: &'a [u32]) -> (r: Option<usize>)
        ensures
            match r {
                Some(n) => spec_map_detect_len(words@) == Some(n as nat),
                None => spec_map_detect_len(words@) is None,
            },
    {
        let (_, _, _, _, total) = Self::header(words)?;
        Some(total)
    }

    /// The words the map that starts `words` spans.
    pub fn detect(words: &'a [u32]) -> (r: Option<&'a [u32]>)
        ensures
            match r {
                Some(d) => spec_map_detect_len(words@) matches Some(n) && n <= words@.len() && d@
                    == words@.subrange(0, n as int),
                None => !(spec_map_detect_len(words@) matches Some(n) && n <= words@.len()),
            },
    {
        let n: usize = Self::detect_len(words)?;
        if n > words.len() {
            return None;
        }
        Some(slice_subrange(words, 0, n))
    }

    /// Number of pairs.
    pub fn len(self) -> (r: usize)
        ensures
            r == self.spec_layout().0,
    {
        proof {
            use_type_invariant(&self);
        }
        self.len
    }

    /// Whether the map has no pairs.
    pub fn is_empty(self) -> (r: bool)
        ensures
            r == (self.spec_layout().0 == 0),
    {
        self.len() == 0
    }

    /// Number of words the index and the pairs span.
    pub(crate) fn total_words(self) -> (r: usize)
        ensures
            spec_map_detect_len(self@) == Some(r as nat),
    {
        proof {
            use_type_invariant(&self);
        }
        let n: usize = self.words.len();
        assert(self.body + self.len * (self.key_width + self.value_width) <= n);
        self.body + self.len * (self.key_width + self.value_width)
    }

    /// Pair `index`, which must exist.
    pub fn expect_pair(self, index: usize) -> (r: PairView<'a>)
        requires
            index < self.spec_layout().0,
        ensures
            r.spec_tail() == spec_pair_tail(self@, index as nat),
            r.spec_key_width() == self.spec_layout().1,
            r.spec_value_width() == self.spec_layout().2,
    {
        proof {
            use_type_invariant(&self);
            lemma_pairs_fit(self.len as nat, (self.key_width + self.value_width) as nat, index as nat);
        }
        let n: usize = self.words.len();
        assert(self.body + self.len * (self.key_width + self.value_width) <= n);
        let start: usize = self.body + index * (self.key_width + self.value_width);
        PairView {
            tail: slice_subrange(self.words, start, self.words.len()),
            key_width: self.key_width,
            value_width: self.value_width,
        }
    }

    /// Where pair `index` starts in the map's words.
    pub(crate) fn pair_start(self, index: usize) -> (r: usize)
        requires
            index < self.spec_layout().0,
        ensures
            r <= self@.len(),
            spec_pair_tail(self@, index as nat) == self@.subrange(r as int, self@.len() as int),
            self.spec_layout().1 <= self@.len() - r,
    {
        proof {
            use_type_invariant(&self);
            lemma_pairs_fit(self.len as nat, (self.key_width + self.value_width) as nat, index as nat);
        }
        let n: usize = self.words.len();
        assert(self.body + self.len * (self.key_width + self.value_width) <= n);
        self.body + index * (self.key_width + self.value_width)
    }

    /// Pair `index`, when it exists.
    pub fn pair(self, index: usize) -> (r: Option<PairView<'a>>)
        ensures
            index < self.spec_layout().0 ==> (r matches Some(p) && p.spec_tail() == spec_pair_tail(
                self@,
                index as nat,
            ) && p.spec_key_width() == self.spec_layout().1 && p.spec_value_width()
                == self.spec_layout().2),
            index >= self.spec_layout().0 ==> r is None,
    {
        proof {
            use_type_invariant(&self);
        }
        if index >= self.len {
            return None;
        }
        Some(self.expect_pair(index))
    }

    /// All pairs in order.
    pub fn iter(self) -> (r: Vec<PairView<'a>>)
        ensures
            r@.len() == self.spec_layout().0,
            forall|i: int|
                0 <= i < r@.len() ==> (#[trigger] r@[i]).spec_tail() == spec_pair_tail(
                    self@,
                    i as nat,
                ) && r@[i].spec_key_width() == self.spec_layout().1 && r@[i].spec_value_width()
                    == self.spec_layout().2,
    {
        let n: usize = self.len();
        let mut out: Vec<PairView<'a>> = Vec::with_capacity(n);
        let mut i: usize = 0;
        while i < n
            invariant
                n == self.spec_layout().0,
                i <= n,
                out@.len() == i,
                forall|j: int|
                    0 <= j < i ==> (#[trigger] out@[j]).spec_tail() == spec_pair_tail(
                        self@,
                        j as nat,
                    ) && out@[j].spec_key_width() == self.spec_layout().1
                        && out@[j].spec_value_width() == self.spec_layout().2,
            decreases n - i,
        {
            out.push(self.expect_pair(i));
            i += 1;
        }
        out
    }

    /// The pair whose key is the byte string `key`.
    pub fn find_bytes(self, key: &[u8]) -> (r: Option<PairView<'a>>)
        ensures
            match r {
                Some(p) => spec_map_find_bytes(self@, key@) matches Some(i) && p.spec_tail()
                    == spec_pair_tail(self@, i) && p.spec_key_width() == self.spec_layout().1
                    && p.spec_value_width() == self.spec_layout().2,
                None => spec_map_find_bytes(self@, key@) is None,
            },
    {
        proof {
            use_type_invariant(&self);
        }
        let pos: usize = self.index.locate(key)?;
        let pair = self.pair(pos)?;
        let s = pair.key().string()?;
        if bytes_equal(s, key) {
            Some(pair)
        } else {
            None
        }
    }

    /// The pair whose key is the string `key`.
    pub fn find_str(self, key: &str) -> (r: Option<PairView<'a>>)
        ensures
            match r {
                Some(p) => spec_map_find_bytes(self@, key.spec_bytes()) matches Some(i)
                    && p.spec_tail() == spec_pair_tail(self@, i) && p.spec_key_width()
                    == self.spec_layout().1 && p.spec_value_width() == self.spec_layout().2,
                None => spec_map_find_bytes(self@, key.spec_bytes()) is None,
            },
    {
        self.find_bytes(key.as_bytes())
    }

    /// The pair whose key is the scalar `key`.
    pub fn find_scalar<K: MapKey + Scalar>(self, key: K) -> (r: Option<PairView<'a>>)
        ensures
            match r {
                Some(p) => spec_map_find_scalar(self@, key) matches Some(i) && p.spec_tail()
                    == spec_pair_tail(self@, i) && p.spec_key_width() == self.spec_layout().1
                    && p.spec_value_width() == self.spec_layout().2,
                None => spec_map_find_scalar(self@, key) is None,
            },
    {
        proof {
            use_type_invariant(&self);
        }
        let key_bytes: Vec<u8> = key.as_key_bytes();
        let pos: usize = self.index.locate(key_bytes.as_slice())?;
        let pair = self.pair(pos)?;
        let found: K = pair.key().scalar::<K>()?;
        if found.same_key(&key) {
            Some(pair)
        } else {
            None
        }
    }
}

/// The pair that a map gives for a scalar key: the position the index gives
/// the key's bytes, when the key stored there is that scalar.
pub open spec fn spec_map_find_scalar<K: MapKey + Scalar>(words: Seq<u32>, key: K) -> Option<nat> {
    let (len, kw, vw, off) = spec_map_layout(words).unwrap();
    match spec_locate(spec_map_index(words), key.spec_key_bytes()) {
        Some(p) => if p < len && cell_scalar::<K>(spec_pair_tail(words, p), kw) == Some(key) {
            Some(p)
        } else {
            None
        },
        None => None,
    }
}

/// Whether the string's bytes are `key`.
fn bytes_equal(s: StringView, key: &[u8]) -> (r: bool)
    ensures
        r == (s@ == key@),
{
    let n: usize = s.len();
    if n != key.len() {
        return false;
    }
    let mut i: usize = 0;
    while i < n
        invariant
            n == s@.len(),
            n == key@.len(),
            i <= n,
            forall|j: int| 0 <= j < i ==> s@[j] == key@[j],
        decreases n - i,
    {
        if s.byte(i) != key[i] {
            return false;
        }
        i += 1;
    }
    assert(s@ =~= key@);
    true
}


/// A type read from a field: a scalar, or a view of the object the field
/// refers to.
pub trait FieldDecode<'a>: Sized {
    /// Whether `r` is what decoding the field whose cell starts `tail` and
    /// is `width` words wide gives.
    spec fn spec_decodes(tail: Seq<u32>, width: nat, r: Option<Self>) -> bool;

    /// Reads the value of a field.
    fn decode(field: FieldView<'a>) -> (r: Option<Self>)
        ensures
            Self::spec_decodes(field.spec_tail(), field.spec_width(), r),
    ;
}

impl<'a, T: Scalar> FieldDecode<'a> for T {
    open spec fn spec_decodes(tail: Seq<u32>, width: nat, r: Option<Self>) -> bool {
        r == cell_scalar::<T>(tail, width)
    }

    fn decode(field: FieldView<'a>) -> (r: Option<Self>) {
        field.scalar::<T>()
    }
}

impl<'a> FieldDecode<'a> for StringView<'a> {
    open spec fn spec_decodes(tail: Seq<u32>, width: nat, r: Option<Self>) -> bool {
        match r {
            Some(s) => cell_object(tail) matches Some(w) && spec_string_bytes(w) == Some(s@),
            None => !(cell_object(tail) matches Some(w) && spec_string_bytes(w) is Some),
        }
    }

    fn decode(field: FieldView<'a>) -> (r: Option<Self>) {
        field.string()
    }
}

impl<'a> FieldDecode<'a> for MessageView<'a> {
    open spec fn spec_decodes(tail: Seq<u32>, width: nat, r: Option<Self>) -> bool {
        match r {
            Some(m) => cell_object(tail) == Some(m@) && spec_message_layout(m@) is Some,
            None => !(cell_object(tail) matches Some(w) && spec_message_layout(w) is Some),
        }
    }

    fn decode(field: FieldView<'a>) -> (r: Option<Self>) {
        field.message()
    }
}

impl<'a> FieldDecode<'a> for ArrayView<'a> {
    open spec fn spec_decodes(tail: Seq<u32>, width: nat, r: Option<Self>) -> bool {
        match r {
            Some(a) => cell_object(tail) == Some(a@) && spec_array_header(a@) is Some,
            None => !(cell_object(tail) matches Some(w) && spec_array_header(w) is Some),
        }
    }

    fn decode(field: FieldView<'a>) -> (r: Option<Self>) {
        field.array()
    }
}

impl<'a> FieldDecode<'a> for MapView<'a> {
    open spec fn spec_decodes(tail: Seq<u32>, width: nat, r: Option<Self>) -> bool {
        match r {
            Some(m) => cell_object(tail) == Some(m@) && spec_map_layout(m@) is Some,
            None => !(cell_object(tail) matches Some(w) && spec_map_layout(w) is Some),
        }
    }

    fn decode(field: FieldView<'a>) -> (r: Option<Self>) {
        field.map()
    }
}

/// The words from element `i` of an array to the end.
pub open spec fn spec_element_tail(words: Seq<u32>, i: nat) -> Seq<u32> {
    words.subrange((1 + i * spec_array_header(words).unwrap().1) as int, words.len() as int)
}

/// An array whose elements are read as `T`.
pub struct ViewArray<'a, T> {
    array: ArrayView<'a>,
    _marker: core::marker::PhantomData<T>,
}

impl<'a, T> Clone for ViewArray<'a, T> {
    fn clone(&self) -> (r: Self)
        ensures
            r.spec_raw() == self.spec_raw(),
    {
        ViewArray { array: self.array, _marker: core::marker::PhantomData }
    }
}

impl<'a, T> Copy for ViewArray<'a, T> {

}

impl<'a, T> ViewArray<'a, T> {
    /// The underlying array.
    pub closed spec fn spec_raw(self) -> ArrayView<'a> {
        self.array
    }
}

impl<'a, T: FieldDecode<'a>> ViewArray<'a, T> {
    /// Reads the elements of `array` as `T`.
    pub fn new(array: ArrayView<'a>) -> (r: Self)
        ensures
            r.spec_raw() == array,
    {
        ViewArray { array, _marker: core::marker::PhantomData }
    }

    /// Number of elements.
    pub fn len(&self) -> (r: usize)
        ensures
            r == self.spec_raw().spec_header().0,
    {
        self.array.len()
    }

    /// Whether there are no elements.
    pub fn is_empty(&self) -> (r: bool)
        ensures
            r == (self.spec_raw().spec_header().0 == 0),
    {
        self.array.is_empty()
    }

    /// Element `index` read as `T`.
    pub fn get(&self, index: usize) -> (r: Option<T>)
        ensures
            index < self.spec_raw().spec_header().0 ==> T::spec_decodes(
                spec_element_tail(self.spec_raw()@, index as nat),
                self.spec_raw().spec_header().1,
                r,
            ),
            index >= self.spec_raw().spec_header().0 ==> r is None,
    {
        let f = self.array.field(index)?;
        T::decode(f)
    }

    /// The elements in order, up to the first that cannot be read as `T`.
    pub fn iter(&self) -> (r: Vec<T>)
        ensures
            r@.len() <= self.spec_raw().spec_header().0,
            forall|i: int|
                0 <= i < r@.len() ==> T::spec_decodes(
                    spec_element_tail(self.spec_raw()@, i as nat),
                    self.spec_raw().spec_header().1,
                    Some(#[trigger] r@[i]),
                ),
            r@.len() < self.spec_raw().spec_header().0 ==> T::spec_decodes(
                spec_element_tail(self.spec_raw()@, r@.len()),
                self.spec_raw().spec_header().1,
                None,
            ),
    {
        let n: usize = self.len();
        let mut out: Vec<T> = Vec::new();
        let mut i: usize = 0;
        while i < n
            invariant
                n == self.spec_raw().spec_header().0,
                i <= n,
                out@.len() == i,
                forall|j: int|
                    0 <= j < i ==> T::spec_decodes(
                        spec_element_tail(self.spec_raw()@, j as nat),
                        self.spec_raw().spec_header().1,
                        Some(#[trigger] out@[j]),
                    ),
            decreases n - i,
        {
            match self.get(i) {
                Some(v) => {
                    out.push(v);
                },
                None => {
                    return out;
                },
            }
            i += 1;
        }
        out
    }

    /// The underlying array.
    pub fn raw(&self) -> (r: ArrayView<'a>)
        ensures
            r == self.spec_raw(),
    {
        self.array
    }
}

/// A map whose keys are read as `K` and values as `V`.
pub struct ViewMap<'a, K, V> {
    map: MapView<'a>,
    _key: core::marker::PhantomData<K>,
    _value: core::marker::PhantomData<V>,
}

impl<'a, K, V> Clone for ViewMap<'a, K, V> {
    fn clone(&self) -> (r: Self)
        ensures
            r.spec_raw() == self.spec_raw(),
    {
        ViewMap { map: self.map, _key: core::marker::PhantomData, _value: core::marker::PhantomData }
    }
}

impl<'a, K, V> Copy for ViewMap<'a, K, V> {

}

/// Whether `r` is what reading the pair whose key cell starts `tail` gives:
/// the key and the value, when both can be read.
pub open spec fn pair_decodes<'a, K: FieldDecode<'a>, V: FieldDecode<'a>>(
    tail: Seq<u32>,
    kw: nat,
    vw: nat,
    r: Option<(K, V)>,
) -> bool {
    let vtail = tail.subrange(kw as int, tail.len() as int);
    match r {
        Some((k, v)) => K::spec_decodes(tail, kw, Some(k)) && V::spec_decodes(vtail, vw, Some(v)),
        None => K::spec_decodes(tail, kw, None) || V::spec_decodes(vtail, vw, None),
    }
}

impl<'a, K, V> ViewMap<'a, K, V> {
    /// The underlying map.
    pub closed spec fn spec_raw(self) -> MapView<'a> {
        self.map
    }
}

impl<'a, K: FieldDecode<'a>, V: FieldDecode<'a>> ViewMap<'a, K, V> {
    /// Reads the pairs of `map` as `K` and `V`.
    pub fn new(map: MapView<'a>) -> (r: Self)
        ensures
            r.spec_raw() == map,
    {
        ViewMap { map, _key: core::marker::PhantomData, _value: core::marker::PhantomData }
    }

    /// Number of pairs.
    pub fn len(&self) -> (r: usize)
        ensures
            r == self.spec_raw().spec_layout().0,
    {
        self.map.len()
    }

    /// Whether there are no pairs.
    pub fn is_empty(&self) -> (r: bool)
        ensures
            r == (self.spec_raw().spec_layout().0 == 0),
    {
        self.map.is_empty()
    }

    fn decode_pair(pair: PairView<'a>) -> (r: Option<(K, V)>)
        ensures
            pair.spec_key_width() <= pair.spec_tail().len(),
            pair_decodes::<K, V>(pair.spec_tail(), pair.spec_key_width(), pair.spec_value_width(), r),
    {
        let value = pair.value();
        let k = K::decode(pair.key());
        let v = V::decode(value);
        match (k, v) {
            (Some(k), Some(v)) => Some((k, v)),
            _ => None,
        }
    }

    /// Pair `index` read as a key and a value.
    pub fn get(&self, index: usize) -> (r: Option<(K, V)>)
        ensures
            index < self.spec_raw().spec_layout().0 ==> pair_decodes::<K, V>(
                spec_pair_tail(self.spec_raw()@, index as nat),
                self.spec_raw().spec_layout().1,
                self.spec_raw().spec_layout().2,
                r,
            ),
            index >= self.spec_raw().spec_layout().0 ==> r is None,
    {
        let pair = self.map.pair(index)?;
        Self::decode_pair(pair)
    }

    /// The pairs in order, up to the first that cannot be read.
    pub fn iter(&self) -> (r: Vec<(K, V)>)
        ensures
            r@.len() <= self.spec_raw().spec_layout().0,
            forall|i: int|
                0 <= i < r@.len() ==> pair_decodes::<K, V>(
                    spec_pair_tail(self.spec_raw()@, i as nat),
                    self.spec_raw().spec_layout().1,
                    self.spec_raw().spec_layout().2,
                    Some(#[trigger] r@[i]),
                ),
            r@.len() < self.spec_raw().spec_layout().0 ==> pair_decodes::<K, V>(
                spec_pair_tail(self.spec_raw()@, r@.len()),
                self.spec_raw().spec_layout().1,
                self.spec_raw().spec_layout().2,
                None,
            ),
    {
        let n: usize = self.len();
        let mut out: Vec<(K, V)> = Vec::new();
        let mut i: usize = 0;
        while i < n
            invariant
                n == self.spec_raw().spec_layout().0,
                i <= n,
                out@.len() == i,
                forall|j: int|
                    0 <= j < i ==> pair_decodes::<K, V>(
                        spec_pair_tail(self.spec_raw()@, j as nat),
                        self.spec_raw().spec_layout().1,
                        self.spec_raw().spec_layout().2,
                        Some(#[trigger] out@[j]),
                    ),
            decreases n - i,
        {
            match self.get(i) {
                Some(kv) => {
                    out.push(kv);
                },
                None => {
                    return out;
                },
            }
            i += 1;
        }
        out
    }

    /// The underlying map.
    pub fn raw(&self) -> (r: MapView<'a>)
        ensures
            r == self.spec_raw(),
    {
        self.map
    }
}

impl<'a, V: FieldDecode<'a>> ViewMap<'a, StringView<'a>, V> {
    /// The pair whose key is the string `key`, read as a key and a value.
    pub fn find_str(&self, key: &str) -> (r: Option<(StringView<'a>, V)>)
        ensures
            match spec_map_find_bytes(self.spec_raw()@, key.spec_bytes()) {
                Some(i) => pair_decodes::<StringView<'a>, V>(
                    spec_pair_tail(self.spec_raw()@, i),
                    self.spec_raw().spec_layout().1,
                    self.spec_raw().spec_layout().2,
                    r,
                ),
                None => r is None,
            },
    {
        let pair = self.map.find_str(key)?;
        Self::decode_pair(pair)
    }
}

impl<'a, K: FieldDecode<'a> + MapKey + Scalar, V: FieldDecode<'a>> ViewMap<'a, K, V> {
    /// The pair whose key is the scalar `key`, read as a key and a value.
    pub fn find_scalar(&self, key: K) -> (r: Option<(K, V)>)
        ensures
            match spec_map_find_scalar(self.spec_raw()@, key) {
                Some(i) => pair_decodes::<K, V>(
                    spec_pair_tail(self.spec_raw()@, i),
                    self.spec_raw().spec_layout().1,
                    self.spec_raw().spec_layout().2,
                    r,
                ),
                None => r is None,
            },
    {
        let pair = self.map.find_scalar(key)?;
        Self::decode_pair(pair)
    }
}

/// A message type written for a schema: a typed reader built over the
/// view of a message.
pub trait GeneratedMessage<'a>: Sized {
    /// The typed reader of a message view.
    fn from_message_view(view: MessageView<'a>) -> Self;
}

/// A message type written for a schema, with the fully qualified name of
/// its message.
pub trait GeneratedDescriptor {
    /// The fully qualified name of the message.
    const FULL_NAME: &'static str;
}

} // verus!
