//! Encoders: fields become units (inline words or segments already written
//! into a [`Buffer`]), and messages, arrays and maps are built from units.

use vstd::prelude::*;
use vstd::string::StringSliceAdditionalSpecFns;

use crate::buffer::Buffer;
use crate::utils::Scalar;
use crate::words::{byte_of_word, bytes_of, word_of_bytes};

verus! {

broadcast use vstd::std_specs::vec::group_vec_axioms;

/// A contiguous range of words in a [`Buffer`], located from its end.
#[derive(Clone, Copy, Debug, PartialEq, Eq, Structural)]
pub struct Segment {
    /// Distance of the first word from the end of the buffer.
    pub pos: usize,
    /// Length in words.
    pub len: usize,
}

impl Segment {
    /// Distance from the end of the buffer just past the last word.
    pub fn end(self) -> (r: usize)
        requires
            self.len <= self.pos,
        ensures
            r == self.pos - self.len,
    {
        self.pos - self.len
    }
}

/// An encoded field: up to three words held inline, or a segment of a
/// buffer, or nothing.
#[derive(Clone, Copy, Debug)]
pub struct Unit {
    inline_len: usize,
    inline_data: [u32; 3],
    segment: Segment,
}

impl Unit {
    #[verifier::type_invariant]
    closed spec fn inv(self) -> bool {
        &&& self.inline_len <= 3
        &&& self.segment.len <= self.segment.pos
    }

    /// The inline words (empty for a segment or an empty unit).
    pub closed spec fn spec_inline(self) -> Seq<u32> {
        self.inline_data@.subrange(0, if self.inline_len <= 3 { self.inline_len as int } else { 3 })
    }

    /// A unit holds at most three inline words.
    pub proof fn lemma_inline_len(self)
        ensures
            self.spec_inline().len() <= 3,
    {
    }

    /// The segment (meaningful only when there are no inline words).
    pub closed spec fn spec_segment(self) -> Segment {
        self.segment
    }

    /// Number of words of the encoding.
    pub open spec fn spec_size(self) -> nat {
        if self.spec_inline().len() != 0 {
            self.spec_inline().len()
        } else {
            self.spec_segment().len as nat
        }
    }

    /// Whether the encoding lives in a buffer segment.
    pub open spec fn spec_is_segment(self) -> bool {
        self.spec_inline().len() == 0 && self.spec_segment().len != 0
    }

    /// The unit that holds nothing.
    pub fn empty() -> (r: Self)
        ensures
            r.spec_inline().len() == 0,
            r.spec_segment() == (Segment { pos: 0, len: 0 }),
    {
        let r = Unit { inline_len: 0, inline_data: [0u32; 3], segment: Segment { pos: 0, len: 0 } };
        assert(r.spec_inline() =~= Seq::<u32>::empty());
        r
    }

    /// A unit holding `words` inline.
    pub fn inline(words: &[u32]) -> (r: Self)
        requires
            words@.len() <= 3,
        ensures
            r.spec_inline() == words@,
            r.spec_segment() == (Segment { pos: 0, len: 0 }),
    {
        let mut data: [u32; 3] = [0u32; 3];
        let mut i: usize = 0;
        while i < words.len()
            invariant
                words@.len() <= 3,
                i <= words@.len(),
                forall|j: int| 0 <= j < i ==> data@[j] == words@[j],
            decreases words@.len() - i,
        {
            data[i] = words[i];
            i += 1;
        }
        let r = Unit { inline_len: words.len(), inline_data: data, segment: Segment { pos: 0, len: 0 } };
        assert(r.spec_inline() =~= words@);
        r
    }

    /// A unit referring to the words written while the buffer grew from
    /// `last` to `now` words.
    pub fn segment(last: usize, now: usize) -> (r: Self)
        requires
            last <= now,
        ensures
            r.spec_inline().len() == 0,
            r.spec_segment() == (Segment { pos: now, len: (now - last) as usize }),
    {
        let r = Unit { inline_len: 0, inline_data: [0u32; 3], segment: Segment { pos: now, len: now - last } };
        assert(r.spec_inline() =~= Seq::<u32>::empty());
        r
    }

    /// Number of words of the encoding.
    pub fn size(&self) -> (r: usize)
        ensures
            r == self.spec_size(),
    {
        proof {
            use_type_invariant(self);
        }
        if self.inline_len != 0 {
            self.inline_len
        } else {
            self.segment.len
        }
    }

    /// Whether the unit holds nothing.
    pub fn is_empty(&self) -> (r: bool)
        ensures
            r == (self.spec_size() == 0),
    {
        self.size() == 0
    }

    /// Whether the encoding lives in a buffer segment.
    pub fn is_segment(&self) -> (r: bool)
        ensures
            r == self.spec_is_segment(),
    {
        proof {
            use_type_invariant(self);
        }
        self.inline_len == 0 && self.segment.len != 0
    }

    /// The inline words.
    pub fn inline_words(&self) -> (r: &[u32])
        ensures
            r@ == self.spec_inline(),
    {
        proof {
            use_type_invariant(self);
        }
        vstd::slice::slice_subrange(self.inline_data.as_slice(), 0, self.inline_len)
    }

    /// The segment.
    pub fn segment_info(&self) -> (r: Segment)
        ensures
            r == self.spec_segment(),
            r.len <= r.pos,
    {
        proof {
            use_type_invariant(self);
        }
        self.segment
    }
}

impl Default for Unit {
    fn default() -> (r: Self)
        ensures
            r.spec_inline().len() == 0,
            r.spec_segment() == (Segment { pos: 0, len: 0 }),
    {
        Unit::empty()
    }
}

/// The words of a unit when the buffer holds `content`: the inline words, or
/// the segment's words, or nothing for an empty unit.
pub open spec fn unit_words_in(u: Unit, content: Seq<u32>) -> Option<Seq<u32>> {
    if u.spec_inline().len() != 0 {
        Some(u.spec_inline())
    } else if u.spec_segment().len == 0 {
        Some(Seq::empty())
    } else {
        let start = content.len() - u.spec_segment().pos;
        if start < 0 || start + u.spec_segment().len > content.len() {
            None
        } else {
            Some(content.subrange(start, start + u.spec_segment().len))
        }
    }
}

/// The base-128 encoding of `n`, low groups first.
pub open spec fn spec_varint_bytes(n: nat) -> Seq<u8>
    decreases n,
{
    if n < 128 {
        seq![n as u8]
    } else {
        seq![(0x80 + n % 128) as u8] + spec_varint_bytes(n / 128)
    }
}

/// `bytes` followed by zeros up to a multiple of four.
pub open spec fn pad4(bytes: Seq<u8>) -> Seq<u8> {
    bytes + Seq::new(((4 - bytes.len() % 4) % 4) as nat, |i: int| 0u8)
}

/// The words whose little-endian bytes are `bytes` (a multiple of four long).
pub open spec fn words_of_bytes(bytes: Seq<u8>) -> Seq<u32> {
    Seq::new(
        bytes.len() / 4,
        |i: int| word_of_bytes(bytes[4 * i], bytes[4 * i + 1], bytes[4 * i + 2], bytes[4 * i + 3]),
    )
}

/// The encoding of a byte string: its length mark (four times the length),
/// the bytes, and zero padding to whole words.
pub open spec fn spec_encode_bytes(bytes: Seq<u8>) -> Seq<u32> {
    words_of_bytes(pad4(spec_varint_bytes(bytes.len() * 4) + bytes))
}

fn varint_bytes(n: u32) -> (r: Vec<u8>)
    ensures
        r@ == spec_varint_bytes(n as nat),
        1 <= r@.len() <= 5,
{
    let mut out: Vec<u8> = Vec::new();
    let mut v: u32 = n;
    proof {
        reveal_with_fuel(pow128, 5);
        assert(out@ =~= Seq::<u8>::empty());
        assert(pow128(0) == 1);
        assert(out@ + spec_varint_bytes(v as nat) =~= spec_varint_bytes(n as nat));
    }
    while v >= 128
        invariant
            out@ + spec_varint_bytes(v as nat) == spec_varint_bytes(n as nat),
            out@.len() <= 4,
            v as nat * pow128(out@.len()) <= n,
        decreases v,
    {
        proof {
            reveal_with_fuel(pow128, 5);
            if out@.len() == 4 {
                assert(v as nat * 268435456 <= n);
                assert(false) by (nonlinear_arith)
                    requires
                        v as nat * 268435456 <= n,
                        n <= 0xffff_ffff,
                        v >= 128,
                ;
            }
        }
        let ghost prev = out@;
        out.push((0x80 + v % 128) as u8);
        proof {
            assert(spec_varint_bytes(v as nat) == seq![(0x80 + v % 128) as u8]
                + spec_varint_bytes((v / 128) as nat));
            assert(out@ + spec_varint_bytes((v / 128) as nat) =~= prev + spec_varint_bytes(
                v as nat,
            ));
            lemma_pow128_step(v as nat, prev.len());
        }
        v = v / 128;
    }
    let ghost prev = out@;
    out.push(v as u8);
    proof {
        assert(spec_varint_bytes(v as nat) == seq![v as u8]);
        assert(out@ =~= prev + spec_varint_bytes(v as nat));
    }
    out
}

/// `128^k`.
pub open spec fn pow128(k: nat) -> nat
    decreases k,
{
    if k == 0 {
        1
    } else {
        128 * pow128((k - 1) as nat)
    }
}

proof fn lemma_pow128_step(v: nat, k: nat)
    requires
        v >= 128,
    ensures
        (v / 128) * pow128(k + 1) <= v * pow128(k),
{
    assert(pow128(k + 1) == 128 * pow128(k));
    let p = pow128(k);
    assert((v / 128) * (128 * p) <= v * p) by (nonlinear_arith)
        requires
            v >= 128,
            p >= 0,
    ;
}

fn words_from_bytes(bytes: &Vec<u8>) -> (r: Vec<u32>)
    requires
        bytes@.len() % 4 == 0,
    ensures
        r@ == words_of_bytes(bytes@),
{
    let n: usize = bytes.len() / 4;
    let mut out: Vec<u32> = Vec::with_capacity(n);
    let mut i: usize = 0;
    while i < n
        invariant
            n == bytes@.len() / 4,
            bytes@.len() % 4 == 0,
            bytes@.len() <= usize::MAX,
            i <= n,
            out@ == words_of_bytes(bytes@).subrange(0, i as int),
        decreases n - i,
    {
        assert(4 * i + 4 <= bytes@.len()) by (nonlinear_arith)
            requires
                i < n,
                n == bytes@.len() / 4,
        ;
        let w: u32 = (bytes[4 * i] as u32) | ((bytes[4 * i + 1] as u32) << 8u32) | ((bytes[4 * i
            + 2] as u32) << 16u32) | ((bytes[4 * i + 3] as u32) << 24u32);
        out.push(w);
        i += 1;
        assert(out@ =~= words_of_bytes(bytes@).subrange(0, i as int));
    }
    assert(out@ =~= words_of_bytes(bytes@));
    out
}

/// The inline unit that encodes a scalar.
pub fn serialize_scalar<T: Scalar>(value: T) -> (r: Unit)
    ensures
        r.spec_inline() == value.spec_to_words(),
        r.spec_segment() == (Segment { pos: 0, len: 0 }),
{
    proof {
        T::lemma_words_roundtrip(value);
    }
    let w: usize = T::width();
    let mut words: Vec<u32> = vec![0u32; w];
    let _ = value.write_words(words.as_mut_slice());
    Unit::inline(words.as_slice())
}

/// The inline unit that encodes a boolean.
pub fn serialize_bool(value: bool) -> (r: Unit)
    ensures
        r.spec_inline() == seq![if value { 1u32 } else { 0u32 }],
        r.spec_segment() == (Segment { pos: 0, len: 0 }),
{
    let w: [u32; 1] = [if value { 1u32 } else { 0u32 }];
    let r = Unit::inline(w.as_slice());
    assert(w@ =~= seq![if value { 1u32 } else { 0u32 }]);
    r
}

/// What encoding `bytes` gives when the buffer held `before`: the unit, or
/// none when the string is too long, and the buffer content after.
pub open spec fn spec_serialize_bytes_result(
    bytes: Seq<u8>,
    before: Seq<u32>,
    r: Option<Unit>,
    after: Seq<u32>,
) -> bool {
    let enc = spec_encode_bytes(bytes);
    if bytes.len() >= 0x4000_0000 {
        r is None && after == before
    } else if enc.len() == 1 {
        r matches Some(u) && u.spec_inline() == enc && after == before
    } else {
        r matches Some(u) && u.spec_inline().len() == 0 && u.spec_segment() == (Segment {
            pos: (before.len() + enc.len()) as usize,
            len: enc.len() as usize,
        }) && after == enc + before
    }
}

/// Encodes a byte string: inline when it fits in one word, else written into
/// `buffer`; none when it is `2^30` bytes or longer.
pub fn serialize_bytes(bytes: &[u8], buffer: &mut Buffer) -> (r: Option<Unit>)
    requires
        old(buffer).content().len() + bytes@.len() / 4 + 3 <= usize::MAX,
    ensures
        spec_serialize_bytes_result(bytes@, old(buffer).content(), r, final(buffer).content()),
{
    if bytes.len() >= 0x4000_0000 {
        return None;
    }
    let mark: u32 = (bytes.len() * 4) as u32;
    let mut all: Vec<u8> = varint_bytes(mark);
    let ghost header = all@;
    let mut i: usize = 0;
    while i < bytes.len()
        invariant
            all@ == header + bytes@.subrange(0, i as int),
            i <= bytes@.len(),
            header.len() <= 5,
        decreases bytes@.len() - i,
    {
        all.push(bytes[i]);
        i += 1;
        assert(all@ =~= header + bytes@.subrange(0, i as int));
    }
    let ghost unpadded = all@;
    assert(unpadded =~= header + bytes@);
    while all.len() % 4 != 0
        invariant
            all@.len() <= unpadded.len() + 3,
            all@.subrange(0, unpadded.len() as int) == unpadded,
            forall|j: int| unpadded.len() <= j < all@.len() ==> all@[j] == 0u8,
            unpadded.len() <= all@.len(),
            all@.len() - unpadded.len() <= (4 - unpadded.len() % 4) % 4,
        decreases 3 - (all@.len() - unpadded.len()),
    {
        all.push(0u8);
    }
    assert(all@ =~= pad4(unpadded));
    let words: Vec<u32> = words_from_bytes(&all);
    assert(words@ == spec_encode_bytes(bytes@));
    if words.len() == 1 {
        return Some(Unit::inline(words.as_slice()));
    }
    let last: usize = buffer.len();
    buffer.put_words(words.as_slice());
    Some(Unit::segment(last, buffer.len()))
}

/// Encodes a string as its UTF-8 bytes, like [`serialize_bytes`].
pub fn serialize_str(value: &str, buffer: &mut Buffer) -> (r: Option<Unit>)
    requires
        old(buffer).content().len() + value.spec_bytes().len() / 4 + 3 <= usize::MAX,
    ensures
        spec_serialize_bytes_result(value.spec_bytes(), old(buffer).content(), r, final(buffer).content()),
{
    let b: &[u8] = value.as_bytes();
    serialize_bytes(b, buffer)
}

/// Moves a segment of at most three words that sits at the front of the
/// buffer into the unit's inline words.
pub fn fold_field(buffer: &mut Buffer, unit: &mut Unit)
    ensures
        ({
            let seg = old(unit).spec_segment();
            if old(unit).spec_is_segment() && seg.len < 4 && seg.pos == old(buffer).content().len() {
                &&& final(unit).spec_inline() == old(buffer).content().subrange(0, seg.len as int)
                &&& final(unit).spec_segment() == (Segment { pos: 0, len: 0 })
                &&& final(buffer).content() == old(buffer).content().subrange(
                    seg.len as int,
                    old(buffer).content().len() as int,
                )
            } else {
                &&& *final(unit) == *old(unit)
                &&& final(buffer).content() == old(buffer).content()
            }
        }),
{
    proof {
        use_type_invariant(&*unit);
    }
    let seg: Segment = unit.segment_info();
    if !unit.is_segment() || seg.len >= 4 || seg.pos != buffer.len() {
        return;
    }
    let mut words: Vec<u32> = Vec::new();
    let mut i: usize = 0;
    while i < seg.len
        invariant
            seg.len < 4,
            seg.len <= buffer.content().len(),
            i <= seg.len,
            words@ == buffer.content().subrange(0, i as int),
        decreases seg.len - i,
    {
        words.push(buffer.get(i));
        i += 1;
        assert(words@ =~= buffer.content().subrange(0, i as int));
    }
    *unit = Unit::inline(words.as_slice());
    buffer.shrink(seg.len);
}

} // verus!

verus! {

/// Words a unit takes in a message body: its inline words, one offset word
/// for a segment, none for an empty unit.
pub open spec fn cell_width(u: Unit) -> nat {
    if u.spec_inline().len() != 0 {
        u.spec_inline().len()
    } else if u.spec_segment().len != 0 {
        1
    } else {
        0
    }
}

/// Number of leading fields up to and including the last non-empty one.
pub open spec fn used_len(f: Seq<Unit>) -> nat
    decreases f.len(),
{
    if f.len() == 0 {
        0
    } else if f.last().spec_size() != 0 {
        f.len()
    } else {
        used_len(f.drop_last())
    }
}

/// Body words taken by fields `0..i`.
pub open spec fn body_offset(f: Seq<Unit>, i: nat) -> nat
    decreases i,
{
    if i == 0 {
        0
    } else {
        body_offset(f, (i - 1) as nat) + cell_width(f[i - 1])
    }
}

/// Words encoded by fields `0..i`, segments counted whole.
pub open spec fn payload_total(f: Seq<Unit>, i: nat) -> nat
    decreases i,
{
    if i == 0 {
        0
    } else {
        payload_total(f, (i - 1) as nat) + f[i - 1].spec_size()
    }
}

/// A cell that refers to the object `d` words further on.
pub open spec fn offset_word(d: nat) -> u32 {
    ((d as u32) << 2u32) | 3u32
}

/// The cell words of a unit whose cell starts `pos` words before the end of
/// the buffer.
pub open spec fn cell_words(u: Unit, pos: int) -> Seq<u32> {
    if u.spec_inline().len() != 0 {
        u.spec_inline()
    } else if u.spec_segment().len != 0 {
        seq![offset_word((pos - u.spec_segment().pos) as nat)]
    } else {
        Seq::empty()
    }
}

/// Body of a message made of fields `0..i`, whose first body word lies
/// `top` words before the end of the buffer.
pub open spec fn message_body(f: Seq<Unit>, i: nat, top: int) -> Seq<u32>
    decreases i,
{
    if i == 0 {
        Seq::empty()
    } else {
        message_body(f, (i - 1) as nat, top) + cell_words(f[i - 1], top - body_offset(
            f,
            (i - 1) as nat,
        ))
    }
}

/// The 2-bit cell widths of fields `start..start + k`, lowest first.
pub open spec fn width_bits(f: Seq<Unit>, start: nat, k: nat) -> u64
    decreases k,
{
    if k == 0 {
        0u64
    } else {
        width_bits(f, start, (k - 1) as nat) | ((cell_width(f[start + k - 1]) as u64) << ((2 * (k
            - 1)) as u64))
    }
}

/// Number of extra sections of a message with `n` used fields.
pub open spec fn message_sections(n: nat) -> nat {
    (n + 12) / 25
}

/// The 64-bit mark of extra section `s`: the body words before it, and the
/// widths of its fields.
pub open spec fn message_mark(f: Seq<Unit>, n: nat, s: nat) -> u64 {
    let start = 12 + 25 * s;
    let end = if n < start + 25 {
        n
    } else {
        start + 25
    };
    ((body_offset(f, start) as u64) << 50u64) | width_bits(f, start, (end - start) as nat)
}

/// The header words of sections `0..s`.
pub open spec fn section_words(f: Seq<Unit>, n: nat, s: nat) -> Seq<u32>
    decreases s,
{
    if s == 0 {
        Seq::empty()
    } else {
        let m = message_mark(f, n, (s - 1) as nat);
        section_words(f, n, (s - 1) as nat) + seq![
            crate::utils::lo_word(m),
            crate::utils::hi_word(m),
        ]
    }
}

/// First header word: the section count and the widths of fields `0..12`.
pub open spec fn message_head(f: Seq<Unit>, n: nat) -> u32 {
    let k = if n < 12 {
        n
    } else {
        12
    };
    (message_sections(n) as u32) | ((width_bits(f, 0, k) as u32) << 8u32)
}

/// The encoding of a message with fields `f` put in front of `old_len` words.
pub open spec fn message_words(f: Seq<Unit>, old_len: nat) -> Seq<u32> {
    let n = used_len(f);
    seq![message_head(f, n)] + section_words(f, n, message_sections(n)) + message_body(
        f,
        n,
        (old_len + body_offset(f, n)) as int,
    )
}

/// Whether `serialize_message` can encode `f`: some field is set, the fields
/// encode fewer than `2^30` words and need at most 255 extra sections.
pub open spec fn message_encodable(f: Seq<Unit>) -> bool {
    &&& used_len(f) > 0
    &&& payload_total(f, used_len(f)) < 0x4000_0000
    &&& message_sections(used_len(f)) <= 0xff
}

/// Every segment field lies no nearer the front than its own cell would.
pub open spec fn message_segments_behind(f: Seq<Unit>, old_len: nat) -> bool {
    forall|j: nat|
        j < used_len(f) && #[trigger] f[j as int].spec_is_segment() ==> f[j as int].spec_segment().pos
            <= old_len + body_offset(f, used_len(f)) - body_offset(f, j)
}

} // verus!

verus! {

pub proof fn lemma_body_len(f: Seq<Unit>, i: nat, top: int)
    ensures
        message_body(f, i, top).len() == body_offset(f, i),
    decreases i,
{
    if i > 0 {
        lemma_body_len(f, (i - 1) as nat, top);
    }
}

pub proof fn lemma_section_words_len(f: Seq<Unit>, n: nat, s: nat)
    ensures
        section_words(f, n, s).len() == 2 * s,
    decreases s,
{
    if s > 0 {
        lemma_section_words_len(f, n, (s - 1) as nat);
    }
}

/// Length of a message encoding: one head word, two words per extra
/// section, and the body.
pub proof fn lemma_message_words_len(f: Seq<Unit>, old_len: nat)
    ensures
        message_words(f, old_len).len() == 1 + 2 * message_sections(used_len(f)) + body_offset(
            f,
            used_len(f),
        ),
{
    let n = used_len(f);
    lemma_body_len(f, n, (old_len + body_offset(f, n)) as int);
    lemma_section_words_len(f, n, message_sections(n));
}

/// Cell width of a unit.
fn unit_cell_width(u: &Unit) -> (r: usize)
    ensures
        r == cell_width(*u),
        r <= 3,
        r <= u.spec_size(),
{
    proof {
        use_type_invariant(u);
    }
    if u.inline_len != 0 {
        u.inline_len
    } else if u.segment.len != 0 {
        1
    } else {
        0
    }
}

/// The offset cell for a distance of `d` words.
fn offset(d: usize) -> (r: u32)
    ensures
        r == offset_word(d as nat),
{
    ((d as u32) << 2u32) | 3u32
}

/// Appends `words` to `out`.
fn push_all(out: &mut Vec<u32>, words: &[u32])
    ensures
        final(out)@ == old(out)@ + words@,
{
    let mut k: usize = 0;
    while k < words.len()
        invariant
            k <= words@.len(),
            out@ == old(out)@ + words@.subrange(0, k as int),
        decreases words@.len() - k,
    {
        out.push(words[k]);
        k += 1;
        assert(out@ =~= old(out)@ + words@.subrange(0, k as int));
    }
    assert(words@.subrange(0, k as int) =~= words@);
}

proof fn lemma_used_len(f: Seq<Unit>, k: nat)
    requires
        k <= f.len(),
        forall|j: int| k <= j < f.len() ==> #[trigger] f[j].spec_size() == 0,
        k == 0 || f[k - 1].spec_size() != 0,
    ensures
        used_len(f) == k,
    decreases f.len(),
{
    if f.len() > k {
        assert(f.drop_last().len() == f.len() - 1);
        assert forall|j: int| k <= j < f.drop_last().len() implies #[trigger] f.drop_last()[j].spec_size()
            == 0 by {
            assert(f.drop_last()[j] == f[j]);
        }
        if k > 0 {
            assert(f.drop_last()[k - 1] == f[k - 1]);
        }
        lemma_used_len(f.drop_last(), k);
    }
}

/// The fields at and after `used_len(f)` are empty, and `used_len(f)` is
/// at most the number of fields.
pub proof fn lemma_used_len_bound(f: Seq<Unit>)
    ensures
        used_len(f) <= f.len(),
        forall|j: int| used_len(f) <= j < f.len() ==> #[trigger] f[j].spec_size() == 0,
        used_len(f) > 0 ==> f[used_len(f) - 1].spec_size() != 0,
    decreases f.len(),
{
    if f.len() > 0 && f.last().spec_size() == 0 {
        lemma_used_len_bound(f.drop_last());
        assert forall|j: int| used_len(f) <= j < f.len() implies #[trigger] f[j].spec_size() == 0 by {
            if j < f.len() - 1 {
                assert(f.drop_last()[j] == f[j]);
            }
        }
        if used_len(f) > 0 {
            assert(f.drop_last()[used_len(f) - 1] == f[used_len(f) - 1]);
        }
    }
}

proof fn lemma_payload_monotone(f: Seq<Unit>, a: nat, b: nat)
    requires
        a <= b,
    ensures
        payload_total(f, a) <= payload_total(f, b),
    decreases b,
{
    if a < b {
        lemma_payload_monotone(f, a, (b - 1) as nat);
    }
}

proof fn lemma_body_monotone(f: Seq<Unit>, a: nat, b: nat)
    requires
        a <= b,
    ensures
        body_offset(f, a) <= body_offset(f, b),
    decreases b,
{
    if a < b {
        lemma_body_monotone(f, a, (b - 1) as nat);
    }
}

/// The widths of fields `start..start + k` as 2-bit groups.
fn widths_of(fields: &[Unit], start: usize, k: usize) -> (r: u64)
    requires
        start + k <= fields@.len(),
        k <= 25,
    ensures
        r == width_bits(fields@, start as nat, k as nat),
{
    let n: usize = fields.len();
    let mut bits: u64 = 0;
    let mut i: usize = 0;
    while i < k
        invariant
            i <= k <= 25,
            start + k <= n,
            n == fields@.len(),
            bits == width_bits(fields@, start as nat, i as nat),
        decreases k - i,
    {
        let w: usize = unit_cell_width(&fields[start + i]);
        bits = bits | ((w as u64) << ((2 * i) as u64));
        i += 1;
    }
    bits
}

/// Body words taken by fields `start..end`, added to `base`.
fn body_words_between(fields: &[Unit], start: usize, end: usize, base: usize) -> (r: usize)
    requires
        start <= end <= fields@.len(),
        base == body_offset(fields@, start as nat),
        body_offset(fields@, end as nat) <= usize::MAX,
    ensures
        r == body_offset(fields@, end as nat),
{
    let mut cnt: usize = base;
    let mut i: usize = start;
    while i < end
        invariant
            start <= i <= end <= fields@.len(),
            cnt == body_offset(fields@, i as nat),
            body_offset(fields@, end as nat) <= usize::MAX,
        decreases end - i,
    {
        proof {
            lemma_body_monotone(fields@, (i + 1) as nat, end as nat);
        }
        cnt = cnt + unit_cell_width(&fields[i]);
        i += 1;
    }
    cnt
}

/// Encodes the used fields of a message into `buffer`; the returned unit
/// spans the words written since the buffer held `last` words.
pub fn serialize_message_at(fields: &mut [Unit], buffer: &mut Buffer, last: usize) -> (r: Option<
    Unit,
>)
    requires
        old(buffer).content().len() + 1 < usize::MAX,
        message_encodable(old(fields)@) ==> {
            &&& old(buffer).content().len() + message_words(
                old(fields)@,
                old(buffer).content().len(),
            ).len() <= usize::MAX
            &&& message_segments_behind(old(fields)@, old(buffer).content().len())
            &&& last <= old(buffer).content().len() + message_words(
                old(fields)@,
                old(buffer).content().len(),
            ).len()
        },
    ensures
        final(fields)@ == old(fields)@,
        ({
            let f = old(fields)@;
            let before = old(buffer).content();
            let after = final(buffer).content();
            if f.len() == 0 {
                r is None && after == before
            } else if used_len(f) == 0 {
                &&& after == seq![0u32] + before
                &&& r matches Some(u) && u.spec_inline().len() == 0 && u.spec_segment() == (Segment {
                    pos: after.len() as usize,
                    len: 1,
                })
            } else if message_encodable(f) {
                &&& after == message_words(f, before.len()) + before
                &&& r matches Some(u) && u.spec_inline().len() == 0 && u.spec_segment() == (Segment {
                    pos: after.len() as usize,
                    len: (after.len() - last) as usize,
                })
            } else {
                r is None && after == before
            }
        }),
{
    let ghost f = fields@;
    let ghost before = buffer.content();
    if fields.len() == 0 {
        return None;
    }
    let mut used: usize = fields.len();
    while used > 0
        invariant
            fields@ == f,
            used <= f.len(),
            forall|j: int| used <= j < f.len() ==> #[trigger] f[j].spec_size() == 0,
        ensures
            used <= f.len(),
            forall|j: int| used <= j < f.len() ==> #[trigger] f[j].spec_size() == 0,
            used == 0 || f[used - 1].spec_size() != 0,
        decreases used,
    {
        if !fields[used - 1].is_empty() {
            break;
        }
        used -= 1;
    }
    proof {
        lemma_used_len(f, used as nat);
    }
    if used == 0 {
        let l: usize = buffer.len();
        buffer.put(0);
        return Some(Unit::segment(l, buffer.len()));
    }
    let mut body_size: usize = 0;
    let mut size: usize = 0;
    let mut j: usize = 0;
    while j < used
        invariant
            fields@ == f,
            j <= used <= f.len(),
            used == used_len(f),
            body_size == body_offset(f, j as nat),
            size == payload_total(f, j as nat),
            size < 0x4000_0000,
            body_size <= size,
            buffer.content() == before,
            before == old(buffer).content(),
            f == old(fields)@,
            0 < used,
        decreases used - j,
    {
        let s: usize = fields[j].size();
        assert(s == f[j as int].spec_size());
        assert(payload_total(f, (j + 1) as nat) == size + s);
        if s >= 0x4000_0000 - size {
            proof {
                lemma_payload_monotone(f, (j + 1) as nat, used as nat);
            }
            return None;
        }
        size = size + s;
        body_size = body_size + unit_cell_width(&fields[j]);
        j += 1;
    }
    if used >= 6388 {
        return None;
    }
    let section: usize = (used + 12) / 25;
    let ghost old_len = before.len();
    proof {
        lemma_message_words_len(f, old_len);
    }
    let top: usize = buffer.len() + body_size;
    let mut body: Vec<u32> = Vec::new();
    j = 0;
    while j < used
        invariant
            fields@ == f,
            j <= used <= f.len(),
            used == used_len(f),
            body@ == message_body(f, j as nat, top as int),
            body@.len() == body_offset(f, j as nat),
            body_size == body_offset(f, used as nat),
            top == old_len + body_size,
            message_segments_behind(f, old_len),
        decreases used - j,
    {
        proof {
            lemma_body_monotone(f, j as nat, used as nat);
        }
        let u: Unit = fields[j];
        let ghost prev = body@;
        if u.is_segment() {
            let seg: Segment = u.segment_info();
            assert(f[j as int].spec_is_segment());
            let d: usize = (top - body.len()) - seg.pos;
            body.push(offset(d));
        } else {
            push_all(&mut body, u.inline_words());
        }
        proof {
            assert(body@ =~= prev + cell_words(f[j as int], top - body_offset(f, j as nat)));
        }
        j += 1;
    }
    let k: usize = if used < 12 {
        used
    } else {
        12
    };
    let v: u64 = widths_of(fields, 0, k);
    let mut head: Vec<u32> = Vec::new();
    head.push((section as u32) | ((v as u32) << 8u32));
    proof {
        lemma_body_monotone(f, k as nat, used as nat);
    }
    let mut cnt: usize = body_words_between(fields, 0, k, 0);
    let mut sec: usize = 0;
    while sec < section
        invariant
            fields@ == f,
            used == used_len(f),
            used <= f.len(),
            section == message_sections(used as nat),
            sec <= section <= 0xff,
            head@ == seq![message_head(f, used as nat)] + section_words(f, used as nat, sec as nat),
            sec < section ==> cnt == body_offset(f, 12 + 25 * sec as nat),
            body_size == body_offset(f, used as nat),
        decreases section - sec,
    {
        let start: usize = 12 + 25 * sec;
        let end: usize = if used < start + 25 {
            used
        } else {
            start + 25
        };
        let bits: u64 = widths_of(fields, start, end - start);
        let mark: u64 = ((cnt as u64) << 50u64) | bits;
        let ghost prev = head@;
        head.push((mark & 0xffff_ffff) as u32);
        head.push((mark >> 32u64) as u32);
        proof {
            assert(mark == message_mark(f, used as nat, sec as nat));
            assert(head@ =~= prev + seq![
                crate::utils::lo_word(mark),
                crate::utils::hi_word(mark),
            ]);
            lemma_body_monotone(f, end as nat, used as nat);
        }
        cnt = body_words_between(fields, start, end, cnt);
        sec += 1;
    }
    buffer.put_words(body.as_slice());
    buffer.put_words(head.as_slice());
    Some(Unit::segment(last, buffer.len()))
}

/// Encodes the used fields of a message into `buffer`.
pub fn serialize_message(fields: &mut [Unit], buffer: &mut Buffer) -> (r: Option<Unit>)
    requires
        old(buffer).content().len() + 1 < usize::MAX,
        message_encodable(old(fields)@) ==> {
            &&& old(buffer).content().len() + message_words(
                old(fields)@,
                old(buffer).content().len(),
            ).len() <= usize::MAX
            &&& message_segments_behind(old(fields)@, old(buffer).content().len())
        },
    ensures
        final(fields)@ == old(fields)@,
        ({
            let f = old(fields)@;
            let before = old(buffer).content();
            let after = final(buffer).content();
            if f.len() == 0 {
                r is None && after == before
            } else if used_len(f) == 0 {
                &&& after == seq![0u32] + before
                &&& r matches Some(u) && u.spec_inline().len() == 0 && u.spec_segment() == (Segment {
                    pos: after.len() as usize,
                    len: 1,
                })
            } else if message_encodable(f) {
                &&& after == message_words(f, before.len()) + before
                &&& r matches Some(u) && u.spec_inline().len() == 0 && u.spec_segment() == (Segment {
                    pos: after.len() as usize,
                    len: (after.len() - before.len()) as usize,
                })
            } else {
                r is None && after == before
            }
        }),
{
    let l: usize = buffer.len();
    serialize_message_at(fields, buffer, l)
}

} // verus!

verus! {

/// Words an array of units `0..i` takes with `w`-wide cells: a cell per
/// unit, and the whole unit again when it does not fit in its cell.
pub open spec fn array_size(f: Seq<Unit>, i: nat, w: nat) -> nat
    decreases i,
{
    if i == 0 {
        0
    } else {
        array_size(f, (i - 1) as nat, w) + w + if f[i - 1].spec_size() > w {
            f[i - 1].spec_size()
        } else {
            0
        }
    }
}

/// Cell width chosen for an array: the one of 1, 2 and 3 that takes the
/// fewest words, the narrowest on a tie.
pub open spec fn best_width(f: Seq<Unit>) -> nat {
    let n = f.len();
    let s1 = array_size(f, n, 1);
    let s2 = array_size(f, n, 2);
    let s3 = array_size(f, n, 3);
    let (m, sm) = if s2 < s1 {
        (2nat, s2)
    } else {
        (1nat, s1)
    };
    if s3 < sm {
        3
    } else {
        m
    }
}

/// Words taken by an array with the chosen cell width.
pub open spec fn best_size(f: Seq<Unit>) -> nat {
    array_size(f, f.len(), best_width(f))
}

/// Whether the buffer content holds the words of every unit.
pub open spec fn units_present(f: Seq<Unit>, content: Seq<u32>) -> bool {
    forall|j: int| 0 <= j < f.len() ==> #[trigger] unit_words_in(f[j], content) is Some
}

/// The words of unit `j` in the buffer content.
pub open spec fn unit_words_at(f: Seq<Unit>, content: Seq<u32>, j: int) -> Seq<u32> {
    unit_words_in(f[j], content).unwrap()
}

/// Payload words of units `0..i` that do not fit in `w`-wide cells.
pub open spec fn array_spill(f: Seq<Unit>, i: nat, w: nat) -> nat
    decreases i,
{
    if i == 0 {
        0
    } else {
        array_spill(f, (i - 1) as nat, w) + if f[i - 1].spec_size() > w {
            f[i - 1].spec_size()
        } else {
            0
        }
    }
}

/// A `w`-wide cell: the words themselves padded with zeros when they fit,
/// else an offset cell to `d` words further on.
pub open spec fn array_cell(words: Seq<u32>, w: nat, d: nat) -> Seq<u32> {
    if words.len() <= w {
        words + Seq::new((w - words.len()) as nat, |k: int| 0u32)
    } else {
        seq![offset_word(d)] + Seq::new((w - 1) as nat, |k: int| 0u32)
    }
}

/// Cells of units `0..i` of an array of `n` units with `w`-wide cells.
pub open spec fn array_cells(f: Seq<Unit>, content: Seq<u32>, i: nat, w: nat, n: nat) -> Seq<u32>
    decreases i,
{
    if i == 0 {
        Seq::empty()
    } else {
        let j = (i - 1) as nat;
        array_cells(f, content, j, w, n) + array_cell(
            unit_words_at(f, content, j as int),
            w,
            (n * w + array_spill(f, j, w) - j * w) as nat,
        )
    }
}

/// Payload of units `0..i`: the words of those that do not fit their cell.
pub open spec fn array_payload(f: Seq<Unit>, content: Seq<u32>, i: nat, w: nat) -> Seq<u32>
    decreases i,
{
    if i == 0 {
        Seq::empty()
    } else {
        let j = (i - 1) as nat;
        array_payload(f, content, j, w) + if f[j as int].spec_size() > w {
            unit_words_at(f, content, j as int)
        } else {
            Seq::empty()
        }
    }
}

/// The header word of an array of `n` elements with `w`-wide cells.
pub open spec fn array_head(n: nat, w: nat) -> u32 {
    ((n as u32) << 2u32) | (w as u32)
}

/// The encoding of an array of units whose words the buffer content holds.
pub open spec fn array_words(f: Seq<Unit>, content: Seq<u32>) -> Seq<u32> {
    let n = f.len();
    let w = best_width(f);
    seq![array_head(n, w)] + array_cells(f, content, n, w, n) + array_payload(f, content, n, w)
}

/// The words of a unit in the buffer: its inline words, or its segment.
fn unit_words<'a>(unit: &'a Unit, buffer: &'a Buffer) -> (r: Option<&'a [u32]>)
    ensures
        match r {
            Some(w) => unit_words_in(*unit, buffer.content()) == Some(w@),
            None => unit_words_in(*unit, buffer.content()) is None,
        },
{
    proof {
        use_type_invariant(unit);
    }
    if unit.inline_len != 0 {
        return Some(unit.inline_words());
    }
    let all: &[u32] = buffer.view();
    if unit.segment.len == 0 {
        let e: &[u32] = vstd::slice::slice_subrange(all, 0, 0);
        assert(e@ =~= Seq::<u32>::empty());
        return Some(e);
    }
    if unit.segment.pos > all.len() {
        return None;
    }
    let start: usize = all.len() - unit.segment.pos;
    Some(vstd::slice::slice_subrange(all, start, start + unit.segment.len))
}

pub proof fn lemma_unit_words_len(u: Unit, content: Seq<u32>)
    requires
        unit_words_in(u, content) is Some,
    ensures
        unit_words_in(u, content).unwrap().len() == u.spec_size(),
{
}

fn capped_add(s: usize, t: usize) -> (r: usize)
    requires
        s <= 0x4000_0000,
    ensures
        r == if s + t >= 0x4000_0000 {
            0x4000_0000
        } else {
            s + t
        },
{
    if t >= 0x4000_0000 - s {
        0x4000_0000
    } else {
        s + t
    }
}

/// The array size for cell width `w` when it is below `2^30`, else `2^30`.
fn array_size_capped(elements: &[Unit], w: usize) -> (r: usize)
    requires
        1 <= w <= 3,
    ensures
        r == if array_size(elements@, elements@.len(), w as nat) >= 0x4000_0000 {
            0x4000_0000
        } else {
            array_size(elements@, elements@.len(), w as nat)
        },
{
    let mut s: usize = 0;
    let mut i: usize = 0;
    while i < elements.len()
        invariant
            i <= elements@.len(),
            1 <= w <= 3,
            s == if array_size(elements@, i as nat, w as nat) >= 0x4000_0000 {
                0x4000_0000
            } else {
                array_size(elements@, i as nat, w as nat)
            },
        decreases elements@.len() - i,
    {
        let len: usize = elements[i].size();
        let extra: usize = if len > w {
            len
        } else {
            0
        };
        s = capped_add(s, w);
        s = capped_add(s, extra);
        i += 1;
    }
    s
}

/// The cell width of least size, with that size when it is below `2^30`.
fn best_array_size(elements: &[Unit]) -> (r: (usize, usize))
    ensures
        best_size(elements@) < 0x4000_0000 ==> r.0 == best_size(elements@) && r.1 == best_width(
            elements@,
        ),
        best_size(elements@) >= 0x4000_0000 ==> r.0 >= 0x4000_0000,
{
    let s1: usize = array_size_capped(elements, 1);
    let s2: usize = array_size_capped(elements, 2);
    let s3: usize = array_size_capped(elements, 3);
    let (mut mode, mut size) = if s2 < s1 {
        (2usize, s2)
    } else {
        (1usize, s1)
    };
    if s3 < size {
        mode = 3;
        size = s3;
    }
    (size, mode)
}

} // verus!

verus! {

/// Appends `k` zero words to `out`.
fn push_zeros(out: &mut Vec<u32>, k: usize)
    ensures
        final(out)@ == old(out)@ + Seq::new(k as nat, |i: int| 0u32),
{
    let mut i: usize = 0;
    while i < k
        invariant
            i <= k,
            out@ == old(out)@ + Seq::new(i as nat, |j: int| 0u32),
        decreases k - i,
    {
        out.push(0u32);
        i += 1;
        assert(out@ =~= old(out)@ + Seq::new(i as nat, |j: int| 0u32));
    }
}

pub proof fn lemma_array_size_split(f: Seq<Unit>, i: nat, w: nat)
    ensures
        array_size(f, i, w) == i * w + array_spill(f, i, w),
    decreases i,
{
    if i > 0 {
        let j = (i - 1) as nat;
        lemma_array_size_split(f, j, w);
        assert(j * w + w == i * w) by (nonlinear_arith)
            requires
                j + 1 == i,
        ;
    } else {
        assert(i * w == 0) by (nonlinear_arith)
            requires
                i == 0,
        ;
    }
}

pub proof fn lemma_array_spill_monotone(f: Seq<Unit>, a: nat, b: nat, w: nat)
    requires
        a <= b,
    ensures
        array_spill(f, a, w) <= array_spill(f, b, w),
    decreases b,
{
    if a < b {
        lemma_array_spill_monotone(f, a, (b - 1) as nat, w);
    }
}

/// Length of an array encoding: the header word and the array size.
pub proof fn lemma_array_words_len(f: Seq<Unit>, content: Seq<u32>)
    requires
        units_present(f, content),
        1 <= best_width(f) <= 3,
    ensures
        array_words(f, content).len() == 1 + best_size(f),
{
    let n = f.len();
    let w = best_width(f);
    lemma_array_cells_len(f, content, n, w, n);
    lemma_array_payload_len(f, content, n, w);
    lemma_array_size_split(f, n, w);
}

pub proof fn lemma_array_cells_len(f: Seq<Unit>, content: Seq<u32>, i: nat, w: nat, n: nat)
    requires
        w >= 1,
    ensures
        array_cells(f, content, i, w, n).len() == i * w,
    decreases i,
{
    if i > 0 {
        let j = (i - 1) as nat;
        lemma_array_cells_len(f, content, j, w, n);
        assert(j * w + w == i * w) by (nonlinear_arith)
            requires
                j + 1 == i,
        ;
        let c = array_cell(
            unit_words_at(f, content, j as int),
            w,
            (n * w + array_spill(f, j, w) - j * w) as nat,
        );
        assert(c.len() == w);
    } else {
        assert(i * w == 0) by (nonlinear_arith)
            requires
                i == 0,
        ;
    }
}

pub proof fn lemma_array_payload_len(f: Seq<Unit>, content: Seq<u32>, i: nat, w: nat)
    requires
        i <= f.len(),
        units_present(f, content),
    ensures
        array_payload(f, content, i, w).len() == array_spill(f, i, w),
    decreases i,
{
    if i > 0 {
        lemma_array_payload_len(f, content, (i - 1) as nat, w);
        let j = (i - 1) as int;
        assert(unit_words_in(f[j], content) is Some);
        lemma_unit_words_len(f[j], content);
    }
}

/// Encodes an array of units into `buffer`: the units' words are copied
/// out, the words since the buffer held `last` words are discarded, and the
/// array is put in front; the returned unit spans the array.
pub fn serialize_array_at(elements: &[Unit], buffer: &mut Buffer, last: usize) -> (r: Option<Unit>)
    requires
        best_size(elements@) < 0x4000_0000 && last <= old(buffer).content().len() ==> last + 1
            + best_size(elements@) <= usize::MAX,
    ensures
        ({
            let f = elements@;
            let before = old(buffer).content();
            let after = final(buffer).content();
            if f.len() == 0 {
                &&& after == before
                &&& r matches Some(u) && u.spec_inline() == seq![1u32] && u.spec_segment() == (
                Segment { pos: 0, len: 0 })
            } else if best_size(f) >= 0x4000_0000 || !units_present(f, before) || last
                > before.len() {
                r is None && after == before
            } else {
                &&& after == array_words(f, before) + before.subrange(
                    before.len() - last,
                    before.len() as int,
                )
                &&& r matches Some(u) && u.spec_inline().len() == 0 && u.spec_segment() == (Segment {
                    pos: after.len() as usize,
                    len: (after.len() - last) as usize,
                })
            }
        }),
{
    let ghost f = elements@;
    let ghost before = buffer.content();
    let n: usize = elements.len();
    if n == 0 {
        let one: [u32; 1] = [1u32];
        let u = Unit::inline(one.as_slice());
        assert(one@ =~= seq![1u32]);
        return Some(u);
    }
    let (size, width) = best_array_size(elements);
    if size >= 0x4000_0000 {
        return None;
    }
    proof {
        lemma_array_size_split(f, n as nat, width as nat);
        assert(n * width <= size);
        lemma_array_spill_monotone(f, 0, n as nat, width as nat);
    }
    let cells_len: usize = n * width;
    let mut cells: Vec<u32> = Vec::new();
    let mut payloads: Vec<u32> = Vec::new();
    let mut idx: usize = 0;
    while idx < n
        invariant
            elements@ == f,
            n == f.len(),
            before == old(buffer).content(),
            buffer.content() == before,
            1 <= width <= 3,
            width == best_width(f),
            size == best_size(f),
            size == n * width + array_spill(f, n as nat, width as nat),
            cells_len == n * width,
            size < 0x4000_0000,
            idx <= n,
            cells@ == array_cells(f, before, idx as nat, width as nat, n as nat),
            cells@.len() == idx * width,
            payloads@ == array_payload(f, before, idx as nat, width as nat),
            payloads@.len() == array_spill(f, idx as nat, width as nat),
            forall|j: int| 0 <= j < idx ==> #[trigger] unit_words_in(f[j], before) is Some,
        decreases n - idx,
    {
        proof {
            lemma_array_spill_monotone(f, (idx + 1) as nat, n as nat, width as nat);
            assert(idx * width <= cells_len) by (nonlinear_arith)
                requires
                    idx < n,
                    cells_len == n * width,
            ;
        }
        let words: &[u32] = match unit_words(&elements[idx], buffer) {
            Some(w) => w,
            None => {
                return None;
            },
        };
        proof {
            lemma_unit_words_len(f[idx as int], before);
        }
        let ghost prev_cells = cells@;
        let ghost prev_payloads = payloads@;
        if words.len() <= width {
            push_all(&mut cells, words);
            push_zeros(&mut cells, width - words.len());
            proof {
                assert(cells@ =~= prev_cells + array_cell(words@, width as nat, (n * width
                    + array_spill(f, idx as nat, width as nat) - idx * width) as nat));
                assert(payloads@ =~= prev_payloads + Seq::<u32>::empty());
            }
        } else {
            let d: usize = (cells_len + payloads.len()) - idx * width;
            cells.push(offset(d));
            push_zeros(&mut cells, width - 1);
            push_all(&mut payloads, words);
            proof {
                assert(cells@ =~= prev_cells + array_cell(words@, width as nat, d as nat));
            }
        }
        proof {
            assert(idx * width + width == (idx + 1) * width) by (nonlinear_arith);
        }
        idx += 1;
    }
    if last > buffer.len() {
        return None;
    }
    let cur: usize = buffer.len();
    buffer.shrink(cur - last);
    proof {
        lemma_array_cells_len(f, before, n as nat, width as nat, n as nat);
    }
    buffer.put_words(payloads.as_slice());
    buffer.put_words(cells.as_slice());
    buffer.put(((n as u32) << 2u32) | (width as u32));
    proof {
        assert(final(buffer).content() =~= array_words(f, before) + before.subrange(
            before.len() - last,
            before.len() as int,
        ));
    }
    Some(Unit::segment(last, buffer.len()))
}

/// Encodes array elements written since the buffer held `last` words, as
/// [`serialize_array_at`] does; the elements are left as they are.
pub fn serialize_array_at_mut(elements: &mut [Unit], buffer: &mut Buffer, last: usize) -> (r:
    Option<Unit>)
    requires
        best_size(old(elements)@) < 0x4000_0000 && last <= old(buffer).content().len() ==> last
            + 1 + best_size(old(elements)@) <= usize::MAX,
    ensures
        final(elements)@ == old(elements)@,
        ({
            let f = old(elements)@;
            let before = old(buffer).content();
            let after = final(buffer).content();
            if f.len() == 0 {
                &&& after == before
                &&& r matches Some(u) && u.spec_inline() == seq![1u32] && u.spec_segment() == (
                Segment { pos: 0, len: 0 })
            } else if best_size(f) >= 0x4000_0000 || !units_present(f, before) || last
                > before.len() {
                r is None && after == before
            } else {
                &&& after == array_words(f, before) + before.subrange(
                    before.len() - last,
                    before.len() as int,
                )
                &&& r matches Some(u) && u.spec_inline().len() == 0 && u.spec_segment() == (Segment {
                    pos: after.len() as usize,
                    len: (after.len() - last) as usize,
                })
            }
        }),
{
    serialize_array_at(elements, buffer, last)
}

/// Encodes an array of units written since the buffer's current length.
pub fn serialize_array(elements: &[Unit], buffer: &mut Buffer) -> (r: Option<Unit>)
    requires
        best_size(elements@) < 0x4000_0000 ==> old(buffer).content().len() + 1 + best_size(
            elements@,
        ) <= usize::MAX,
    ensures
        ({
            let f = elements@;
            let before = old(buffer).content();
            let after = final(buffer).content();
            if f.len() == 0 {
                &&& after == before
                &&& r matches Some(u) && u.spec_inline() == seq![1u32] && u.spec_segment() == (
                Segment { pos: 0, len: 0 })
            } else if best_size(f) >= 0x4000_0000 || !units_present(f, before) {
                r is None && after == before
            } else {
                &&& after == array_words(f, before) + before
                &&& r matches Some(u) && u.spec_inline().len() == 0 && u.spec_segment() == (Segment {
                    pos: after.len() as usize,
                    len: (after.len() - before.len()) as usize,
                })
            }
        }),
{
    let l: usize = buffer.len();
    let r = serialize_array_at(elements, buffer, l);
    proof {
        assert(old(buffer).content().subrange(0, l as int) =~= old(buffer).content());
    }
    r
}

} // verus!

verus! {

/// Payload words of the key (`which` false) or value of pair `j` that do not
/// fit its `w`-wide cell.
pub open spec fn spill_of(u: Unit, w: nat) -> nat {
    if u.spec_size() > w {
        u.spec_size()
    } else {
        0
    }
}

/// Payload words of pairs `0..i`.
pub open spec fn map_spill(keys: Seq<Unit>, values: Seq<Unit>, i: nat, kw: nat, vw: nat) -> nat
    decreases i,
{
    if i == 0 {
        0
    } else {
        let j = (i - 1) as nat;
        map_spill(keys, values, j, kw, vw) + spill_of(keys[j as int], kw) + spill_of(
            values[j as int],
            vw,
        )
    }
}

/// Cells of pairs `0..i` of a map of `n` pairs.
pub open spec fn map_cells(
    keys: Seq<Unit>,
    values: Seq<Unit>,
    content: Seq<u32>,
    i: nat,
    kw: nat,
    vw: nat,
    n: nat,
) -> Seq<u32>
    decreases i,
{
    if i == 0 {
        Seq::empty()
    } else {
        let j = (i - 1) as nat;
        let pw = kw + vw;
        let before = map_spill(keys, values, j, kw, vw);
        map_cells(keys, values, content, j, kw, vw, n) + array_cell(
            unit_words_at(keys, content, j as int),
            kw,
            (n * pw + before - j * pw) as nat,
        ) + array_cell(
            unit_words_at(values, content, j as int),
            vw,
            (n * pw + before + spill_of(keys[j as int], kw) - (j * pw + kw)) as nat,
        )
    }
}

/// Payload of pairs `0..i`: the keys and values that do not fit their cells.
pub open spec fn map_payload(
    keys: Seq<Unit>,
    values: Seq<Unit>,
    content: Seq<u32>,
    i: nat,
    kw: nat,
    vw: nat,
) -> Seq<u32>
    decreases i,
{
    if i == 0 {
        Seq::empty()
    } else {
        let j = (i - 1) as nat;
        let k = if keys[j as int].spec_size() > kw {
            unit_words_at(keys, content, j as int)
        } else {
            Seq::empty()
        };
        let v = if values[j as int].spec_size() > vw {
            unit_words_at(values, content, j as int)
        } else {
            Seq::empty()
        };
        map_payload(keys, values, content, j, kw, vw) + k + v
    }
}

/// The index bytes as words, with the key and value widths in the top bits
/// of the first word.
pub open spec fn map_head(index: Seq<u8>, kw: nat, vw: nat) -> Seq<u32> {
    let ws = words_of_bytes(pad4(index));
    ws.update(0, ws[0] | (((kw as u32) << 30u32) | ((vw as u32) << 28u32)))
}

/// Words the index and pairs of a map take.
pub open spec fn map_size(index: Seq<u8>, keys: Seq<Unit>, values: Seq<Unit>) -> nat {
    (index.len() + 3) / 4 + best_size(keys) + best_size(values)
}

/// The encoding of a map with `index` and key/value units whose words the
/// buffer content holds.
pub open spec fn map_words(index: Seq<u8>, keys: Seq<Unit>, values: Seq<Unit>, content: Seq<u32>) -> Seq<
    u32,
> {
    let n = keys.len();
    let kw = best_width(keys);
    let vw = best_width(values);
    map_head(index, kw, vw) + map_cells(keys, values, content, n, kw, vw, n) + map_payload(
        keys,
        values,
        content,
        n,
        kw,
        vw,
    )
}

/// The encoding of a map without pairs.
pub open spec fn empty_map_word() -> u32 {
    0x5000_0000u32
}

pub proof fn lemma_map_spill_monotone(
    keys: Seq<Unit>,
    values: Seq<Unit>,
    a: nat,
    b: nat,
    kw: nat,
    vw: nat,
)
    requires
        a <= b,
    ensures
        map_spill(keys, values, a, kw, vw) <= map_spill(keys, values, b, kw, vw),
    decreases b,
{
    if a < b {
        lemma_map_spill_monotone(keys, values, a, (b - 1) as nat, kw, vw);
    }
}

pub proof fn lemma_map_spill_split(keys: Seq<Unit>, values: Seq<Unit>, i: nat, kw: nat, vw: nat)
    ensures
        map_spill(keys, values, i, kw, vw) == array_spill(keys, i, kw) + array_spill(values, i, vw),
    decreases i,
{
    if i > 0 {
        lemma_map_spill_split(keys, values, (i - 1) as nat, kw, vw);
    }
}

pub proof fn lemma_map_cells_len(
    keys: Seq<Unit>,
    values: Seq<Unit>,
    content: Seq<u32>,
    i: nat,
    kw: nat,
    vw: nat,
    n: nat,
)
    requires
        kw >= 1,
        vw >= 1,
    ensures
        map_cells(keys, values, content, i, kw, vw, n).len() == i * (kw + vw),
    decreases i,
{
    if i > 0 {
        let j = (i - 1) as nat;
        lemma_map_cells_len(keys, values, content, j, kw, vw, n);
        assert(j * (kw + vw) + (kw + vw) == i * (kw + vw)) by (nonlinear_arith)
            requires
                j + 1 == i,
        ;
    } else {
        assert(i * (kw + vw) == 0) by (nonlinear_arith)
            requires
                i == 0,
        ;
    }
}

pub proof fn lemma_map_payload_len(
    keys: Seq<Unit>,
    values: Seq<Unit>,
    content: Seq<u32>,
    i: nat,
    kw: nat,
    vw: nat,
)
    requires
        i <= keys.len(),
        i <= values.len(),
        units_present(keys, content),
        units_present(values, content),
    ensures
        map_payload(keys, values, content, i, kw, vw).len() == map_spill(keys, values, i, kw, vw),
    decreases i,
{
    if i > 0 {
        let j = (i - 1) as nat;
        lemma_map_payload_len(keys, values, content, j, kw, vw);
        assert(unit_words_in(keys[j as int], content) is Some);
        assert(unit_words_in(values[j as int], content) is Some);
        lemma_unit_words_len(keys[j as int], content);
        lemma_unit_words_len(values[j as int], content);
    }
}

/// Appends the `w`-wide cell of `words` to `cells`: the words padded with
/// zeros when they fit, else an offset cell to `d` words further on, with
/// the words appended to `payloads`.
fn put_cell(cells: &mut Vec<u32>, payloads: &mut Vec<u32>, words: &[u32], w: usize, d: usize)
    requires
        1 <= w <= 3,
    ensures
        final(cells)@ == old(cells)@ + array_cell(words@, w as nat, d as nat),
        final(payloads)@ == old(payloads)@ + if words@.len() > w {
            words@
        } else {
            Seq::empty()
        },
{
    let ghost c0 = cells@;
    let ghost p0 = payloads@;
    if words.len() <= w {
        push_all(cells, words);
        push_zeros(cells, w - words.len());
        assert(payloads@ =~= p0 + Seq::<u32>::empty());
    } else {
        cells.push(offset(d));
        push_zeros(cells, w - 1);
        push_all(payloads, words);
    }
    assert(cells@ =~= c0 + array_cell(words@, w as nat, d as nat));
}

pub proof fn lemma_map_step(
    keys: Seq<Unit>,
    values: Seq<Unit>,
    content: Seq<u32>,
    i: nat,
    kw: nat,
    vw: nat,
    n: nat,
)
    ensures
        map_cells(keys, values, content, i + 1, kw, vw, n) == map_cells(
            keys,
            values,
            content,
            i,
            kw,
            vw,
            n,
        ) + array_cell(
            unit_words_at(keys, content, i as int),
            kw,
            (n * (kw + vw) + map_spill(keys, values, i, kw, vw) - i * (kw + vw)) as nat,
        ) + array_cell(
            unit_words_at(values, content, i as int),
            vw,
            (n * (kw + vw) + map_spill(keys, values, i, kw, vw) + spill_of(keys[i as int], kw) - (i
                * (kw + vw) + kw)) as nat,
        ),
        map_payload(keys, values, content, i + 1, kw, vw) == map_payload(
            keys,
            values,
            content,
            i,
            kw,
            vw,
        ) + (if keys[i as int].spec_size() > kw {
            unit_words_at(keys, content, i as int)
        } else {
            Seq::empty()
        }) + (if values[i as int].spec_size() > vw {
            unit_words_at(values, content, i as int)
        } else {
            Seq::empty()
        }),
{
}

/// The index bytes as words, padded with zeros, with the widths in the top
/// bits of the first word.
fn map_head_words(index: &[u8], kw: usize, vw: usize) -> (r: Vec<u32>)
    requires
        index@.len() > 0,
        1 <= kw <= 3,
        1 <= vw <= 3,
    ensures
        r@ == map_head(index@, kw as nat, vw as nat),
        r@.len() == (index@.len() + 3) / 4,
{
    let mut bytes: Vec<u8> = Vec::new();
    let mut i: usize = 0;
    while i < index.len()
        invariant
            i <= index@.len(),
            bytes@ == index@.subrange(0, i as int),
        decreases index@.len() - i,
    {
        bytes.push(index[i]);
        i += 1;
        assert(bytes@ =~= index@.subrange(0, i as int));
    }
    let ghost raw = bytes@;
    assert(raw =~= index@);
    while bytes.len() % 4 != 0
        invariant
            bytes@.len() <= raw.len() + 3,
            bytes@.subrange(0, raw.len() as int) == raw,
            forall|j: int| raw.len() <= j < bytes@.len() ==> bytes@[j] == 0u8,
            raw.len() <= bytes@.len(),
            bytes@.len() - raw.len() <= (4 - raw.len() % 4) % 4,
        decreases 3 - (bytes@.len() - raw.len()),
    {
        bytes.push(0u8);
    }
    assert(bytes@ =~= pad4(raw));
    let mut words: Vec<u32> = words_from_bytes(&bytes);
    let w0: u32 = words[0] | (((kw as u32) << 30u32) | ((vw as u32) << 28u32));
    words.set(0, w0);
    words
}

/// Encodes a map from its index bytes and key and value units: the units'
/// words are copied out, the words since the buffer held `last` words are
/// discarded, and the map is put in front; the returned unit spans the map.
#[verifier::rlimit(40)]
pub fn serialize_map_at(
    index: &[u8],
    keys: &[Unit],
    values: &[Unit],
    buffer: &mut Buffer,
    last: usize,
) -> (r: Option<Unit>)
    requires
        keys@.len() == values@.len() && keys@.len() > 0 && map_size(index@, keys@, values@)
            < 0x4000_0000 && last <= old(buffer).content().len() ==> last + map_size(
            index@,
            keys@,
            values@,
        ) <= usize::MAX && index@.len() > 0,
    ensures
        ({
            let before = old(buffer).content();
            let after = final(buffer).content();
            if keys@.len() != values@.len() {
                r is None && after == before
            } else if keys@.len() == 0 {
                &&& after == before
                &&& r matches Some(u) && u.spec_inline() == seq![empty_map_word()]
                    && u.spec_segment() == (Segment { pos: 0, len: 0 })
            } else if map_size(index@, keys@, values@) >= 0x4000_0000 || !units_present(
                keys@,
                before,
            ) || !units_present(values@, before) || last > before.len() {
                r is None && after == before
            } else {
                &&& after == map_words(index@, keys@, values@, before) + before.subrange(
                    before.len() - last,
                    before.len() as int,
                )
                &&& r matches Some(u) && u.spec_inline().len() == 0 && u.spec_segment() == (Segment {
                    pos: after.len() as usize,
                    len: (after.len() - last) as usize,
                })
            }
        }),
{
    let ghost before = buffer.content();
    let ghost ks = keys@;
    let ghost vs = values@;
    if keys.len() != values.len() {
        return None;
    }
    let n: usize = keys.len();
    if n == 0 {
        let one: [u32; 1] = [0x5000_0000u32];
        let u = Unit::inline(one.as_slice());
        assert(one@ =~= seq![empty_map_word()]);
        return Some(u);
    }
    let (key_size, kw) = best_array_size(keys);
    let (value_size, vw) = best_array_size(values);
    if key_size >= 0x4000_0000 || value_size >= 0x4000_0000 {
        return None;
    }
    let index_words: usize = index.len() / 4 + if index.len() % 4 != 0 {
        1usize
    } else {
        0usize
    };
    assert(index_words == (index@.len() + 3) / 4);
    if key_size + value_size >= 0x4000_0000 || index_words >= 0x4000_0000 - key_size - value_size {
        return None;
    }
    let pw: usize = kw + vw;
    proof {
        lemma_array_size_split(ks, n as nat, kw as nat);
        lemma_array_size_split(vs, n as nat, vw as nat);
        lemma_map_spill_split(ks, vs, n as nat, kw as nat, vw as nat);
        lemma_map_spill_monotone(ks, vs, 0, n as nat, kw as nat, vw as nat);
        assert(n * pw == n * kw + n * vw) by (nonlinear_arith)
            requires
                pw == kw + vw,
        ;
    }
    let cells_len: usize = n * pw;
    let mut cells: Vec<u32> = Vec::new();
    let mut payloads: Vec<u32> = Vec::new();
    let mut i: usize = 0;
    while i < n
        invariant
            keys@ == ks,
            values@ == vs,
            n == ks.len(),
            n == vs.len(),
            before == old(buffer).content(),
            buffer.content() == before,
            1 <= kw <= 3,
            1 <= vw <= 3,
            kw == best_width(ks),
            vw == best_width(vs),
            pw == kw + vw,
            cells_len == n * pw,
            cells_len + map_spill(ks, vs, n as nat, kw as nat, vw as nat) < 0x4000_0000,
            i <= n,
            cells@ == map_cells(ks, vs, before, i as nat, kw as nat, vw as nat, n as nat),
            cells@.len() == i * pw,
            payloads@ == map_payload(ks, vs, before, i as nat, kw as nat, vw as nat),
            payloads@.len() == map_spill(ks, vs, i as nat, kw as nat, vw as nat),
            forall|j: int| 0 <= j < i ==> #[trigger] unit_words_in(ks[j], before) is Some,
            forall|j: int| 0 <= j < i ==> #[trigger] unit_words_in(vs[j], before) is Some,
        decreases n - i,
    {
        proof {
            lemma_map_spill_monotone(ks, vs, (i + 1) as nat, n as nat, kw as nat, vw as nat);
            assert(i * pw + pw <= cells_len) by (nonlinear_arith)
                requires
                    i < n,
                    cells_len == n * pw,
            ;
        }
        let key_words: &[u32] = match unit_words(&keys[i], buffer) {
            Some(w) => w,
            None => {
                return None;
            },
        };
        let value_words: &[u32] = match unit_words(&values[i], buffer) {
            Some(w) => w,
            None => {
                return None;
            },
        };
        proof {
            lemma_unit_words_len(ks[i as int], before);
            lemma_unit_words_len(vs[i as int], before);
        }
        let ghost prev_cells = cells@;
        let ghost prev_payloads = payloads@;
        let cell_start: usize = i * pw;
        let spill0: usize = payloads.len();
        let dk: usize = (cells_len + spill0) - cell_start;
        put_cell(&mut cells, &mut payloads, key_words, kw, dk);
        let ghost mid_cells = cells@;
        let ghost mid_payloads = payloads@;
        let dv: usize = (cells_len + payloads.len()) - (cell_start + kw);
        put_cell(&mut cells, &mut payloads, value_words, vw, dv);
        proof {
            lemma_map_step(ks, vs, before, i as nat, kw as nat, vw as nat, n as nat);
            assert(cells@ =~= map_cells(ks, vs, before, (i + 1) as nat, kw as nat, vw as nat, n as nat));
            assert(payloads@ =~= map_payload(
                ks,
                vs,
                before,
                (i + 1) as nat,
                kw as nat,
                vw as nat,
            ));
            assert(i * pw + pw == (i + 1) * pw) by (nonlinear_arith);
        }
        i += 1;
    }
    if last > buffer.len() {
        return None;
    }
    let cur: usize = buffer.len();
    buffer.shrink(cur - last);
    proof {
        lemma_map_cells_len(ks, vs, before, n as nat, kw as nat, vw as nat, n as nat);
    }
    buffer.put_words(payloads.as_slice());
    buffer.put_words(cells.as_slice());
    let head: Vec<u32> = map_head_words(index, kw, vw);
    buffer.put_words(head.as_slice());
    proof {
        assert(final(buffer).content() =~= map_words(index@, ks, vs, before) + before.subrange(
            before.len() - last,
            before.len() as int,
        ));
    }
    Some(Unit::segment(last, buffer.len()))
}

/// Encodes a map from key and value units written since the buffer held
/// `last` words, as [`serialize_map_at`] does; the units are left as they
/// are.
pub fn serialize_map_at_mut(
    index: &[u8],
    keys: &mut [Unit],
    values: &mut [Unit],
    buffer: &mut Buffer,
    last: usize,
) -> (r: Option<Unit>)
    requires
        old(keys)@.len() == old(values)@.len() && old(keys)@.len() > 0 && map_size(
            index@,
            old(keys)@,
            old(values)@,
        ) < 0x4000_0000 && last <= old(buffer).content().len() ==> last + map_size(
            index@,
            old(keys)@,
            old(values)@,
        ) <= usize::MAX && index@.len() > 0,
    ensures
        final(keys)@ == old(keys)@,
        final(values)@ == old(values)@,
        ({
            let ks = old(keys)@;
            let vs = old(values)@;
            let before = old(buffer).content();
            let after = final(buffer).content();
            if ks.len() != vs.len() {
                r is None && after == before
            } else if ks.len() == 0 {
                &&& after == before
                &&& r matches Some(u) && u.spec_inline() == seq![empty_map_word()]
                    && u.spec_segment() == (Segment { pos: 0, len: 0 })
            } else if map_size(index@, ks, vs) >= 0x4000_0000 || !units_present(ks, before)
                || !units_present(vs, before) || last > before.len() {
                r is None && after == before
            } else {
                &&& after == map_words(index@, ks, vs, before) + before.subrange(
                    before.len() - last,
                    before.len() as int,
                )
                &&& r matches Some(u) && u.spec_inline().len() == 0 && u.spec_segment() == (Segment {
                    pos: after.len() as usize,
                    len: (after.len() - last) as usize,
                })
            }
        }),
{
    serialize_map_at(index, keys, values, buffer, last)
}

/// Encodes a map from its index bytes and key and value units written since
/// the buffer's current length.
pub fn serialize_map(index: &[u8], keys: &[Unit], values: &[Unit], buffer: &mut Buffer) -> (r:
    Option<Unit>)
    requires
        keys@.len() == values@.len() && keys@.len() > 0 && map_size(index@, keys@, values@)
            < 0x4000_0000 ==> old(buffer).content().len() + map_size(index@, keys@, values@)
            <= usize::MAX && index@.len() > 0,
    ensures
        ({
            let before = old(buffer).content();
            let after = final(buffer).content();
            if keys@.len() != values@.len() {
                r is None && after == before
            } else if keys@.len() == 0 {
                &&& after == before
                &&& r matches Some(u) && u.spec_inline() == seq![empty_map_word()]
                    && u.spec_segment() == (Segment { pos: 0, len: 0 })
            } else if map_size(index@, keys@, values@) >= 0x4000_0000 || !units_present(
                keys@,
                before,
            ) || !units_present(values@, before) {
                r is None && after == before
            } else {
                &&& after == map_words(index@, keys@, values@, before) + before
                &&& r matches Some(u) && u.spec_inline().len() == 0 && u.spec_segment() == (Segment {
                    pos: after.len() as usize,
                    len: (after.len() - before.len()) as usize,
                })
            }
        }),
{
    let l: usize = buffer.len();
    let r = serialize_map_at(index, keys, values, buffer, l);
    proof {
        assert(old(buffer).content().subrange(0, l as int) =~= old(buffer).content());
    }
    r
}

} // verus!
