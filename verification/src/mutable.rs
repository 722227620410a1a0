//! Owned, mutable field values with dirty tracking, and their encoding.

use vstd::prelude::*;
use vstd::string::StringSliceAdditionalSpecFns;

use vstd::utf8::{decode_utf8, encode_utf8, valid_utf8};

use crate::access::{
    spec_array_header, spec_message_field, spec_message_layout, spec_scalars, spec_string_bytes,
    spec_string_detect_len, cell_object, cell_raw, cell_scalar, spec_map_layout, spec_pair_tail, ArrayView,
    FieldView, MapKey, MapView, MessageView, StringView,
};
use crate::buffer::Buffer;
use crate::serialize::{
    fold_field, serialize_array_at, serialize_bool, serialize_bytes, serialize_scalar,
    spec_serialize_bytes_result, Segment, Unit,
};
use crate::utils::Scalar;

verus! {

/// Error returned while decoding or encoding mutable values.
#[derive(Debug)]
pub enum MutableError {
    InvalidRoot { descriptor: String },
    MissingField { descriptor: String, field: String },
    TypeMismatch { descriptor: String, field: String, expected: &'static str },
    InvalidMapKey { descriptor: String, field: String, key: String },
    SerializeFailed { descriptor: String, field: String },
}

/// The wire-level representation of a map key.
#[derive(Clone, Copy, Debug, PartialEq, Eq, Structural)]
pub enum MutableMapKeyKind {
    String,
    I32,
    U32,
    I64,
    U64,
}

/// An encoding failure of the named part.
fn serialize_failed(descriptor: &str, field: &str) -> (r: MutableError)
    ensures
        r is SerializeFailed,
{
    MutableError::SerializeFailed { descriptor: descriptor.to_owned(), field: field.to_owned() }
}

/// Whether `after` still ends with the words of `before`: encodings only put
/// words in front of what was written earlier.
pub open spec fn keeps_written(before: Seq<u32>, after: Seq<u32>) -> bool {
    &&& before.len() <= after.len()
    &&& after.subrange(after.len() - before.len(), after.len() as int) == before
}

/// A buffer keeps its own words.
pub proof fn lemma_keeps_written_refl(a: Seq<u32>)
    ensures
        keeps_written(a, a),
{
    assert(a.subrange(0, a.len() as int) =~= a);
}

/// Putting words in front keeps what was there.
pub proof fn lemma_keeps_written_prepend(w: Seq<u32>, a: Seq<u32>)
    ensures
        keeps_written(a, w + a),
{
    assert((w + a).subrange(w.len() as int, (w + a).len() as int) =~= a);
}

/// Keeping the words written earlier is transitive.
pub proof fn lemma_keeps_written_trans(a: Seq<u32>, b: Seq<u32>, c: Seq<u32>)
    requires
        keeps_written(a, b),
        keeps_written(b, c),
    ensures
        keeps_written(a, c),
{
    let cb = c.subrange(c.len() - b.len(), c.len() as int);
    assert(c.subrange(c.len() - a.len(), c.len() as int) =~= cb.subrange(
        b.len() - a.len(),
        b.len() as int,
    ));
}

/// Whether a field's encoding `u0`, over the content `mid`, became the unit
/// `u` over the content `after` in one of the ways a message settles it:
/// kept as it is, dropped, or folded into inline words.
pub open spec fn settled(u0: Unit, mid: Seq<u32>, u: Unit, after: Seq<u32>) -> bool {
    let seg = u0.spec_segment();
    ||| u == u0 && after == mid
    ||| u.spec_inline().len() == 0 && u.spec_segment() == (Segment { pos: 0, len: 0 }) && if u0.spec_is_segment() {
        after == mid.subrange(seg.len as int, mid.len() as int)
    } else {
        after == mid
    }
    ||| u0.spec_is_segment() && seg.len < 4 && seg.pos == mid.len() && u.spec_inline() == mid.subrange(
        0,
        seg.len as int,
    ) && u.spec_segment() == (Segment { pos: 0, len: 0 }) && after == mid.subrange(seg.len as int, mid.len() as int)
}

/// A word with a set bit is not zero.
proof fn lemma_marked_nonzero(v: u64, b: u64)
    requires
        b < 64,
        (v >> b) & 1u64 == 1u64,
    ensures
        v != 0,
{
    assert((v >> b) & 1u64 == 1u64 && b < 64 ==> v != 0) by (bit_vector);
}

/// Whether a present unit is one word long, the shape of a default value
/// that a message leaves out.
pub fn should_omit_message_unit(unit: &Unit) -> (r: bool)
    ensures
        r == (unit.spec_size() == 1),
{
    unit.size() == 1
}

/// Drops a present unit: the words it took at the front of the buffer are
/// discarded, and the unit becomes empty.
pub fn drop_present_unit(buffer: &mut Buffer, unit: &mut Unit)
    requires
        old(unit).spec_is_segment() ==> old(unit).spec_segment().len <= old(buffer).content().len(),
    ensures
        final(unit).spec_inline().len() == 0,
        final(unit).spec_segment() == (Segment { pos: 0, len: 0 }),
        old(unit).spec_is_segment() ==> final(buffer).content() == old(buffer).content().subrange(
            old(unit).spec_segment().len as int,
            old(buffer).content().len() as int,
        ),
        !old(unit).spec_is_segment() ==> final(buffer).content() == old(buffer).content(),
{
    if unit.is_segment() {
        let seg: Segment = unit.segment_info();
        buffer.shrink(seg.len);
    }
    *unit = Unit::empty();
}

/// Copies already encoded words: inline when `fold` is set and they are
/// fewer than four, else put in front of the buffer.
pub fn copy_words(words: &[u32], buffer: &mut Buffer, fold: bool) -> (r: Unit)
    requires
        old(buffer).content().len() + words@.len() <= usize::MAX,
    ensures
        fold && words@.len() < 4 ==> r.spec_inline() == words@ && final(buffer).content() == old(buffer).content() && r.spec_segment() == (Segment { pos: 0, len: 0 }),
        !(fold && words@.len() < 4) ==> final(buffer).content() == words@ + old(buffer).content()
            && r.spec_inline().len() == 0 && r.spec_segment() == (Segment {
            pos: final(buffer).content().len() as usize,
            len: words@.len() as usize,
        }),
{
    if fold && words.len() < 4 {
        return Unit::inline(words);
    }
    let last: usize = buffer.len();
    buffer.put_words(words);
    Unit::segment(last, buffer.len())
}

/// A value of a message field: how it is read from a field, how it encodes,
/// and whether it was changed.
pub trait MutableField<'a>: Sized + Default {
    /// Whether the field whose cell starts `tail`, `width` words wide,
    /// reads as a value of this type.
    spec fn spec_decodes(tail: Seq<u32>, width: nat) -> bool;

    /// Whether `v` is what the field whose cell starts `tail`, `width`
    /// words wide, reads as.
    spec fn spec_decoded(tail: Seq<u32>, width: nat, v: Self) -> bool;

    /// Reads the value of a field.
    fn decode(field: FieldView<'a>) -> (r: Option<Self>)
        ensures
            r is Some == Self::spec_decodes(field.spec_tail(), field.spec_width()),
            r matches Some(v) ==> Self::spec_decoded(field.spec_tail(), field.spec_width(), v),
    ;

    /// Whether `d` is the encoded words of the value of the field whose
    /// cell starts `tail`, `width` words wide.
    spec fn spec_detected(tail: Seq<u32>, width: nat, d: Seq<u32>) -> bool;

    /// Whether the encoded words of the value of the field whose cell
    /// starts `tail`, `width` words wide, are found for certain.
    spec fn spec_detectable(tail: Seq<u32>, width: nat) -> bool;

    /// The encoded words of the field's value.
    fn detect(field: FieldView<'a>) -> (r: Option<&'a [u32]>)
        ensures
            r matches Some(d) ==> Self::spec_detected(field.spec_tail(), field.spec_width(), d@),
            r is None ==> !Self::spec_detectable(field.spec_tail(), field.spec_width()),
    ;

    /// Number of words from the field's cell to the end of all the words
    /// the value's encoding spans.
    fn detect_end(field: FieldView<'a>) -> (r: Option<usize>)
        ensures
            r matches Some(e) ==> e <= field.spec_tail().len(),
    ;

    /// Whether a present value is folded into its message cell.
    fn folds_when_present() -> bool {
        true
    }

    /// Whether the value is its type's empty value, which a message leaves
    /// out.
    fn is_empty_field(&self) -> bool {
        false
    }

    /// Whether a one-word encoding of the value is left out of a message.
    fn omits_default_after_encode() -> bool {
        true
    }

    /// Whether the value was changed since it was read.
    fn is_dirty(&self) -> bool {
        false
    }

    /// Whether the value or a value inside it was changed since it was read.
    spec fn spec_changed(&self) -> bool;

    /// Whether the value or a value inside it was changed since it was read.
    fn has_nested_dirty(&self) -> (r: bool)
        ensures
            r == self.spec_changed(),
    ;

    /// Whether encoding the value over the buffer content `before` gives
    /// `r` and leaves the content `after`.
    spec fn spec_encoded(&self, before: Seq<u32>, r: Result<Unit, MutableError>, after: Seq<u32>) -> bool;

    /// Encodes the value, putting what does not fit its cell in front of
    /// `buffer`.
    fn encode(&self, buffer: &mut Buffer) -> (r: Result<Unit, MutableError>)
        ensures
            keeps_written(old(buffer).content(), final(buffer).content()),
            self.spec_encoded(old(buffer).content(), r, final(buffer).content()),
    ;
}

/// A value that can be an array element.
pub trait MutableArrayElement<'a>: MutableField<'a> {
    /// Whether the array that starts `words` reads as an array of such
    /// values.
    spec fn spec_array_decodes(words: Seq<u32>) -> bool;

    /// Whether `values` are the elements read from the array that starts
    /// `words`.
    spec fn spec_array_decoded(words: Seq<u32>, values: Seq<Self>) -> bool;

    /// Reads all elements of the array that starts `words`.
    fn decode_array(words: &'a [u32]) -> (r: Option<Vec<Self>>)
        ensures
            r is Some == Self::spec_array_decodes(words@),
            r matches Some(v) ==> Self::spec_array_decoded(words@, v@),
    ;

    /// Number of words from the start of an array of such values to the
    /// end of all the words it spans.
    fn detect_array_len(words: &'a [u32]) -> (r: Option<usize>)
        ensures
            r matches Some(e) ==> e <= words@.len(),
    {
        array_extent::<Self>(words)
    }

    /// Number of words from the cell of a field holding an array of such
    /// values to the end of all the words the array spans.
    fn detect_array_end(field: FieldView<'a>) -> (r: Option<usize>)
        ensures
            r matches Some(e) ==> e <= field.spec_tail().len(),
    {
        let off: usize = match field.object_offset() {
            Some(o) => o,
            None => {
                return None;
            },
        };
        let obj: &'a [u32] = match field.object_words() {
            Some(w) => w,
            None => {
                return None;
            },
        };
        let n: usize = match Self::detect_array_len(obj) {
            Some(n) => n,
            None => {
                return None;
            },
        };
        assert(obj@.len() == field.spec_tail().len() - off);
        let obj_len: usize = obj.len();
        let tail_len: usize = field.tail_len();
        assert(off + n <= tail_len);
        Some(off + n)
    }

    /// The words an array of such values spans, from its start.
    fn detect_array_words(words: &'a [u32]) -> (r: Option<&'a [u32]>)
        ensures
            r matches Some(d) ==> d@ == words@.subrange(0, d@.len() as int),
    {
        let n: usize = match Self::detect_array_len(words) {
            Some(n) => n,
            None => {
                return None;
            },
        };
        Some(slice_prefix(words, n))
    }

    /// The words an array of such values held by a field spans, from the
    /// array's start.
    fn detect_array_field(field: FieldView<'a>) -> (r: Option<&'a [u32]>)
        ensures
            r matches Some(d) ==> (field.spec_object_words() matches Some(w) && d@ == w.subrange(
                0,
                d@.len() as int,
            )),
    {
        let off: usize = match field.object_offset() {
            Some(o) => o,
            None => {
                return None;
            },
        };
        let end: usize = match Self::detect_array_end(field) {
            Some(e) => e,
            None => {
                return None;
            },
        };
        let obj: &'a [u32] = match field.object_words() {
            Some(w) => w,
            None => {
                return None;
            },
        };
        if end < off {
            return None;
        }
        Some(slice_prefix(obj, end - off))
    }

    /// Encodes the values as an array, putting its words in front of
    /// `buffer`.
    fn encode_array(values: &[Self], buffer: &mut Buffer) -> (r: Result<Unit, MutableError>)
        ensures
            keeps_written(old(buffer).content(), final(buffer).content()),
            Self::spec_array_encoded(values@, old(buffer).content(), r, final(buffer).content()),
    ;

    /// What encoding `values` as an array in front of the words `before`
    /// gives: the result `r` and the words `after`.
    spec fn spec_array_encoded(values: Seq<Self>, before: Seq<u32>, r: Result<Unit, MutableError>, after: Seq<u32>) -> bool;
}

/// The encoding of scalars as an array: an empty array is its inline
/// header word; a non-empty one that fits is its header word and the
/// scalars' words in front of `before`, as a segment; one that does not fit
/// fails and leaves the words as they were.
pub open spec fn scalar_array_encoded<T: Scalar>(values: Seq<T>, before: Seq<u32>, r: Result<Unit, MutableError>, after: Seq<u32>) -> bool {
    &&& values.len() == 0 ==> after == before && (r matches Ok(u) && u.spec_inline() == seq![T::spec_width() as u32]
        && u.spec_segment() == (Segment { pos: 0, len: 0 }))
    &&& 0 < values.len() < 0x4000_0000 && before.len() + 1 + values.len() * T::spec_width() <= usize::MAX ==> (
        r matches Ok(u) && after == seq![((values.len() as u32) << 2u32) | (T::spec_width() as u32)] + scalar_words(values)
            + before && u.spec_inline().len() == 0 && u.spec_segment() == (Segment {
            pos: after.len() as usize,
            len: (after.len() - before.len()) as usize,
        }))
    &&& values.len() >= 0x4000_0000 || (values.len() > 0 && before.len() + 1 + values.len() * T::spec_width()
        > usize::MAX) ==> (r is Err && after == before)
}

/// What is stated of encoding values that each encode on their own as an
/// array: an empty array is the inline word 1.
pub open spec fn object_array_encoded<V>(values: Seq<V>, before: Seq<u32>, r: Result<Unit, MutableError>, after: Seq<u32>) -> bool {
    values.len() == 0 ==> after == before && (r matches Ok(u) && u.spec_inline() == seq![1u32] && u.spec_segment() == (
    Segment { pos: 0, len: 0 }))
}

/// The first `n` words.
fn slice_prefix<'a>(words: &'a [u32], n: usize) -> (r: &'a [u32])
    requires
        n <= words@.len(),
    ensures
        r@ == words@.subrange(0, n as int),
{
    vstd::slice::slice_subrange(words, 0, n)
}

/// Number of words from the start of an array of `T` values to the end of
/// all the words it spans: past the cells, up to the end of the last element
/// whose words reach beyond them.
pub fn array_extent<'a, T: MutableField<'a>>(words: &'a [u32]) -> (r: Option<usize>)
    ensures
        r matches Some(e) ==> e <= words@.len(),
        spec_array_header(words@) is None ==> r is None,
        r matches Some(e) ==> (spec_array_header(words@) matches Some((n, w)) && 1 + n * w <= e),
        spec_array_header(words@) matches Some((n, w)) && n == 0 ==> r == Some(1usize),
{
    let array = match ArrayView::new(words) {
        Some(a) => a,
        None => {
            return None;
        },
    };
    let n: usize = array.len();
    let w: usize = array.width();
    assert(spec_array_header(words@) == Some((n as nat, w as nat)));
    let total: usize = words.len();
    assert(1 + n * w <= total);
    let body: usize = 1 + n * w;
    let mut i: usize = n;
    while i > 0
        invariant
            i <= n,
            array@ == words@,
            array.spec_header() == (n as nat, w as nat),
            spec_array_header(words@) == Some((n as nat, w as nat)),
            body == 1 + n * w,
            body <= words@.len(),
            total == words@.len(),
        decreases i,
    {
        i -= 1;
        assert(i * w + w <= n * w) by (nonlinear_arith)
            requires
                i < n,
        ;
        let field = array.expect_field(i);
        let e: usize = match T::detect_end(field) {
            Some(e) => e,
            None => {
                return None;
            },
        };
        assert(e <= field.spec_tail().len());
        assert(field.spec_tail().len() == words@.len() - (1 + i * w));
        let pos: usize = 1 + i * w + e;
        if pos > body {
            return Some(pos);
        }
    }
    assert(n == 0 ==> body == 1) by (nonlinear_arith)
        requires
            body == 1 + n * w,
    ;
    Some(body)
}

/// The cell of a scalar field spans its width.
fn scalar_detect_end<'a>(field: FieldView<'a>) -> (r: Option<usize>)
    ensures
        match r {
            Some(e) => field.spec_raw_words() matches Some(w) && e == w.len() && e
                <= field.spec_tail().len(),
            None => field.spec_raw_words() is None,
        },
{
    match field.raw_words() {
        Some(w) => Some(w.len()),
        None => None,
    }
}

/// Where, counted from a field's cell, a string encoding held by the field
/// ends: none when the field holds no object or the object's words do not
/// hold a whole string encoding.
pub open spec fn spec_string_end(field: FieldView) -> Option<nat> {
    match field.spec_object_words() {
        None => None,
        Some(w) => match spec_string_detect_len(w) {
            Some(n) => if n <= w.len() {
                Some((field.spec_tail().len() - w.len() + n) as nat)
            } else {
                None
            },
            None => None,
        },
    }
}

/// A string field spans its cell up to the end of the string's words.
fn string_detect_end<'a>(field: FieldView<'a>) -> (r: Option<usize>)
    ensures
        r matches Some(e) ==> e <= field.spec_tail().len(),
        match r {
            Some(e) => spec_string_end(field) == Some(e as nat),
            None => spec_string_end(field) is None,
        },
{
    let off: usize = match field.object_offset() {
        Some(o) => o,
        None => {
            return None;
        },
    };
    let obj: &'a [u32] = match field.object_words() {
        Some(w) => w,
        None => {
            return None;
        },
    };
    let n: usize = match StringView::detect_len(obj) {
        Some(n) => n,
        None => {
            return None;
        },
    };
    let obj_len: usize = obj.len();
    if n > obj_len {
        return None;
    }
    let tail_len: usize = field.tail_len();
    assert(off + n <= tail_len);
    Some(off + n)
}

impl<'a> MutableField<'a> for u32 {
    open spec fn spec_decodes(tail: Seq<u32>, width: nat) -> bool {
        cell_scalar::<u32>(tail, width) is Some
    }

    open spec fn spec_decoded(tail: Seq<u32>, width: nat, v: u32) -> bool {
        cell_scalar::<u32>(tail, width) == Some(v)
    }

    open spec fn spec_detected(tail: Seq<u32>, width: nat, d: Seq<u32>) -> bool {
        cell_raw(tail, width) == Some(d)
    }

    fn decode(field: FieldView<'a>) -> (r: Option<u32>)
        ensures
            r == field.spec_scalar::<u32>(),
    {
        field.scalar::<u32>()
    }

    open spec fn spec_detectable(tail: Seq<u32>, width: nat) -> bool {
        cell_raw(tail, width) is Some
    }

    fn detect(field: FieldView<'a>) -> (r: Option<&'a [u32]>)
        ensures
            match r {
                Some(w) => field.spec_raw_words() == Some(w@),
                None => field.spec_raw_words() is None,
            },
    {
        field.detect_scalar()
    }

    fn detect_end(field: FieldView<'a>) -> (r: Option<usize>) {
        scalar_detect_end(field)
    }

    fn folds_when_present() -> (r: bool)
        ensures
            !r,
    {
        false
    }

    fn is_empty_field(&self) -> (r: bool)
        ensures
            r == (*self == 0),
    {
        *self == 0
    }

    fn omits_default_after_encode() -> (r: bool)
        ensures
            !r,
    {
        false
    }

    open spec fn spec_changed(&self) -> bool {
        false
    }

    fn has_nested_dirty(&self) -> (r: bool) {
        false
    }

    open spec fn spec_encoded(&self, before: Seq<u32>, r: Result<Unit, MutableError>, after: Seq<u32>) -> bool {
        after == before && (r matches Ok(u) && u.spec_inline() == self.spec_to_words() && u.spec_segment()
            == (Segment { pos: 0, len: 0 }))
    }

    fn encode(&self, buffer: &mut Buffer) -> (r: Result<Unit, MutableError>)
        ensures
            final(buffer).content() == old(buffer).content(),
            r matches Ok(u) && u.spec_inline() == self.spec_to_words() && u.spec_segment() == (
            Segment { pos: 0, len: 0 }),
    {
        proof {
            lemma_keeps_written_refl(buffer.content());
        }
        Ok(serialize_scalar::<u32>(*self))
    }
}

impl<'a> MutableArrayElement<'a> for u32 {
    open spec fn spec_array_decodes(words: Seq<u32>) -> bool {
        spec_array_header(words) matches Some((len, width)) && width == u32::spec_width()
    }

    open spec fn spec_array_decoded(words: Seq<u32>, values: Seq<u32>) -> bool {
        spec_array_header(words) matches Some((len, width)) && width == u32::spec_width() && values
            == spec_scalars::<u32>(words.subrange(1, words.len() as int), len)
    }

    fn decode_array(words: &'a [u32]) -> (r: Option<Vec<u32>>)
        ensures
            match r {
                Some(v) => spec_array_header(words@) matches Some((len, width)) && width
                    == u32::spec_width() && v@ == spec_scalars::<u32>(
                    words@.subrange(1, words@.len() as int),
                    len,
                ),
                None => !(spec_array_header(words@) matches Some((len, width)) && width
                    == u32::spec_width()),
            },
    {
        decode_scalar_array::<u32>(words)
    }

    open spec fn spec_array_encoded(values: Seq<u32>, before: Seq<u32>, r: Result<Unit, MutableError>, after: Seq<u32>) -> bool {
        scalar_array_encoded::<u32>(values, before, r, after)
    }

    fn encode_array(values: &[u32], buffer: &mut Buffer) -> (r: Result<Unit, MutableError>) {
        encode_scalar_array::<u32>(values, buffer)
    }
}

impl<'a> MutableField<'a> for i32 {
    open spec fn spec_decodes(tail: Seq<u32>, width: nat) -> bool {
        cell_scalar::<i32>(tail, width) is Some
    }

    open spec fn spec_decoded(tail: Seq<u32>, width: nat, v: i32) -> bool {
        cell_scalar::<i32>(tail, width) == Some(v)
    }

    open spec fn spec_detected(tail: Seq<u32>, width: nat, d: Seq<u32>) -> bool {
        cell_raw(tail, width) == Some(d)
    }

    fn decode(field: FieldView<'a>) -> (r: Option<i32>)
        ensures
            r == field.spec_scalar::<i32>(),
    {
        field.scalar::<i32>()
    }

    open spec fn spec_detectable(tail: Seq<u32>, width: nat) -> bool {
        cell_raw(tail, width) is Some
    }

    fn detect(field: FieldView<'a>) -> (r: Option<&'a [u32]>)
        ensures
            match r {
                Some(w) => field.spec_raw_words() == Some(w@),
                None => field.spec_raw_words() is None,
            },
    {
        field.detect_scalar()
    }

    fn detect_end(field: FieldView<'a>) -> (r: Option<usize>) {
        scalar_detect_end(field)
    }

    fn folds_when_present() -> (r: bool)
        ensures
            !r,
    {
        false
    }

    fn is_empty_field(&self) -> (r: bool)
        ensures
            r == (*self == 0),
    {
        *self == 0
    }

    fn omits_default_after_encode() -> (r: bool)
        ensures
            !r,
    {
        false
    }

    open spec fn spec_changed(&self) -> bool {
        false
    }

    fn has_nested_dirty(&self) -> (r: bool) {
        false
    }

    open spec fn spec_encoded(&self, before: Seq<u32>, r: Result<Unit, MutableError>, after: Seq<u32>) -> bool {
        after == before && (r matches Ok(u) && u.spec_inline() == self.spec_to_words() && u.spec_segment()
            == (Segment { pos: 0, len: 0 }))
    }

    fn encode(&self, buffer: &mut Buffer) -> (r: Result<Unit, MutableError>)
        ensures
            final(buffer).content() == old(buffer).content(),
            r matches Ok(u) && u.spec_inline() == self.spec_to_words() && u.spec_segment() == (
            Segment { pos: 0, len: 0 }),
    {
        proof {
            lemma_keeps_written_refl(buffer.content());
        }
        Ok(serialize_scalar::<i32>(*self))
    }
}

impl<'a> MutableArrayElement<'a> for i32 {
    open spec fn spec_array_decodes(words: Seq<u32>) -> bool {
        spec_array_header(words) matches Some((len, width)) && width == i32::spec_width()
    }

    open spec fn spec_array_decoded(words: Seq<u32>, values: Seq<i32>) -> bool {
        spec_array_header(words) matches Some((len, width)) && width == i32::spec_width() && values
            == spec_scalars::<i32>(words.subrange(1, words.len() as int), len)
    }

    fn decode_array(words: &'a [u32]) -> (r: Option<Vec<i32>>)
        ensures
            match r {
                Some(v) => spec_array_header(words@) matches Some((len, width)) && width
                    == i32::spec_width() && v@ == spec_scalars::<i32>(
                    words@.subrange(1, words@.len() as int),
                    len,
                ),
                None => !(spec_array_header(words@) matches Some((len, width)) && width
                    == i32::spec_width()),
            },
    {
        decode_scalar_array::<i32>(words)
    }

    open spec fn spec_array_encoded(values: Seq<i32>, before: Seq<u32>, r: Result<Unit, MutableError>, after: Seq<u32>) -> bool {
        scalar_array_encoded::<i32>(values, before, r, after)
    }

    fn encode_array(values: &[i32], buffer: &mut Buffer) -> (r: Result<Unit, MutableError>) {
        encode_scalar_array::<i32>(values, buffer)
    }
}

impl<'a> MutableField<'a> for u64 {
    open spec fn spec_decodes(tail: Seq<u32>, width: nat) -> bool {
        cell_scalar::<u64>(tail, width) is Some
    }

    open spec fn spec_decoded(tail: Seq<u32>, width: nat, v: u64) -> bool {
        cell_scalar::<u64>(tail, width) == Some(v)
    }

    open spec fn spec_detected(tail: Seq<u32>, width: nat, d: Seq<u32>) -> bool {
        cell_raw(tail, width) == Some(d)
    }

    fn decode(field: FieldView<'a>) -> (r: Option<u64>)
        ensures
            r == field.spec_scalar::<u64>(),
    {
        field.scalar::<u64>()
    }

    open spec fn spec_detectable(tail: Seq<u32>, width: nat) -> bool {
        cell_raw(tail, width) is Some
    }

    fn detect(field: FieldView<'a>) -> (r: Option<&'a [u32]>)
        ensures
            match r {
                Some(w) => field.spec_raw_words() == Some(w@),
                None => field.spec_raw_words() is None,
            },
    {
        field.detect_scalar()
    }

    fn detect_end(field: FieldView<'a>) -> (r: Option<usize>) {
        scalar_detect_end(field)
    }

    fn folds_when_present() -> (r: bool)
        ensures
            !r,
    {
        false
    }

    fn is_empty_field(&self) -> (r: bool)
        ensures
            r == (*self == 0),
    {
        *self == 0
    }

    fn omits_default_after_encode() -> (r: bool)
        ensures
            !r,
    {
        false
    }

    open spec fn spec_changed(&self) -> bool {
        false
    }

    fn has_nested_dirty(&self) -> (r: bool) {
        false
    }

    open spec fn spec_encoded(&self, before: Seq<u32>, r: Result<Unit, MutableError>, after: Seq<u32>) -> bool {
        after == before && (r matches Ok(u) && u.spec_inline() == self.spec_to_words() && u.spec_segment()
            == (Segment { pos: 0, len: 0 }))
    }

    fn encode(&self, buffer: &mut Buffer) -> (r: Result<Unit, MutableError>)
        ensures
            final(buffer).content() == old(buffer).content(),
            r matches Ok(u) && u.spec_inline() == self.spec_to_words() && u.spec_segment() == (
            Segment { pos: 0, len: 0 }),
    {
        proof {
            lemma_keeps_written_refl(buffer.content());
        }
        Ok(serialize_scalar::<u64>(*self))
    }
}

impl<'a> MutableArrayElement<'a> for u64 {
    open spec fn spec_array_decodes(words: Seq<u32>) -> bool {
        spec_array_header(words) matches Some((len, width)) && width == u64::spec_width()
    }

    open spec fn spec_array_decoded(words: Seq<u32>, values: Seq<u64>) -> bool {
        spec_array_header(words) matches Some((len, width)) && width == u64::spec_width() && values
            == spec_scalars::<u64>(words.subrange(1, words.len() as int), len)
    }

    fn decode_array(words: &'a [u32]) -> (r: Option<Vec<u64>>)
        ensures
            match r {
                Some(v) => spec_array_header(words@) matches Some((len, width)) && width
                    == u64::spec_width() && v@ == spec_scalars::<u64>(
                    words@.subrange(1, words@.len() as int),
                    len,
                ),
                None => !(spec_array_header(words@) matches Some((len, width)) && width
                    == u64::spec_width()),
            },
    {
        decode_scalar_array::<u64>(words)
    }

    open spec fn spec_array_encoded(values: Seq<u64>, before: Seq<u32>, r: Result<Unit, MutableError>, after: Seq<u32>) -> bool {
        scalar_array_encoded::<u64>(values, before, r, after)
    }

    fn encode_array(values: &[u64], buffer: &mut Buffer) -> (r: Result<Unit, MutableError>) {
        encode_scalar_array::<u64>(values, buffer)
    }
}

impl<'a> MutableField<'a> for i64 {
    open spec fn spec_decodes(tail: Seq<u32>, width: nat) -> bool {
        cell_scalar::<i64>(tail, width) is Some
    }

    open spec fn spec_decoded(tail: Seq<u32>, width: nat, v: i64) -> bool {
        cell_scalar::<i64>(tail, width) == Some(v)
    }

    open spec fn spec_detected(tail: Seq<u32>, width: nat, d: Seq<u32>) -> bool {
        cell_raw(tail, width) == Some(d)
    }

    fn decode(field: FieldView<'a>) -> (r: Option<i64>)
        ensures
            r == field.spec_scalar::<i64>(),
    {
        field.scalar::<i64>()
    }

    open spec fn spec_detectable(tail: Seq<u32>, width: nat) -> bool {
        cell_raw(tail, width) is Some
    }

    fn detect(field: FieldView<'a>) -> (r: Option<&'a [u32]>)
        ensures
            match r {
                Some(w) => field.spec_raw_words() == Some(w@),
                None => field.spec_raw_words() is None,
            },
    {
        field.detect_scalar()
    }

    fn detect_end(field: FieldView<'a>) -> (r: Option<usize>) {
        scalar_detect_end(field)
    }

    fn folds_when_present() -> (r: bool)
        ensures
            !r,
    {
        false
    }

    fn is_empty_field(&self) -> (r: bool)
        ensures
            r == (*self == 0),
    {
        *self == 0
    }

    fn omits_default_after_encode() -> (r: bool)
        ensures
            !r,
    {
        false
    }

    open spec fn spec_changed(&self) -> bool {
        false
    }

    fn has_nested_dirty(&self) -> (r: bool) {
        false
    }

    open spec fn spec_encoded(&self, before: Seq<u32>, r: Result<Unit, MutableError>, after: Seq<u32>) -> bool {
        after == before && (r matches Ok(u) && u.spec_inline() == self.spec_to_words() && u.spec_segment()
            == (Segment { pos: 0, len: 0 }))
    }

    fn encode(&self, buffer: &mut Buffer) -> (r: Result<Unit, MutableError>)
        ensures
            final(buffer).content() == old(buffer).content(),
            r matches Ok(u) && u.spec_inline() == self.spec_to_words() && u.spec_segment() == (
            Segment { pos: 0, len: 0 }),
    {
        proof {
            lemma_keeps_written_refl(buffer.content());
        }
        Ok(serialize_scalar::<i64>(*self))
    }
}

impl<'a> MutableArrayElement<'a> for i64 {
    open spec fn spec_array_decodes(words: Seq<u32>) -> bool {
        spec_array_header(words) matches Some((len, width)) && width == i64::spec_width()
    }

    open spec fn spec_array_decoded(words: Seq<u32>, values: Seq<i64>) -> bool {
        spec_array_header(words) matches Some((len, width)) && width == i64::spec_width() && values
            == spec_scalars::<i64>(words.subrange(1, words.len() as int), len)
    }

    fn decode_array(words: &'a [u32]) -> (r: Option<Vec<i64>>)
        ensures
            match r {
                Some(v) => spec_array_header(words@) matches Some((len, width)) && width
                    == i64::spec_width() && v@ == spec_scalars::<i64>(
                    words@.subrange(1, words@.len() as int),
                    len,
                ),
                None => !(spec_array_header(words@) matches Some((len, width)) && width
                    == i64::spec_width()),
            },
    {
        decode_scalar_array::<i64>(words)
    }

    open spec fn spec_array_encoded(values: Seq<i64>, before: Seq<u32>, r: Result<Unit, MutableError>, after: Seq<u32>) -> bool {
        scalar_array_encoded::<i64>(values, before, r, after)
    }

    fn encode_array(values: &[i64], buffer: &mut Buffer) -> (r: Result<Unit, MutableError>) {
        encode_scalar_array::<i64>(values, buffer)
    }
}

impl<'a> MutableField<'a> for bool {
    open spec fn spec_decodes(tail: Seq<u32>, width: nat) -> bool {
        cell_scalar::<bool>(tail, width) is Some
    }

    open spec fn spec_decoded(tail: Seq<u32>, width: nat, v: bool) -> bool {
        cell_scalar::<bool>(tail, width) == Some(v)
    }

    open spec fn spec_detected(tail: Seq<u32>, width: nat, d: Seq<u32>) -> bool {
        cell_raw(tail, width) == Some(d)
    }

    fn decode(field: FieldView<'a>) -> (r: Option<bool>)
        ensures
            r == field.spec_scalar::<bool>(),
    {
        field.scalar::<bool>()
    }

    open spec fn spec_detectable(tail: Seq<u32>, width: nat) -> bool {
        cell_raw(tail, width) is Some
    }

    fn detect(field: FieldView<'a>) -> (r: Option<&'a [u32]>)
        ensures
            match r {
                Some(w) => field.spec_raw_words() == Some(w@),
                None => field.spec_raw_words() is None,
            },
    {
        field.detect_scalar()
    }

    fn detect_end(field: FieldView<'a>) -> (r: Option<usize>) {
        scalar_detect_end(field)
    }

    fn folds_when_present() -> (r: bool)
        ensures
            !r,
    {
        false
    }

    fn is_empty_field(&self) -> (r: bool)
        ensures
            r == !*self,
    {
        !*self
    }

    fn omits_default_after_encode() -> (r: bool)
        ensures
            !r,
    {
        false
    }

    open spec fn spec_changed(&self) -> bool {
        false
    }

    fn has_nested_dirty(&self) -> (r: bool) {
        false
    }

    open spec fn spec_encoded(&self, before: Seq<u32>, r: Result<Unit, MutableError>, after: Seq<u32>) -> bool {
        after == before && (r matches Ok(u) && u.spec_inline() == seq![if *self { 1u32 } else { 0u32 }]
            && u.spec_segment() == (Segment { pos: 0, len: 0 }))
    }

    fn encode(&self, buffer: &mut Buffer) -> (r: Result<Unit, MutableError>)
        ensures
            final(buffer).content() == old(buffer).content(),
            r matches Ok(u) && u.spec_inline() == seq![if *self { 1u32 } else { 0u32 }]
                && u.spec_segment() == (Segment { pos: 0, len: 0 }),
    {
        proof {
            lemma_keeps_written_refl(buffer.content());
        }
        Ok(serialize_bool(*self))
    }
}

impl<'a> MutableArrayElement<'a> for bool {
    open spec fn spec_array_decodes(words: Seq<u32>) -> bool {
        spec_string_bytes(words) is Some
    }

    open spec fn spec_array_decoded(words: Seq<u32>, values: Seq<bool>) -> bool {
        spec_string_bytes(words) matches Some(b) && values.len() == b.len() && forall|i: int|
            0 <= i < b.len() ==> #[trigger] values[i] == (b[i] != 0)
    }

    fn decode_array(words: &'a [u32]) -> (r: Option<Vec<bool>>)
        ensures
            match r {
                Some(v) => spec_string_bytes(words@) matches Some(b) && v@ == b.map_values(
                    |x: u8| x != 0,
                ),
                None => spec_string_bytes(words@) is None,
            },
    {
        let s = match StringView::new(words) {
            Some(s) => s,
            None => {
                return None;
            },
        };
        Some(s.as_bool_array().iter())
    }

    fn detect_array_len(words: &'a [u32]) -> (r: Option<usize>)
        ensures
            match spec_string_detect_len(words@) {
                Some(n) => if n <= words@.len() {
                    r == Some(n as usize)
                } else {
                    r is None
                },
                None => r is None,
            },
    {
        let n: usize = match StringView::detect_len(words) {
            Some(n) => n,
            None => {
                return None;
            },
        };
        if n > words.len() {
            return None;
        }
        Some(n)
    }

    open spec fn spec_array_encoded(values: Seq<bool>, before: Seq<u32>, r: Result<Unit, MutableError>, after: Seq<u32>) -> bool {
        values.len() < 0x4000_0000 && before.len() + values.len() / 4 + 3 <= usize::MAX ==> r is Ok
    }

    fn encode_array(values: &[bool], buffer: &mut Buffer) -> (r: Result<Unit, MutableError>)
        ensures
            values@.len() < 0x4000_0000 && old(buffer).content().len() + values@.len() / 4 + 3
                <= usize::MAX ==> r is Ok,
    {
        proof {
            lemma_keeps_written_refl(buffer.content());
        }
        let mut bytes: Vec<u8> = Vec::new();
        let mut i: usize = 0;
        while i < values.len()
            invariant
                i <= values@.len(),
                bytes@ == values@.subrange(0, i as int).map_values(|v: bool| if v { 1u8 } else { 0u8 }),
            decreases values@.len() - i,
        {
            bytes.push(if values[i] { 1u8 } else { 0u8 });
            i += 1;
            assert(bytes@ =~= values@.subrange(0, i as int).map_values(
                |v: bool| if v { 1u8 } else { 0u8 },
            ));
        }
        if buffer.len() > usize::MAX - (bytes.len() / 4 + 3) {
            return Err(serialize_failed("<array>", "<bool-array>"));
        }
        let ghost before = buffer.content();
        match serialize_bytes(bytes.as_slice(), buffer) {
            Some(u) => {
                proof {
                    let enc = crate::serialize::spec_encode_bytes(bytes@);
                    if enc.len() != 1 {
                        lemma_keeps_written_prepend(enc, before);
                    }
                }
                Ok(u)
            },
            None => Err(serialize_failed("<array>", "<bool-array>")),
        }
    }
}

/// Encodes values that each encode on their own as an array of their
/// units: the values are encoded last to first, then the array of their
/// units is put in front of the buffer. An empty array is the inline
/// header word `1`.
pub fn encode_object_array<'a, T: MutableField<'a>>(values: &[T], buffer: &mut Buffer) -> (r:
    Result<Unit, MutableError>)
    ensures
        keeps_written(old(buffer).content(), final(buffer).content()),
        values@.len() == 0 ==> final(buffer).content() == old(buffer).content() && (r matches Ok(
            u,
        ) && u.spec_inline() == seq![1u32] && u.spec_segment() == (Segment { pos: 0, len: 0 })),
{
    proof {
        lemma_keeps_written_refl(buffer.content());
    }
    let n: usize = values.len();
    if n == 0 {
        let one: [u32; 1] = [1u32];
        assert(one@ =~= seq![1u32]);
        return Ok(Unit::inline(one.as_slice()));
    }
    let last: usize = buffer.len();
    if last > usize::MAX - 0x4000_0001 {
        return Err(serialize_failed("<array>", "<encode>"));
    }
    let mut units: Vec<Unit> = Vec::new();
    let mut k: usize = 0;
    while k < n
        invariant
            k <= n,
            units@.len() == k,
        decreases n - k,
    {
        units.push(Unit::empty());
        k += 1;
    }
    let mut i: usize = n;
    while i > 0
        invariant
            i <= n,
            n == values@.len(),
            units@.len() == n,
            last == old(buffer).content().len(),
            last <= usize::MAX - 0x4000_0001,
            keeps_written(old(buffer).content(), buffer.content()),
        decreases i,
    {
        i -= 1;
        let ghost mid = buffer.content();
        let u: Unit = match values[i].encode(buffer) {
            Ok(u) => u,
            Err(e) => {
                proof {
                    lemma_keeps_written_trans(old(buffer).content(), mid, buffer.content());
                }
                return Err(e);
            },
        };
        proof {
            lemma_keeps_written_trans(old(buffer).content(), mid, buffer.content());
        }
        units.set(i, u);
    }
    let ghost mid = buffer.content();
    let ghost f = units@;
    match serialize_array_at(units.as_slice(), buffer, last) {
        Some(u) => {
            proof {
                let before = old(buffer).content();
                assert(mid.subrange(mid.len() - last, mid.len() as int) == before);
                lemma_keeps_written_prepend(crate::serialize::array_words(f, mid), before);
            }
            Ok(u)
        },
        None => Err(serialize_failed("<array>", "<encode>")),
    }
}

/// Encodes a byte string, refusing it when the buffer has no room left or
/// the string is `2^30` bytes or longer.
fn encode_bytes_checked(bytes: &[u8], buffer: &mut Buffer, what: &str) -> (r: Result<
    Unit,
    MutableError,
>)
    ensures
        keeps_written(old(buffer).content(), final(buffer).content()),
        old(buffer).content().len() + bytes@.len() / 4 + 3 <= usize::MAX ==> match r {
            Ok(u) => spec_serialize_bytes_result(
                bytes@,
                old(buffer).content(),
                Some(u),
                final(buffer).content(),
            ),
            Err(_) => spec_serialize_bytes_result(
                bytes@,
                old(buffer).content(),
                None,
                final(buffer).content(),
            ),
        },
{
    proof {
        lemma_keeps_written_refl(buffer.content());
    }
    if buffer.len() > usize::MAX - (bytes.len() / 4 + 3) {
        return Err(serialize_failed(what, "<encode>"));
    }
    let ghost before = buffer.content();
    match serialize_bytes(bytes, buffer) {
        Some(u) => {
            proof {
                let enc = crate::serialize::spec_encode_bytes(bytes@);
                if bytes@.len() < 0x4000_0000 && enc.len() != 1 {
                    lemma_keeps_written_prepend(enc, before);
                }
            }
            Ok(u)
        },
        None => Err(serialize_failed(what, "<encode>")),
    }
}

impl<'a> MutableField<'a> for String {
    open spec fn spec_detected(tail: Seq<u32>, width: nat, d: Seq<u32>) -> bool {
        cell_object(tail) matches Some(w) && spec_string_detect_len(w) matches Some(n) && n <= w.len() && d == w.subrange(0, n as int)
    }

    open spec fn spec_decoded(tail: Seq<u32>, width: nat, v: String) -> bool {
        cell_object(tail) matches Some(w) && spec_string_bytes(w) matches Some(b) && v@ == decode_utf8(b)
    }

    open spec fn spec_decodes(tail: Seq<u32>, width: nat) -> bool {
        cell_object(tail) matches Some(w) && spec_string_bytes(w) matches Some(b) && valid_utf8(b)
    }

    fn decode(field: FieldView<'a>) -> (r: Option<String>)
        ensures
            match r {
                Some(s) => field.spec_object_words() matches Some(w) && spec_string_bytes(w)
                    matches Some(b) && valid_utf8(b) && s@ == decode_utf8(b),
                None => !(field.spec_object_words() matches Some(w) && spec_string_bytes(w)
                    matches Some(b) && valid_utf8(b)),
            },
    {
        let s = match field.string() {
            Some(s) => s,
            None => {
                return None;
            },
        };
        s.as_str()
    }

    open spec fn spec_detectable(tail: Seq<u32>, width: nat) -> bool {
        cell_object(tail) matches Some(w) && spec_string_detect_len(w) matches Some(n) && n <= w.len()
    }

    fn detect(field: FieldView<'a>) -> (r: Option<&'a [u32]>)
        ensures
            match r {
                Some(d) => field.spec_object_words() matches Some(w) && spec_string_detect_len(w)
                    matches Some(n) && n <= w.len() && d@ == w.subrange(0, n as int),
                None => !(field.spec_object_words() matches Some(w) && spec_string_detect_len(w)
                    matches Some(n) && n <= w.len()),
            },
    {
        field.detect_string()
    }

    fn detect_end(field: FieldView<'a>) -> (r: Option<usize>) {
        string_detect_end(field)
    }

    fn is_empty_field(&self) -> (r: bool)
        ensures
            r == (self@.len() == 0),
    {
        self.as_str().is_empty()
    }

    fn omits_default_after_encode() -> (r: bool)
        ensures
            !r,
    {
        false
    }

    open spec fn spec_changed(&self) -> bool {
        false
    }

    fn has_nested_dirty(&self) -> (r: bool) {
        false
    }

    open spec fn spec_encoded(&self, before: Seq<u32>, r: Result<Unit, MutableError>, after: Seq<u32>) -> bool {
        before.len() + encode_utf8(self@).len() / 4 + 3 <= usize::MAX ==> match r {
            Ok(u) => spec_serialize_bytes_result(encode_utf8(self@), before, Some(u), after),
            Err(_) => spec_serialize_bytes_result(encode_utf8(self@), before, None, after),
        }
    }

    fn encode(&self, buffer: &mut Buffer) -> (r: Result<Unit, MutableError>)
        ensures
            old(buffer).content().len() + encode_utf8(self@).len() / 4 + 3 <= usize::MAX ==> match r {
                Ok(u) => spec_serialize_bytes_result(
                    encode_utf8(self@),
                    old(buffer).content(),
                    Some(u),
                    final(buffer).content(),
                ),
                Err(_) => spec_serialize_bytes_result(
                    encode_utf8(self@),
                    old(buffer).content(),
                    None,
                    final(buffer).content(),
                ),
            },
    {
        encode_bytes_checked(self.as_str().as_bytes(), buffer, "<string>")
    }
}

impl<'a> MutableArrayElement<'a> for String {
    open spec fn spec_array_decodes(words: Seq<u32>) -> bool {
        object_array_decodes::<Self>(words)
    }

    open spec fn spec_array_decoded(words: Seq<u32>, values: Seq<String>) -> bool {
        object_array_decoded::<String>(words, values)
    }

    fn decode_array(words: &'a [u32]) -> (r: Option<Vec<String>>) {
        decode_object_array::<String>(words)
    }

    open spec fn spec_array_encoded(values: Seq<String>, before: Seq<u32>, r: Result<Unit, MutableError>, after: Seq<u32>) -> bool {
        object_array_encoded(values, before, r, after)
    }

    fn encode_array(values: &[String], buffer: &mut Buffer) -> (r: Result<Unit, MutableError>) {
        encode_object_array(values, buffer)
    }
}

impl<'a> MutableField<'a> for Vec<u8> {
    open spec fn spec_detected(tail: Seq<u32>, width: nat, d: Seq<u32>) -> bool {
        cell_object(tail) matches Some(w) && spec_string_detect_len(w) matches Some(n) && n <= w.len() && d == w.subrange(0, n as int)
    }

    open spec fn spec_decoded(tail: Seq<u32>, width: nat, v: Vec<u8>) -> bool {
        cell_object(tail) matches Some(w) && spec_string_bytes(w) == Some(v@)
    }

    open spec fn spec_decodes(tail: Seq<u32>, width: nat) -> bool {
        cell_object(tail) matches Some(w) && spec_string_bytes(w) is Some
    }

    fn decode(field: FieldView<'a>) -> (r: Option<Vec<u8>>)
        ensures
            match r {
                Some(b) => field.spec_object_words() matches Some(w) && spec_string_bytes(w)
                    == Some(b@),
                None => !(field.spec_object_words() matches Some(w) && spec_string_bytes(w) is Some),
            },
    {
        match field.string() {
            Some(s) => Some(s.as_bytes()),
            None => None,
        }
    }

    open spec fn spec_detectable(tail: Seq<u32>, width: nat) -> bool {
        cell_object(tail) matches Some(w) && spec_string_detect_len(w) matches Some(n) && n <= w.len()
    }

    fn detect(field: FieldView<'a>) -> (r: Option<&'a [u32]>)
        ensures
            match r {
                Some(d) => field.spec_object_words() matches Some(w) && spec_string_detect_len(w)
                    matches Some(n) && n <= w.len() && d@ == w.subrange(0, n as int),
                None => !(field.spec_object_words() matches Some(w) && spec_string_detect_len(w)
                    matches Some(n) && n <= w.len()),
            },
    {
        field.detect_string()
    }

    fn detect_end(field: FieldView<'a>) -> (r: Option<usize>) {
        string_detect_end(field)
    }

    fn is_empty_field(&self) -> (r: bool)
        ensures
            r == (self@.len() == 0),
    {
        self.len() == 0
    }

    fn omits_default_after_encode() -> (r: bool)
        ensures
            !r,
    {
        false
    }

    open spec fn spec_changed(&self) -> bool {
        false
    }

    fn has_nested_dirty(&self) -> (r: bool) {
        false
    }

    open spec fn spec_encoded(&self, before: Seq<u32>, r: Result<Unit, MutableError>, after: Seq<u32>) -> bool {
        before.len() + self@.len() / 4 + 3 <= usize::MAX ==> match r {
            Ok(u) => spec_serialize_bytes_result(self@, before, Some(u), after),
            Err(_) => spec_serialize_bytes_result(self@, before, None, after),
        }
    }

    fn encode(&self, buffer: &mut Buffer) -> (r: Result<Unit, MutableError>)
        ensures
            old(buffer).content().len() + self@.len() / 4 + 3 <= usize::MAX ==> match r {
                Ok(u) => spec_serialize_bytes_result(
                    self@,
                    old(buffer).content(),
                    Some(u),
                    final(buffer).content(),
                ),
                Err(_) => spec_serialize_bytes_result(
                    self@,
                    old(buffer).content(),
                    None,
                    final(buffer).content(),
                ),
            },
    {
        encode_bytes_checked(self.as_slice(), buffer, "<bytes>")
    }
}

impl<'a> MutableArrayElement<'a> for Vec<u8> {
    open spec fn spec_array_decodes(words: Seq<u32>) -> bool {
        object_array_decodes::<Self>(words)
    }

    open spec fn spec_array_decoded(words: Seq<u32>, values: Seq<Vec<u8>>) -> bool {
        object_array_decoded::<Vec<u8>>(words, values)
    }

    fn decode_array(words: &'a [u32]) -> (r: Option<Vec<Vec<u8>>>) {
        decode_object_array::<Vec<u8>>(words)
    }

    open spec fn spec_array_encoded(values: Seq<Vec<u8>>, before: Seq<u32>, r: Result<Unit, MutableError>, after: Seq<u32>) -> bool {
        object_array_encoded(values, before, r, after)
    }

    fn encode_array(values: &[Vec<u8>], buffer: &mut Buffer) -> (r: Result<Unit, MutableError>) {
        encode_object_array(values, buffer)
    }
}

/// An owned array of values with a flag that records changes.
#[derive(Debug)]
pub struct MutableArray<'a, T> {
    values: Vec<T>,
    dirty: bool,
    _marker: core::marker::PhantomData<&'a ()>,
}

impl<'a, T> View for MutableArray<'a, T> {
    type V = Seq<T>;

    closed spec fn view(&self) -> Seq<T> {
        self.values@
    }
}

impl<'a, T: Clone> Clone for MutableArray<'a, T> {
    fn clone(&self) -> (r: Self) {
        MutableArray {
            values: self.values.clone(),
            dirty: self.dirty,
            _marker: core::marker::PhantomData,
        }
    }
}

impl<'a, T> Default for MutableArray<'a, T> {
    fn default() -> (r: Self)
        ensures
            r@ == Seq::<T>::empty(),
            !r.spec_dirty(),
    {
        MutableArray { values: Vec::new(), dirty: false, _marker: core::marker::PhantomData }
    }
}

impl<'a, T> From<Vec<T>> for MutableArray<'a, T> {
    fn from(values: Vec<T>) -> (r: Self)
        ensures
            r@ == values@,
            !r.spec_dirty(),
    {
        MutableArray { values, dirty: false, _marker: core::marker::PhantomData }
    }
}

impl<'a, T> vstd::std_specs::convert::FromSpecImpl<Vec<T>> for MutableArray<'a, T> {
    open spec fn obeys_from_spec() -> bool {
        true
    }

    closed spec fn from_spec(v: Vec<T>) -> Self {
        MutableArray { values: v, dirty: false, _marker: core::marker::PhantomData }
    }
}

impl<'a, T> MutableArray<'a, T> {
    /// Whether the array itself was changed since it was made or read.
    pub closed spec fn spec_dirty(&self) -> bool {
        self.dirty
    }

    /// An empty array with no change recorded.
    pub fn new() -> (r: Self)
        ensures
            r@ == Seq::<T>::empty(),
            !r.spec_dirty(),
    {
        MutableArray { values: Vec::new(), dirty: false, _marker: core::marker::PhantomData }
    }

    /// An array of `values` with no change recorded.
    pub fn from_vec(values: Vec<T>) -> (r: Self)
        ensures
            r@ == values@,
            !r.spec_dirty(),
    {
        MutableArray { values, dirty: false, _marker: core::marker::PhantomData }
    }

    /// Number of values.
    pub fn len(&self) -> (r: usize)
        ensures
            r == self@.len(),
    {
        self.values.len()
    }

    /// Whether there are no values.
    pub fn is_empty(&self) -> (r: bool)
        ensures
            r == (self@.len() == 0),
    {
        self.values.len() == 0
    }

    /// Removes all values and records a change.
    pub fn clear(&mut self)
        ensures
            final(self)@ == Seq::<T>::empty(),
            final(self).spec_dirty(),
    {
        self.dirty = true;
        self.values.clear();
    }

    /// Reserves room for `additional` more values.
    pub fn reserve(&mut self, additional: usize)
        ensures
            final(self)@ == old(self)@,
            final(self).spec_dirty() == old(self).spec_dirty(),
    {
        self.values.reserve(additional);
    }

    /// Appends a value and records a change.
    pub fn push(&mut self, value: T)
        ensures
            final(self)@ == old(self)@.push(value),
            final(self).spec_dirty(),
    {
        self.dirty = true;
        self.values.push(value);
    }

    /// The values.
    pub fn as_slice(&self) -> (r: &[T])
        ensures
            r@ == self@,
    {
        self.values.as_slice()
    }

    /// The values, for changing in place; a change is recorded.
    pub fn as_mut_slice(&mut self) -> (r: &mut [T])
        ensures
            r@ == old(self)@,
            final(self)@ == final(r)@,
            final(self).spec_dirty(),
    {
        self.dirty = true;
        self.values.as_mut_slice()
    }

    /// The values, in order.
    pub fn iter(&self) -> (r: &[T])
        ensures
            r@ == self@,
    {
        self.values.as_slice()
    }

    /// The values in order, for changing in place; a change is recorded.
    pub fn iter_mut(&mut self) -> (r: &mut [T])
        ensures
            r@ == old(self)@,
            final(self)@ == final(r)@,
            final(self).spec_dirty(),
    {
        self.dirty = true;
        self.values.as_mut_slice()
    }

    /// Value `index`, when there is one.
    pub fn get(&self, index: usize) -> (r: Option<&T>)
        ensures
            index < self@.len() ==> r == Some(&self@[index as int]),
            index >= self@.len() ==> r is None,
    {
        if index < self.values.len() {
            Some(&self.values[index])
        } else {
            None
        }
    }

    /// Replaces value `index`, which must exist, and records a change.
    pub fn set(&mut self, index: usize, value: T)
        requires
            index < old(self)@.len(),
        ensures
            final(self)@ == old(self)@.update(index as int, value),
            final(self).spec_dirty(),
    {
        self.dirty = true;
        self.values.set(index, value);
    }
}

impl<'a, T: MutableArrayElement<'a>> MutableArray<'a, T> {
    /// Reads all elements of the array that starts `words`.
    pub fn from_words(words: &'a [u32]) -> (r: Option<Self>)
        ensures
            r matches Some(a) ==> !a.spec_dirty() && T::spec_array_decoded(words@, a@),
            r is Some == T::spec_array_decodes(words@),
    {
        match T::decode_array(words) {
            Some(values) => Some(MutableArray { values, dirty: false, _marker: core::marker::PhantomData }),
            None => None,
        }
    }

    /// Encodes the array, putting its words in front of `buffer`.
    pub fn encode_to_unit(&self, buffer: &mut Buffer) -> (r: Result<Unit, MutableError>)
        ensures
            keeps_written(old(buffer).content(), final(buffer).content()),
            T::spec_array_encoded(self@, old(buffer).content(), r, final(buffer).content()),
    {
        T::encode_array(self.values.as_slice(), buffer)
    }
}

impl<'a, T: MutableArrayElement<'a>> MutableField<'a> for MutableArray<'a, T> {
    open spec fn spec_detected(tail: Seq<u32>, width: nat, d: Seq<u32>) -> bool {
        cell_object(tail) matches Some(w) && d.len() <= w.len() && d == w.subrange(0, d.len() as int)
    }

    open spec fn spec_decoded(tail: Seq<u32>, width: nat, v: Self) -> bool {
        !v.spec_dirty() && (cell_object(tail) matches Some(w) && T::spec_array_decoded(w, v@))
    }

    open spec fn spec_decodes(tail: Seq<u32>, width: nat) -> bool {
        cell_object(tail) matches Some(w) && T::spec_array_decodes(w)
    }

    fn decode(field: FieldView<'a>) -> (r: Option<Self>) {
        match field.object_words() {
            Some(w) => Self::from_words(w),
            None => None,
        }
    }

    open spec fn spec_detectable(tail: Seq<u32>, width: nat) -> bool {
        false
    }

    fn detect(field: FieldView<'a>) -> (r: Option<&'a [u32]>) {
        let off: usize = match field.object_offset() {
            Some(o) => o,
            None => {
                return None;
            },
        };
        let end: usize = match nested_array_end::<T>(field) {
            Some(e) => e,
            None => {
                return None;
            },
        };
        let obj: &'a [u32] = match field.object_words() {
            Some(w) => w,
            None => {
                return None;
            },
        };
        if end < off {
            return None;
        }
        Some(slice_prefix(obj, end - off))
    }

    fn detect_end(field: FieldView<'a>) -> (r: Option<usize>) {
        nested_array_end::<T>(field)
    }

    fn folds_when_present() -> (r: bool) {
        true
    }

    fn is_empty_field(&self) -> (r: bool)
        ensures
            r == (self@.len() == 0),
    {
        self.values.len() == 0
    }

    fn omits_default_after_encode() -> (r: bool)
        ensures
            !r,
    {
        false
    }

    open spec fn spec_changed(&self) -> bool {
        self.spec_dirty() || exists|i: int| 0 <= i < self@.len() && self@[i].spec_changed()
    }

    fn is_dirty(&self) -> (r: bool)
        ensures
            r == self.spec_changed(),
    {
        self.has_nested_dirty()
    }

    fn has_nested_dirty(&self) -> (r: bool) {
        if self.dirty {
            return true;
        }
        let mut i: usize = 0;
        while i < self.values.len()
            invariant
                i <= self.values@.len(),
                forall|j: int| 0 <= j < i ==> !self.values@[j].spec_changed(),
            decreases self.values@.len() - i,
        {
            if self.values[i].has_nested_dirty() {
                assert(self@[i as int].spec_changed());
                return true;
            }
            i += 1;
        }
        false
    }

    open spec fn spec_encoded(&self, before: Seq<u32>, r: Result<Unit, MutableError>, after: Seq<u32>) -> bool {
        T::spec_array_encoded(self@, before, r, after)
    }

    fn encode(&self, buffer: &mut Buffer) -> (r: Result<Unit, MutableError>) {
        self.encode_to_unit(buffer)
    }
}

impl<'a, T: MutableArrayElement<'a>> MutableArrayElement<'a> for MutableArray<'a, T> {
    open spec fn spec_array_decodes(words: Seq<u32>) -> bool {
        object_array_decodes::<Self>(words)
    }

    open spec fn spec_array_decoded(words: Seq<u32>, values: Seq<Self>) -> bool {
        object_array_decoded::<Self>(words, values)
    }

    fn decode_array(words: &'a [u32]) -> (r: Option<Vec<Self>>) {
        decode_object_array::<Self>(words)
    }

    fn detect_array_end(field: FieldView<'a>) -> (r: Option<usize>) {
        nested_array_end::<T>(field)
    }

    open spec fn spec_array_encoded(values: Seq<Self>, before: Seq<u32>, r: Result<Unit, MutableError>, after: Seq<u32>) -> bool {
        object_array_encoded(values, before, r, after)
    }

    fn encode_array(values: &[Self], buffer: &mut Buffer) -> (r: Result<Unit, MutableError>) {
        encode_object_array(values, buffer)
    }
}

/// Where a field holding an array of `T` ends, counted from its cell: the
/// array's extent, or else what `T` makes of the field.
fn nested_array_end<'a, T: MutableArrayElement<'a>>(field: FieldView<'a>) -> (r: Option<usize>)
    ensures
        r matches Some(e) ==> e <= field.spec_tail().len(),
{
    let off: usize = match field.object_offset() {
        Some(o) => o,
        None => {
            return T::detect_array_end(field);
        },
    };
    let obj: &'a [u32] = match field.object_words() {
        Some(w) => w,
        None => {
            return T::detect_array_end(field);
        },
    };
    match array_extent::<T>(obj) {
        Some(n) => {
            let obj_len: usize = obj.len();
            let tail_len: usize = field.tail_len();
            assert(off + n <= tail_len);
            Some(off + n)
        },
        None => T::detect_array_end(field),
    }
}

/// The words from the cell of element `i` of an array of cells `w` words
/// wide to the end of the array's words.
pub open spec fn array_item_tail(words: Seq<u32>, w: nat, i: int) -> Seq<u32> {
    words.subrange(1 + i * w, words.len() as int)
}

/// Whether the array that starts `words` has a header and every element
/// reads as a value of `T`.
/// Whether `values` are the elements read one by one from the array that
/// starts `words`.
pub open spec fn object_array_decoded<'a, T: MutableField<'a>>(words: Seq<u32>, values: Seq<T>) -> bool {
    match spec_array_header(words) {
        Some((n, w)) => values.len() == n && forall|i: int|
            0 <= i < n ==> #[trigger] T::spec_decoded(array_item_tail(words, w, i), w, values[i]),
        None => false,
    }
}

pub open spec fn object_array_decodes<'a, T: MutableField<'a>>(words: Seq<u32>) -> bool {
    match spec_array_header(words) {
        Some((n, w)) => forall|i: int|
            0 <= i < n ==> #[trigger] T::spec_decodes(array_item_tail(words, w, i), w),
        None => false,
    }
}

/// Whether pair `i` of the map that starts `words` has a key that reads as
/// a `K` and a value that reads as a `V`.
pub open spec fn pair_decodes<'a, K: MutableMapKey<'a>, V: MutableField<'a>>(words: Seq<u32>, i: int) -> bool {
    let (n, kw, vw, off) = spec_map_layout(words).unwrap();
    let t = spec_pair_tail(words, i as nat);
    K::spec_key_decodes(t, kw) && V::spec_decodes(t.subrange(kw as int, t.len() as int), vw)
}

/// Whether `pairs` are the keys and values read, pair by pair, from the map
/// that starts `words`.
pub open spec fn map_pairs_decoded<'a, K: MutableMapKey<'a>, V: MutableField<'a>>(words: Seq<u32>, pairs: Seq<(K, V)>) -> bool {
    match spec_map_layout(words) {
        Some((n, kw, vw, off)) => pairs.len() == n && forall|i: int|
            0 <= i < n ==> #[trigger] pair_decoded::<K, V>(words, i, pairs[i]),
        None => false,
    }
}

/// Whether pair `i` of the map that starts `words` reads as `pair`.
pub open spec fn pair_decoded<'a, K: MutableMapKey<'a>, V: MutableField<'a>>(words: Seq<u32>, i: int, pair: (K, V)) -> bool {
    let (n, kw, vw, off) = spec_map_layout(words).unwrap();
    let t = spec_pair_tail(words, i as nat);
    K::spec_key_decoded(t, kw, pair.0) && V::spec_decoded(t.subrange(kw as int, t.len() as int), vw, pair.1)
}

/// Whether the map that starts `words` has a layout and every pair reads.
pub open spec fn map_pairs_decode<'a, K: MutableMapKey<'a>, V: MutableField<'a>>(words: Seq<u32>) -> bool {
    match spec_map_layout(words) {
        Some((n, kw, vw, off)) => forall|i: int| 0 <= i < n ==> #[trigger] pair_decodes::<K, V>(words, i),
        None => false,
    }
}

/// Reads every element of the array that starts `words` as a value of its
/// own.
fn decode_object_array<'a, T: MutableField<'a>>(words: &'a [u32]) -> (r: Option<Vec<T>>)
    ensures
        r matches Some(v) ==> spec_array_header(words@) matches Some((len, width)) && v@.len()
            == len,
        r matches Some(v) ==> object_array_decoded::<T>(words@, v@),
        r is Some == object_array_decodes::<T>(words@),
{
    let array = match ArrayView::new(words) {
        Some(a) => a,
        None => {
            return None;
        },
    };
    let n: usize = array.len();
    let mut values: Vec<T> = Vec::new();
    let mut i: usize = 0;
    while i < n
        invariant
            i <= n,
            n == array.spec_header().0,
            array@ == words@,
            values@.len() == i,
            forall|j: int| 0 <= j < i ==> #[trigger] T::spec_decodes(
                array_item_tail(words@, array.spec_header().1, j),
                array.spec_header().1,
            ),
            forall|j: int| 0 <= j < i ==> #[trigger] T::spec_decoded(
                array_item_tail(words@, array.spec_header().1, j),
                array.spec_header().1,
                values@[j],
            ),
        decreases n - i,
    {
        let item = array.expect_field(i);
        let ghost prev = values@;
        assert(item.spec_tail() == array_item_tail(words@, array.spec_header().1, i as int));
        match T::decode(item) {
            Some(v) => {
                values.push(v);
                assert forall|j: int| 0 <= j < i + 1 implies #[trigger] T::spec_decoded(
                    array_item_tail(words@, array.spec_header().1, j),
                    array.spec_header().1,
                    values@[j],
                ) by {
                    if j < i {
                        assert(values@[j] == prev[j]);
                    }
                }
            },
            None => {
                assert(!T::spec_decodes(array_item_tail(words@, array.spec_header().1, i as int), array.spec_header().1));
                return None;
            },
        }
        i += 1;
    }
    Some(values)
}

/// A map key: how it is read from and written to a key cell, and the
/// bytes the map's index hashes for it. Two keys are the same key when
/// their bytes are equal.
pub trait MutableMapKey<'a>: Sized {
    /// The bytes the map's index hashes for the key.
    spec fn spec_key_bytes(&self) -> Seq<u8>;

    /// Whether the key cell that starts `tail`, `width` words wide, reads
    /// as a key of this type.
    spec fn spec_key_decodes(tail: Seq<u32>, width: nat) -> bool;

    /// Whether `k` is the key read from the key cell that starts `tail`,
    /// `width` words wide.
    spec fn spec_key_decoded(tail: Seq<u32>, width: nat, k: Self) -> bool;

    /// Reads a key from a key field.
    fn decode_key(field: FieldView<'a>) -> (r: Option<Self>)
        ensures
            r is Some == Self::spec_key_decodes(field.spec_tail(), field.spec_width()),
            r matches Some(k) ==> Self::spec_key_decoded(field.spec_tail(), field.spec_width(), k),
    ;

    /// The encoded words of a key field's key.
    fn detect_key(field: FieldView<'a>) -> Option<&'a [u32]>;

    /// Number of words from the key cell to the end of all the words the
    /// key's encoding spans.
    fn detect_key_end(field: FieldView<'a>) -> (r: Option<usize>)
        ensures
            r matches Some(e) ==> e <= field.spec_tail().len(),
    ;

    /// Encodes the key, putting what does not fit its cell in front of
    /// `buffer`.
    fn encode_key(&self, buffer: &mut Buffer) -> (r: Result<Unit, MutableError>)
        ensures
            keeps_written(old(buffer).content(), final(buffer).content()),
    ;

    /// The wire-level representation of such keys.
    fn key_kind() -> MutableMapKeyKind;

    /// The bytes the map's index hashes for the key.
    fn key_bytes(&self) -> (r: Vec<u8>)
        ensures
            r@ == self.spec_key_bytes(),
    ;
}

impl<'a> MutableMapKey<'a> for i32 {
    open spec fn spec_key_decodes(tail: Seq<u32>, width: nat) -> bool {
        cell_scalar::<i32>(tail, width) is Some
    }

    open spec fn spec_key_bytes(&self) -> Seq<u8> {
        MapKey::spec_key_bytes(self)
    }

    open spec fn spec_key_decoded(tail: Seq<u32>, width: nat, k: i32) -> bool {
        cell_scalar::<i32>(tail, width) == Some(k)
    }

    fn decode_key(field: FieldView<'a>) -> (r: Option<i32>)
        ensures
            r == field.spec_scalar::<i32>(),
    {
        field.scalar::<i32>()
    }

    fn detect_key(field: FieldView<'a>) -> (r: Option<&'a [u32]>)
        ensures
            match r {
                Some(w) => field.spec_raw_words() == Some(w@),
                None => field.spec_raw_words() is None,
            },
    {
        field.detect_scalar()
    }

    fn detect_key_end(field: FieldView<'a>) -> (r: Option<usize>) {
        scalar_detect_end(field)
    }

    fn encode_key(&self, buffer: &mut Buffer) -> (r: Result<Unit, MutableError>)
        ensures
            final(buffer).content() == old(buffer).content(),
            r matches Ok(u) && u.spec_inline() == self.spec_to_words() && u.spec_segment() == (
            Segment { pos: 0, len: 0 }),
    {
        proof {
            lemma_keeps_written_refl(buffer.content());
        }
        Ok(serialize_scalar::<i32>(*self))
    }

    fn key_kind() -> (r: MutableMapKeyKind)
        ensures
            r == MutableMapKeyKind::I32,
    {
        MutableMapKeyKind::I32
    }

    fn key_bytes(&self) -> (r: Vec<u8>) {
        self.as_key_bytes()
    }
}

impl<'a> MutableMapKey<'a> for u32 {
    open spec fn spec_key_decodes(tail: Seq<u32>, width: nat) -> bool {
        cell_scalar::<u32>(tail, width) is Some
    }

    open spec fn spec_key_bytes(&self) -> Seq<u8> {
        MapKey::spec_key_bytes(self)
    }

    open spec fn spec_key_decoded(tail: Seq<u32>, width: nat, k: u32) -> bool {
        cell_scalar::<u32>(tail, width) == Some(k)
    }

    fn decode_key(field: FieldView<'a>) -> (r: Option<u32>)
        ensures
            r == field.spec_scalar::<u32>(),
    {
        field.scalar::<u32>()
    }

    fn detect_key(field: FieldView<'a>) -> (r: Option<&'a [u32]>)
        ensures
            match r {
                Some(w) => field.spec_raw_words() == Some(w@),
                None => field.spec_raw_words() is None,
            },
    {
        field.detect_scalar()
    }

    fn detect_key_end(field: FieldView<'a>) -> (r: Option<usize>) {
        scalar_detect_end(field)
    }

    fn encode_key(&self, buffer: &mut Buffer) -> (r: Result<Unit, MutableError>)
        ensures
            final(buffer).content() == old(buffer).content(),
            r matches Ok(u) && u.spec_inline() == self.spec_to_words() && u.spec_segment() == (
            Segment { pos: 0, len: 0 }),
    {
        proof {
            lemma_keeps_written_refl(buffer.content());
        }
        Ok(serialize_scalar::<u32>(*self))
    }

    fn key_kind() -> (r: MutableMapKeyKind)
        ensures
            r == MutableMapKeyKind::U32,
    {
        MutableMapKeyKind::U32
    }

    fn key_bytes(&self) -> (r: Vec<u8>) {
        self.as_key_bytes()
    }
}

impl<'a> MutableMapKey<'a> for i64 {
    open spec fn spec_key_decodes(tail: Seq<u32>, width: nat) -> bool {
        cell_scalar::<i64>(tail, width) is Some
    }

    open spec fn spec_key_bytes(&self) -> Seq<u8> {
        MapKey::spec_key_bytes(self)
    }

    open spec fn spec_key_decoded(tail: Seq<u32>, width: nat, k: i64) -> bool {
        cell_scalar::<i64>(tail, width) == Some(k)
    }

    fn decode_key(field: FieldView<'a>) -> (r: Option<i64>)
        ensures
            r == field.spec_scalar::<i64>(),
    {
        field.scalar::<i64>()
    }

    fn detect_key(field: FieldView<'a>) -> (r: Option<&'a [u32]>)
        ensures
            match r {
                Some(w) => field.spec_raw_words() == Some(w@),
                None => field.spec_raw_words() is None,
            },
    {
        field.detect_scalar()
    }

    fn detect_key_end(field: FieldView<'a>) -> (r: Option<usize>) {
        scalar_detect_end(field)
    }

    fn encode_key(&self, buffer: &mut Buffer) -> (r: Result<Unit, MutableError>)
        ensures
            final(buffer).content() == old(buffer).content(),
            r matches Ok(u) && u.spec_inline() == self.spec_to_words() && u.spec_segment() == (
            Segment { pos: 0, len: 0 }),
    {
        proof {
            lemma_keeps_written_refl(buffer.content());
        }
        Ok(serialize_scalar::<i64>(*self))
    }

    fn key_kind() -> (r: MutableMapKeyKind)
        ensures
            r == MutableMapKeyKind::I64,
    {
        MutableMapKeyKind::I64
    }

    fn key_bytes(&self) -> (r: Vec<u8>) {
        self.as_key_bytes()
    }
}

impl<'a> MutableMapKey<'a> for u64 {
    open spec fn spec_key_decodes(tail: Seq<u32>, width: nat) -> bool {
        cell_scalar::<u64>(tail, width) is Some
    }

    open spec fn spec_key_bytes(&self) -> Seq<u8> {
        MapKey::spec_key_bytes(self)
    }

    open spec fn spec_key_decoded(tail: Seq<u32>, width: nat, k: u64) -> bool {
        cell_scalar::<u64>(tail, width) == Some(k)
    }

    fn decode_key(field: FieldView<'a>) -> (r: Option<u64>)
        ensures
            r == field.spec_scalar::<u64>(),
    {
        field.scalar::<u64>()
    }

    fn detect_key(field: FieldView<'a>) -> (r: Option<&'a [u32]>)
        ensures
            match r {
                Some(w) => field.spec_raw_words() == Some(w@),
                None => field.spec_raw_words() is None,
            },
    {
        field.detect_scalar()
    }

    fn detect_key_end(field: FieldView<'a>) -> (r: Option<usize>) {
        scalar_detect_end(field)
    }

    fn encode_key(&self, buffer: &mut Buffer) -> (r: Result<Unit, MutableError>)
        ensures
            final(buffer).content() == old(buffer).content(),
            r matches Ok(u) && u.spec_inline() == self.spec_to_words() && u.spec_segment() == (
            Segment { pos: 0, len: 0 }),
    {
        proof {
            lemma_keeps_written_refl(buffer.content());
        }
        Ok(serialize_scalar::<u64>(*self))
    }

    fn key_kind() -> (r: MutableMapKeyKind)
        ensures
            r == MutableMapKeyKind::U64,
    {
        MutableMapKeyKind::U64
    }

    fn key_bytes(&self) -> (r: Vec<u8>) {
        self.as_key_bytes()
    }
}

impl<'a> MutableMapKey<'a> for String {
    open spec fn spec_key_decodes(tail: Seq<u32>, width: nat) -> bool {
        cell_object(tail) matches Some(w) && spec_string_bytes(w) matches Some(b) && valid_utf8(b)
    }

    open spec fn spec_key_bytes(&self) -> Seq<u8> {
        encode_utf8(self@)
    }

    open spec fn spec_key_decoded(tail: Seq<u32>, width: nat, k: String) -> bool {
        cell_object(tail) matches Some(w) && spec_string_bytes(w) matches Some(b) && k@ == decode_utf8(b)
    }

    fn decode_key(field: FieldView<'a>) -> (r: Option<String>)
        ensures
            match r {
                Some(s) => field.spec_object_words() matches Some(w) && spec_string_bytes(w)
                    matches Some(b) && valid_utf8(b) && s@ == decode_utf8(b),
                None => !(field.spec_object_words() matches Some(w) && spec_string_bytes(w)
                    matches Some(b) && valid_utf8(b)),
            },
    {
        let s = match field.string() {
            Some(s) => s,
            None => {
                return None;
            },
        };
        s.as_str()
    }

    fn detect_key(field: FieldView<'a>) -> (r: Option<&'a [u32]>) {
        field.detect_string()
    }

    fn detect_key_end(field: FieldView<'a>) -> (r: Option<usize>) {
        string_detect_end(field)
    }

    fn encode_key(&self, buffer: &mut Buffer) -> (r: Result<Unit, MutableError>)
        ensures
            old(buffer).content().len() + encode_utf8(self@).len() / 4 + 3 <= usize::MAX ==> match r {
                Ok(u) => spec_serialize_bytes_result(
                    encode_utf8(self@),
                    old(buffer).content(),
                    Some(u),
                    final(buffer).content(),
                ),
                Err(_) => spec_serialize_bytes_result(
                    encode_utf8(self@),
                    old(buffer).content(),
                    None,
                    final(buffer).content(),
                ),
            },
    {
        encode_bytes_checked(self.as_str().as_bytes(), buffer, "<map>")
    }

    fn key_kind() -> (r: MutableMapKeyKind)
        ensures
            r == MutableMapKeyKind::String,
    {
        MutableMapKeyKind::String
    }

    fn key_bytes(&self) -> (r: Vec<u8>) {
        let b: &[u8] = self.as_str().as_bytes();
        vstd::slice::slice_to_vec(b)
    }
}

/// Whether two byte strings are equal.
fn bytes_eq(a: &[u8], b: &[u8]) -> (r: bool)
    ensures
        r == (a@ == b@),
{
    if a.len() != b.len() {
        return false;
    }
    let mut i: usize = 0;
    while i < a.len()
        invariant
            a@.len() == b@.len(),
            i <= a@.len(),
            a@.subrange(0, i as int) == b@.subrange(0, i as int),
        decreases a@.len() - i,
    {
        if a[i] != b[i] {
            return false;
        }
        i += 1;
        assert(a@.subrange(0, i as int) =~= b@.subrange(0, i as int));
    }
    assert(a@ =~= a@.subrange(0, a@.len() as int));
    assert(b@ =~= b@.subrange(0, b@.len() as int));
    true
}

/// Whether no two keys have the same bytes.
pub open spec fn keys_distinct<'a, K: MutableMapKey<'a>>(keys: Seq<K>) -> bool {
    forall|i: int, j: int|
        0 <= i < keys.len() && 0 <= j < keys.len() && i != j ==> (#[trigger] keys[i]).spec_key_bytes()
            != (#[trigger] keys[j]).spec_key_bytes()
}

/// Where the key with bytes `k` stands, when there is one.
pub open spec fn key_position<'a, K: MutableMapKey<'a>>(keys: Seq<K>, k: Seq<u8>) -> Option<int> {
    if exists|i: int| 0 <= i < keys.len() && (#[trigger] keys[i]).spec_key_bytes() == k {
        Some(choose|i: int| 0 <= i < keys.len() && (#[trigger] keys[i]).spec_key_bytes() == k)
    } else {
        None
    }
}

/// With distinct keys, the key with bytes `k` stands at `i` exactly when
/// the key at `i` has those bytes.
pub proof fn lemma_key_position<'a, K: MutableMapKey<'a>>(keys: Seq<K>, k: Seq<u8>, i: int)
    requires
        keys_distinct(keys),
        0 <= i < keys.len(),
    ensures
        (keys[i].spec_key_bytes() == k) == (key_position(keys, k) == Some(i)),
{
    if keys[i].spec_key_bytes() == k {
        let j = choose|j: int| 0 <= j < keys.len() && (#[trigger] keys[j]).spec_key_bytes() == k;
        assert(keys[j].spec_key_bytes() == k);
    }
}

/// An owned map of values with a flag that records changes. Its entries
/// keep the order in which their keys were first inserted.
#[derive(Debug)]
pub struct MutableMap<'a, K, V> {
    keys: Vec<K>,
    values: Vec<V>,
    dirty: bool,
    _marker: core::marker::PhantomData<&'a ()>,
}

impl<'a, K: Clone, V: Clone> Clone for MutableMap<'a, K, V> {
    fn clone(&self) -> (r: Self) {
        MutableMap {
            keys: self.keys.clone(),
            values: self.values.clone(),
            dirty: self.dirty,
            _marker: core::marker::PhantomData,
        }
    }
}

impl<'a, K, V> Default for MutableMap<'a, K, V> {
    fn default() -> (r: Self)
        ensures
            r.spec_keys() == Seq::<K>::empty(),
            r.spec_values() == Seq::<V>::empty(),
            !r.spec_dirty(),
    {
        MutableMap {
            keys: Vec::new(),
            values: Vec::new(),
            dirty: false,
            _marker: core::marker::PhantomData,
        }
    }
}

impl<'a, K, V> MutableMap<'a, K, V> {
    /// The keys, in order.
    pub closed spec fn spec_keys(&self) -> Seq<K> {
        self.keys@
    }

    /// The values, in the order of their keys.
    pub closed spec fn spec_values(&self) -> Seq<V> {
        self.values@
    }

    /// Whether the map itself was changed since it was made or read.
    pub closed spec fn spec_dirty(&self) -> bool {
        self.dirty
    }
}

impl<'a, K: MutableMapKey<'a>, V> MutableMap<'a, K, V> {
    /// As many values as keys, and no key twice.
    pub open spec fn wf(&self) -> bool {
        &&& self.spec_keys().len() == self.spec_values().len()
        &&& keys_distinct(self.spec_keys())
    }

    /// The value stored for the key with bytes `k`.
    pub open spec fn spec_get(&self, k: Seq<u8>) -> Option<V> {
        match key_position(self.spec_keys(), k) {
            Some(i) => Some(self.spec_values()[i]),
            None => None,
        }
    }

    /// An empty map with no change recorded.
    pub fn new() -> (r: Self)
        ensures
            r.wf(),
            r.spec_keys() == Seq::<K>::empty(),
            r.spec_values() == Seq::<V>::empty(),
            !r.spec_dirty(),
    {
        MutableMap {
            keys: Vec::new(),
            values: Vec::new(),
            dirty: false,
            _marker: core::marker::PhantomData,
        }
    }

    /// Number of entries.
    pub fn len(&self) -> (r: usize)
        ensures
            r == self.spec_keys().len(),
    {
        self.keys.len()
    }

    /// Whether there are no entries.
    pub fn is_empty(&self) -> (r: bool)
        ensures
            r == (self.spec_keys().len() == 0),
    {
        self.keys.len() == 0
    }

    /// Removes all entries and records a change.
    pub fn clear(&mut self)
        ensures
            final(self).wf(),
            final(self).spec_keys() == Seq::<K>::empty(),
            final(self).spec_values() == Seq::<V>::empty(),
            final(self).spec_dirty(),
    {
        self.dirty = true;
        self.keys.clear();
        self.values.clear();
    }

    /// Reserves room for `additional` more entries.
    pub fn reserve(&mut self, additional: usize)
        ensures
            final(self).spec_keys() == old(self).spec_keys(),
            final(self).spec_values() == old(self).spec_values(),
            final(self).spec_dirty() == old(self).spec_dirty(),
    {
        self.keys.reserve(additional);
        self.values.reserve(additional);
    }

    /// Where the key with `key`'s bytes stands.
    fn find(&self, key: &K) -> (r: Option<usize>)
        requires
            self.wf(),
        ensures
            match r {
                Some(i) => key_position(self.spec_keys(), key.spec_key_bytes()) == Some(i as int),
                None => key_position(self.spec_keys(), key.spec_key_bytes()) is None,
            },
    {
        let want: Vec<u8> = key.key_bytes();
        let mut i: usize = 0;
        while i < self.keys.len()
            invariant
                i <= self.keys@.len(),
                keys_distinct(self.keys@),
                want@ == key.spec_key_bytes(),
                forall|j: int| 0 <= j < i ==> (#[trigger] self.keys@[j]).spec_key_bytes() != want@,
            decreases self.keys@.len() - i,
        {
            let have: Vec<u8> = self.keys[i].key_bytes();
            if bytes_eq(have.as_slice(), want.as_slice()) {
                proof {
                    lemma_key_position(self.keys@, want@, i as int);
                }
                return Some(i);
            }
            i += 1;
        }
        None
    }

    /// Stores `value` for `key` and records a change: a key already
    /// present keeps its place and gets the new value, which gives back
    /// the value it had; else the entry is appended.
    pub fn insert(&mut self, key: K, value: V) -> (r: Option<V>)
        requires
            old(self).wf(),
        ensures
            final(self).wf(),
            final(self).spec_dirty(),
            match key_position(old(self).spec_keys(), key.spec_key_bytes()) {
                Some(i) => final(self).spec_keys() == old(self).spec_keys() && final(self).spec_values() == old(self).spec_values().update(i, value) && r == Some(
                    old(self).spec_values()[i],
                ),
                None => final(self).spec_keys() == old(self).spec_keys().push(key) && final(self).spec_values() == old(self).spec_values().push(value) && r is None,
            },
            forall|k: Seq<u8>|
                #[trigger] final(self).spec_get(k) == if k == key.spec_key_bytes() {
                    Some(value)
                } else {
                    old(self).spec_get(k)
                },
    {
        self.dirty = true;
        match self.find(&key) {
            Some(i) => {
                let old_value: V = self.values.remove(i);
                self.values.insert(i, value);
                proof {
                    assert(self.values@ =~= old(self).values@.update(i as int, value));
                    lemma_get_after_update(old(self).keys@, old(self).values@, self.values@, key.spec_key_bytes(), i as int, value);
                }
                Some(old_value)
            },
            None => {
                let ghost k0 = key.spec_key_bytes();
                self.keys.push(key);
                self.values.push(value);
                proof {
                    assert(self.keys@.drop_last() =~= old(self).keys@);
                    lemma_get_after_push(old(self).keys@, old(self).values@, self.keys@, self.values@, k0, value);
                }
                None
            },
        }
    }

    /// Whether there is an entry for `key`.
    pub fn contains_key(&self, key: &K) -> (r: bool)
        requires
            self.wf(),
        ensures
            r == (self.spec_get(key.spec_key_bytes()) is Some),
    {
        self.find(key).is_some()
    }

    /// The value stored for `key`.
    pub fn get(&self, key: &K) -> (r: Option<&V>)
        requires
            self.wf(),
        ensures
            match self.spec_get(key.spec_key_bytes()) {
                Some(v) => r == Some(&v),
                None => r is None,
            },
    {
        match self.find(key) {
            Some(i) => Some(&self.values[i]),
            None => None,
        }
    }

    /// The value stored for `key`, for changing in place; a change is
    /// recorded.
    pub fn get_mut(&mut self, key: &K) -> (r: Option<&mut V>)
        requires
            old(self).wf(),
        ensures
            final(self).spec_dirty(),
            final(self).spec_keys() == old(self).spec_keys(),
            match key_position(old(self).spec_keys(), key.spec_key_bytes()) {
                Some(i) => r matches Some(v) && *v == old(self).spec_values()[i] && final(self).spec_values() == old(self).spec_values().update(i, *final(v)),
                None => r is None && final(self).spec_values() == old(self).spec_values(),
            },
    {
        self.dirty = true;
        match self.find(key) {
            Some(i) => Some(&mut self.values[i]),
            None => None,
        }
    }

    /// Removes the entry for `key` and records a change; the entries after
    /// it move up by one.
    pub fn remove(&mut self, key: &K) -> (r: Option<V>)
        requires
            old(self).wf(),
        ensures
            final(self).wf(),
            final(self).spec_dirty(),
            match key_position(old(self).spec_keys(), key.spec_key_bytes()) {
                Some(i) => final(self).spec_keys() == old(self).spec_keys().remove(i) && final(self).spec_values() == old(self).spec_values().remove(i) && r == Some(
                    old(self).spec_values()[i],
                ),
                None => final(self).spec_keys() == old(self).spec_keys() && final(self).spec_values() == old(self).spec_values() && r is None,
            },
    {
        self.dirty = true;
        match self.find(key) {
            Some(i) => {
                self.keys.remove(i);
                let v: V = self.values.remove(i);
                proof {
                    let ks = old(self).keys@;
                    assert forall|a: int, b: int|
                        0 <= a < self.keys@.len() && 0 <= b < self.keys@.len() && a != b implies (
                        #[trigger] self.keys@[a]).spec_key_bytes() != (
                        #[trigger] self.keys@[b]).spec_key_bytes() by {
                        let a0 = if a < i { a } else { a + 1 };
                        let b0 = if b < i { b } else { b + 1 };
                        assert(self.keys@[a] == ks[a0]);
                        assert(self.keys@[b] == ks[b0]);
                    }
                }
                Some(v)
            },
            None => None,
        }
    }

    /// The keys and the values, in order.
    pub fn iter(&self) -> (r: (&[K], &[V]))
        ensures
            r.0@ == self.spec_keys(),
            r.1@ == self.spec_values(),
    {
        (self.keys.as_slice(), self.values.as_slice())
    }

    /// The keys, and the values for changing in place; a change is
    /// recorded.
    pub fn iter_mut(&mut self) -> (r: (&[K], &mut [V]))
        ensures
            r.0@ == old(self).spec_keys(),
            r.1@ == old(self).spec_values(),
            final(self).spec_keys() == old(self).spec_keys(),
            final(self).spec_values() == final(r.1)@,
            final(self).spec_dirty(),
    {
        self.dirty = true;
        (self.keys.as_slice(), self.values.as_mut_slice())
    }

    /// A map of the given entries with no change recorded; a later entry
    /// for a key replaces the value of an earlier one.
    pub fn from_pairs(pairs: Vec<(K, V)>) -> (r: Self)
        ensures
            r.wf(),
            !r.spec_dirty(),
            (r.spec_keys(), r.spec_values()) == spec_from_pairs(pairs@),
    {
        let ghost all = pairs@;
        let mut map = Self::new();
        let mut pairs = pairs;
        let ghost mut done: int = 0;
        while pairs.len() > 0
            invariant
                map.wf(),
                0 <= done <= all.len(),
                pairs@ == all.subrange(done, all.len() as int),
                (map.spec_keys(), map.spec_values()) == spec_from_pairs(all.subrange(0, done)),
            decreases pairs@.len(),
        {
            let ghost p0 = pairs@;
            let (k, v) = pairs.remove(0);
            assert(all.subrange(0, done + 1).drop_last() == all.subrange(0, done));
            assert(all.subrange(0, done + 1).last() == p0[0]);
            map.insert(k, v);
            proof {
                done = done + 1;
            }
            assert(pairs@ == all.subrange(done, all.len() as int));
        }
        assert(all.subrange(0, done) == all);
        map.dirty = false;
        map
    }
}


impl<'a, V> MutableMap<'a, String, V> {
    /// Whether a key with the text `key` is stored.
    pub fn contains_key_str(&self, key: &str) -> (r: bool)
        requires
            self.wf(),
        ensures
            r == (self.spec_get(encode_utf8(key@)) is Some),
    {
        let k = String::from_str(key);
        self.contains_key(&k)
    }

    /// The value stored for the key with the text `key`.
    pub fn get_str(&self, key: &str) -> (r: Option<&V>)
        requires
            self.wf(),
        ensures
            match self.spec_get(encode_utf8(key@)) {
                Some(v) => r == Some(&v),
                None => r is None,
            },
    {
        let k = String::from_str(key);
        self.get(&k)
    }

    /// The value stored for the key with the text `key`, to be changed; a
    /// change is recorded.
    pub fn get_mut_str(&mut self, key: &str) -> (r: Option<&mut V>)
        requires
            old(self).wf(),
        ensures
            final(self).spec_dirty(),
            final(self).spec_keys() == old(self).spec_keys(),
            match key_position(old(self).spec_keys(), encode_utf8(key@)) {
                Some(i) => r matches Some(v) && *v == old(self).spec_values()[i] && final(self).spec_values() == old(self).spec_values().update(i, *final(v)),
                None => r is None && final(self).spec_values() == old(self).spec_values(),
            },
    {
        let k = String::from_str(key);
        self.get_mut(&k)
    }

    /// Removes the key with the text `key` and its value, recording a change.
    pub fn remove_str(&mut self, key: &str) -> (r: Option<V>)
        requires
            old(self).wf(),
        ensures
            final(self).wf(),
            final(self).spec_dirty(),
            match key_position(old(self).spec_keys(), encode_utf8(key@)) {
                Some(i) => final(self).spec_keys() == old(self).spec_keys().remove(i) && final(self).spec_values() == old(self).spec_values().remove(i) && r == Some(
                    old(self).spec_values()[i],
                ),
                None => final(self).spec_keys() == old(self).spec_keys() && final(self).spec_values() == old(self).spec_values() && r is None,
            },
    {
        let k = String::from_str(key);
        self.remove(&k)
    }
}

/// What a first access to a field loads: the value the source field
/// reads as, or the type's default when the field is absent or does not
/// read.
pub open spec fn first_load<'a, T: MutableField<'a>>(words: Option<Seq<u32>>, field: Option<(nat, nat)>, v: T) -> bool {
    match (words, field) {
        (Some(ws), Some((start, w))) => if T::spec_decodes(ws.subrange(start as int, ws.len() as int), w) {
            T::spec_decoded(ws.subrange(start as int, ws.len() as int), w, v)
        } else {
            call_ensures(T::default, (), v)
        },
        _ => call_ensures(T::default, (), v),
    }
}

/// Already encoded words copied for a message: inline when fewer than
/// four, else put in front of `before` as a segment.
pub open spec fn words_copied(d: Seq<u32>, before: Seq<u32>, unit: Unit, after: Seq<u32>) -> bool {
    if d.len() < 4 {
        unit.spec_inline() == d && after == before && unit.spec_segment() == (Segment { pos: 0, len: 0 })
    } else {
        after == d + before && unit.spec_inline().len() == 0 && unit.spec_segment() == (Segment {
            pos: after.len() as usize,
            len: d.len() as usize,
        })
    }
}

/// What encoding an untouched field present in the source gives: the
/// source's encoded words of its value copied, or nothing when they are
/// not found; an error only when the copy would not fit the buffer.
pub open spec fn source_copied<'a, T: MutableField<'a>>(
    tail: Seq<u32>,
    w: nat,
    before: Seq<u32>,
    r: Result<(), MutableError>,
    unit: Unit,
    after: Seq<u32>,
) -> bool {
    match r {
        Ok(()) => (!T::spec_detectable(tail, w) && unit.spec_inline().len() == 0 && unit.spec_segment() == (
        Segment { pos: 0, len: 0 }) && after == before) || exists|d: Seq<u32>|
            T::spec_detected(tail, w, d) && #[trigger] words_copied(d, before, unit, after),
        Err(_) => after == before && exists|d: Seq<u32>|
            T::spec_detected(tail, w, d) && before.len() + #[trigger] d.len() > usize::MAX,
    }
}

/// The keys, in order of first appearance, and the values of a map made
/// by inserting `pairs` in order: a later pair for a key replaces the value
/// of an earlier one.
pub open spec fn spec_from_pairs<'a, K: MutableMapKey<'a>, V>(pairs: Seq<(K, V)>) -> (Seq<K>, Seq<V>)
    decreases pairs.len(),
{
    if pairs.len() == 0 {
        (Seq::empty(), Seq::empty())
    } else {
        let (ks, vs) = spec_from_pairs(pairs.drop_last());
        let (k, v) = pairs.last();
        match key_position(ks, k.spec_key_bytes()) {
            Some(i) => (ks, vs.update(i, v)),
            None => (ks.push(k), vs.push(v)),
        }
    }
}

/// Number of words from the start of a map of `K` keys and `V` values to
/// the end of all the words it spans: past the index and the cells, up to
/// the end of the last key or value whose words reach beyond them.
pub fn map_extent<'a, K: MutableMapKey<'a>, V: MutableField<'a>>(words: &'a [u32]) -> (r: Option<
    usize,
>)
    ensures
        r matches Some(e) ==> e <= words@.len(),
        spec_map_layout(words@) is None ==> r is None,
        r matches Some(e) ==> spec_map_layout(words@) is Some,
        r matches Some(e) ==> (crate::access::spec_map_detect_len(words@) matches Some(t) && t <= e),
        spec_map_layout(words@) matches Some(l) && l.0 == 0 ==> (r matches Some(e)
            && crate::access::spec_map_detect_len(words@) == Some(e as nat)),
{
    let map = match MapView::new(words) {
        Some(m) => m,
        None => {
            return None;
        },
    };
    let end: usize = map.total_words();
    let total: usize = words.len();
    assert(end <= total);
    let n: usize = map.len();
    let mut i: usize = n;
    while i > 0
        invariant
            i <= n,
            map@ == words@,
            n == map.spec_layout().0,
            spec_map_layout(words@) is Some,
            crate::access::spec_map_detect_len(words@) == Some(end as nat),
            end <= total,
            total == words@.len(),
        decreases i,
    {
        i -= 1;
        let start: usize = map.pair_start(i);
        let pair = map.expect_pair(i);
        let vf = pair.value();
        let ve: usize = match V::detect_end(vf) {
            Some(e) => e,
            None => {
                return None;
            },
        };
        let vt: usize = vf.tail_len();
        let pos: usize = total - vt + ve;
        if pos > end {
            return Some(pos);
        }
        let kf = pair.key();
        let ke: usize = match K::detect_key_end(kf) {
            Some(e) => e,
            None => {
                return None;
            },
        };
        let kt: usize = kf.tail_len();
        let pos: usize = total - kt + ke;
        if pos > end {
            return Some(pos);
        }
    }
    Some(end)
}

/// Where a field holding a map ends, counted from its cell.
fn map_field_end<'a, K: MutableMapKey<'a>, V: MutableField<'a>>(field: FieldView<'a>) -> (r: Option<
    usize,
>)
    ensures
        r matches Some(e) ==> e <= field.spec_tail().len(),
{
    let off: usize = match field.object_offset() {
        Some(o) => o,
        None => {
            return None;
        },
    };
    let obj: &'a [u32] = match field.object_words() {
        Some(w) => w,
        None => {
            return None;
        },
    };
    let n: usize = match map_extent::<K, V>(obj) {
        Some(n) => n,
        None => {
            return None;
        },
    };
    let obj_len: usize = obj.len();
    let tail_len: usize = field.tail_len();
    assert(off + n <= tail_len);
    Some(off + n)
}

impl<'a, K: MutableMapKey<'a>, V: MutableField<'a>> MutableMap<'a, K, V> {
    /// Reads all pairs of the map that starts `words`; a later pair for a
    /// key replaces an earlier one.
    pub fn from_words(words: &'a [u32]) -> (r: Option<Self>)
        ensures
            r matches Some(m) ==> m.wf() && !m.spec_dirty(),
            r matches Some(m) ==> exists|pairs: Seq<(K, V)>|
                #[trigger] map_pairs_decoded::<K, V>(words@, pairs) && (m.spec_keys(), m.spec_values())
                    == spec_from_pairs(pairs),
            r is Some == map_pairs_decode::<K, V>(words@),
    {
        let map = match MapView::new(words) {
            Some(m) => m,
            None => {
                return None;
            },
        };
        let n: usize = map.len();
        let mut out = Self::new();
        let ghost mut pairs: Seq<(K, V)> = Seq::empty();
        let mut i: usize = 0;
        while i < n
            invariant
                out.wf(),
                i <= n,
                n == map.spec_layout().0,
                map@ == words@,
                spec_map_layout(words@) is Some,
                forall|j: int| 0 <= j < i ==> #[trigger] pair_decodes::<K, V>(words@, j),
                pairs.len() == i,
                forall|j: int| 0 <= j < i ==> #[trigger] pair_decoded::<K, V>(words@, j, pairs[j]),
                (out.spec_keys(), out.spec_values()) == spec_from_pairs(pairs),
            decreases n - i,
        {
            let pair = map.expect_pair(i);
            let k: K = match K::decode_key(pair.key()) {
                Some(k) => k,
                None => {
                    assert(!pair_decodes::<K, V>(words@, i as int));
                    return None;
                },
            };
            let vf = pair.value();
            let v: V = match V::decode(vf) {
                Some(v) => v,
                None => {
                    assert(!pair_decodes::<K, V>(words@, i as int));
                    return None;
                },
            };
            assert(pair_decodes::<K, V>(words@, i as int));
            assert(pair_decoded::<K, V>(words@, i as int, (k, v)));
            let ghost prev = pairs;
            out.insert(k, v);
            proof {
                pairs = pairs.push((k, v));
                assert(pairs.drop_last() == prev);
                assert forall|j: int| 0 <= j < i + 1 implies #[trigger] pair_decoded::<K, V>(words@, j, pairs[j]) by {
                    if j < i {
                        assert(pairs[j] == prev[j]);
                    }
                }
            }
            i += 1;
        }
        out.dirty = false;
        assert(map_pairs_decoded::<K, V>(words@, pairs));
        Some(out)
    }

    /// Encodes the map: the keys get a perfect-hash index, the values and
    /// keys are encoded from the last slot of the index to the first, and
    /// the map is put in front of `buffer`. An empty map is its inline
    /// header word.
    pub fn encode_to_unit(&self, buffer: &mut Buffer) -> (r: Result<Unit, MutableError>)
        ensures
            keeps_written(old(buffer).content(), final(buffer).content()),
            self.spec_keys().len() == 0 ==> final(buffer).content() == old(buffer).content() && (r matches Ok(u)
                && u.spec_inline() == seq![crate::serialize::empty_map_word()] && u.spec_segment() == (
            Segment { pos: 0, len: 0 })),
    {
        proof {
            lemma_keeps_written_refl(buffer.content());
        }
        let n: usize = self.keys.len();
        if n == 0 {
            let w: [u32; 1] = [0x5000_0000u32];
            assert(w@ =~= seq![crate::serialize::empty_map_word()]);
            return Ok(Unit::inline(w.as_slice()));
        }
        if self.values.len() != n {
            return Err(serialize_failed("<map>", "<encode>"));
        }
        let last: usize = buffer.len();
        if last > usize::MAX - 0x4000_0000 {
            return Err(serialize_failed("<map>", "<encode>"));
        }
        let mut key_bytes: Vec<Vec<u8>> = Vec::new();
        let mut i: usize = 0;
        while i < n
            invariant
                i <= n,
                n == self.keys@.len(),
                key_bytes@.len() == i,
            decreases n - i,
        {
            key_bytes.push(self.keys[i].key_bytes());
            i += 1;
        }
        let (index, positions) = match crate::perfect_hash::build_perfect_hash_index_with_positions(
            key_bytes.as_slice(),
        ) {
            Some(p) => p,
            None => {
                return Err(serialize_failed("<map>", "<index>"));
            },
        };
        let mut book: Vec<usize> = Vec::new();
        let mut k: usize = 0;
        while k < n
            invariant
                k <= n,
                book@.len() == k,
                forall|j: int| 0 <= j < k ==> book@[j] < n,
            decreases n - k,
        {
            book.push(0usize);
            k += 1;
        }
        let mut idx: usize = 0;
        while idx < positions.len()
            invariant
                idx <= positions@.len(),
                positions@.len() == n,
                forall|j: int| 0 <= j < n ==> #[trigger] positions@[j] < n,
                book@.len() == n,
                forall|j: int| 0 <= j < n ==> book@[j] < n,
                n > 0,
            decreases positions@.len() - idx,
        {
            let p: usize = positions[idx];
            book.set(p, idx);
            idx += 1;
        }
        let mut key_units: Vec<Unit> = Vec::new();
        let mut value_units: Vec<Unit> = Vec::new();
        let mut k: usize = 0;
        while k < n
            invariant
                k <= n,
                key_units@.len() == k,
                value_units@.len() == k,
            decreases n - k,
        {
            key_units.push(Unit::empty());
            value_units.push(Unit::empty());
            k += 1;
        }
        let mut i: usize = n;
        while i > 0
            invariant
                i <= n,
                n == self.keys@.len(),
                n == self.values@.len(),
                book@.len() == n,
                forall|j: int| 0 <= j < n ==> book@[j] < n,
                key_units@.len() == n,
                value_units@.len() == n,
                last == old(buffer).content().len(),
                last <= usize::MAX - 0x4000_0000,
                keeps_written(old(buffer).content(), buffer.content()),
            decreases i,
        {
            i -= 1;
            let e: usize = book[i];
            let ghost mid = buffer.content();
            let vu: Unit = match self.values[e].encode(buffer) {
                Ok(u) => u,
                Err(err) => {
                    proof {
                        lemma_keeps_written_trans(old(buffer).content(), mid, buffer.content());
                    }
                    return Err(err);
                },
            };
            proof {
                lemma_keeps_written_trans(old(buffer).content(), mid, buffer.content());
            }
            value_units.set(i, vu);
            let ghost mid2 = buffer.content();
            let ku: Unit = match self.keys[e].encode_key(buffer) {
                Ok(u) => u,
                Err(err) => {
                    proof {
                        lemma_keeps_written_trans(old(buffer).content(), mid2, buffer.content());
                    }
                    return Err(err);
                },
            };
            proof {
                lemma_keeps_written_trans(old(buffer).content(), mid2, buffer.content());
            }
            key_units.set(i, ku);
        }
        if index.len() == 0 {
            return Err(serialize_failed("<map>", "<index>"));
        }
        let ghost mid = buffer.content();
        let ghost ks = key_units@;
        let ghost vs = value_units@;
        match crate::serialize::serialize_map_at(
            index.as_slice(),
            key_units.as_slice(),
            value_units.as_slice(),
            buffer,
            last,
        ) {
            Some(u) => {
                proof {
                    let before = old(buffer).content();
                    assert(mid.subrange(mid.len() - last, mid.len() as int) == before);
                    lemma_keeps_written_prepend(
                        crate::serialize::map_words(index@, ks, vs, mid),
                        before,
                    );
                }
                Ok(u)
            },
            None => Err(serialize_failed("<map>", "<encode>")),
        }
    }
}

impl<'a, K: MutableMapKey<'a>, V: MutableField<'a>> MutableField<'a> for MutableMap<'a, K, V> {
    open spec fn spec_detected(tail: Seq<u32>, width: nat, d: Seq<u32>) -> bool {
        cell_object(tail) matches Some(w) && d.len() <= w.len() && d == w.subrange(0, d.len() as int)
    }

    open spec fn spec_decoded(tail: Seq<u32>, width: nat, v: Self) -> bool {
        v.wf() && !v.spec_dirty() && (cell_object(tail) matches Some(w) && exists|pairs: Seq<(K, V)>|
            #[trigger] map_pairs_decoded::<K, V>(w, pairs) && (v.spec_keys(), v.spec_values())
                == spec_from_pairs(pairs))
    }

    open spec fn spec_decodes(tail: Seq<u32>, width: nat) -> bool {
        cell_object(tail) matches Some(w) && map_pairs_decode::<K, V>(w)
    }

    fn decode(field: FieldView<'a>) -> (r: Option<Self>) {
        match field.object_words() {
            Some(w) => Self::from_words(w),
            None => None,
        }
    }

    open spec fn spec_detectable(tail: Seq<u32>, width: nat) -> bool {
        false
    }

    fn detect(field: FieldView<'a>) -> (r: Option<&'a [u32]>) {
        let obj: &'a [u32] = match field.object_words() {
            Some(w) => w,
            None => {
                return None;
            },
        };
        let n: usize = match map_extent::<K, V>(obj) {
            Some(n) => n,
            None => {
                return None;
            },
        };
        Some(slice_prefix(obj, n))
    }

    fn detect_end(field: FieldView<'a>) -> (r: Option<usize>) {
        map_field_end::<K, V>(field)
    }

    fn is_empty_field(&self) -> (r: bool)
        ensures
            r == (self.spec_keys().len() == 0),
    {
        self.keys.len() == 0
    }

    fn omits_default_after_encode() -> (r: bool)
        ensures
            !r,
    {
        false
    }

    open spec fn spec_changed(&self) -> bool {
        self.spec_dirty() || exists|i: int|
            0 <= i < self.spec_values().len() && self.spec_values()[i].spec_changed()
    }

    fn is_dirty(&self) -> (r: bool)
        ensures
            r == self.spec_changed(),
    {
        self.has_nested_dirty()
    }

    fn has_nested_dirty(&self) -> (r: bool) {
        if self.dirty {
            return true;
        }
        let mut i: usize = 0;
        while i < self.values.len()
            invariant
                i <= self.values@.len(),
                forall|j: int| 0 <= j < i ==> !self.values@[j].spec_changed(),
            decreases self.values@.len() - i,
        {
            if self.values[i].has_nested_dirty() {
                assert(self.spec_values()[i as int].spec_changed());
                return true;
            }
            i += 1;
        }
        false
    }

    open spec fn spec_encoded(&self, before: Seq<u32>, r: Result<Unit, MutableError>, after: Seq<u32>) -> bool {
        self.spec_keys().len() == 0 ==> after == before && (r matches Ok(u) && u.spec_inline() == seq![
            crate::serialize::empty_map_word(),
        ] && u.spec_segment() == (Segment { pos: 0, len: 0 }))
    }

    fn encode(&self, buffer: &mut Buffer) -> (r: Result<Unit, MutableError>) {
        self.encode_to_unit(buffer)
    }
}

impl<'a, K: MutableMapKey<'a>, V: MutableField<'a>> MutableArrayElement<'a> for MutableMap<
    'a,
    K,
    V,
> {
    open spec fn spec_array_decodes(words: Seq<u32>) -> bool {
        object_array_decodes::<Self>(words)
    }

    open spec fn spec_array_decoded(words: Seq<u32>, values: Seq<Self>) -> bool {
        object_array_decoded::<Self>(words, values)
    }

    fn decode_array(words: &'a [u32]) -> (r: Option<Vec<Self>>) {
        decode_object_array::<Self>(words)
    }

    open spec fn spec_array_encoded(values: Seq<Self>, before: Seq<u32>, r: Result<Unit, MutableError>, after: Seq<u32>) -> bool {
        object_array_encoded(values, before, r, after)
    }

    fn encode_array(values: &[Self], buffer: &mut Buffer) -> (r: Result<Unit, MutableError>) {
        encode_object_array(values, buffer)
    }
}


/// Setting bit `b` of a word sets it and leaves the other bits; a mask test
/// reads a bit.
proof fn lemma_set_bit(a: u64, b: u64, c: u64)
    by (bit_vector)
    requires
        b < 64,
        c < 64,
    ensures
        ((a | (1u64 << b)) >> b) & 1u64 == 1u64,
        c != b ==> ((a | (1u64 << b)) >> c) & 1u64 == (a >> c) & 1u64,
        (a & (1u64 << b) != 0u64) == ((a >> b) & 1u64 == 1u64),
        a == 0u64 ==> (a >> b) & 1u64 == 0u64,
{
}

/// Lazily decoded state of a message of `N` fields: the encoded message it
/// was read from, if any, and which fields were taken out to be changed
/// (one bit per field, in `WORDS` words).
#[derive(Debug)]
pub struct MutableMessage<'a, const N: usize, const WORDS: usize> {
    words: Option<&'a [u32]>,
    accessed: Vec<u64>,
}

impl<'a, const N: usize, const WORDS: usize> MutableMessage<'a, N, WORDS> {
    #[verifier::type_invariant]
    closed spec fn inv(self) -> bool {
        self.accessed@.len() == WORDS
    }

    /// The encoded message the state was read from.
    pub closed spec fn spec_words(&self) -> Option<Seq<u32>> {
        match self.words {
            Some(w) => Some(w@),
            None => None,
        }
    }

    /// Whether field `id` was taken out to be changed.
    pub closed spec fn spec_accessed(&self, id: nat) -> bool {
        (self.accessed@[(id / 64) as int] >> ((id % 64) as u64)) & 1u64 == 1u64
    }

    /// Whether any field was taken out to be changed.
    pub closed spec fn spec_any_accessed(&self) -> bool {
        exists|j: int| 0 <= j < self.accessed@.len() && self.accessed@[j] != 0
    }

    /// Field `id` of the encoded message, when there is one.
    pub open spec fn spec_field(&self, id: nat) -> Option<(nat, nat)> {
        match self.spec_words() {
            Some(w) => spec_message_field(w, id),
            None => None,
        }
    }

    /// State with no encoded message and no field taken out.
    pub fn new() -> (r: Self)
        ensures
            r.spec_words() is None,
            !r.spec_any_accessed(),
    {
        let mut accessed: Vec<u64> = Vec::new();
        let mut i: usize = 0;
        while i < WORDS
            invariant
                i <= WORDS,
                accessed@.len() == i,
                forall|j: int| 0 <= j < i ==> accessed@[j] == 0,
            decreases WORDS - i,
        {
            accessed.push(0u64);
            i += 1;
        }
        MutableMessage { words: None, accessed }
    }

    /// State backed by the encoded message `words`, with no field taken
    /// out; none when `words` does not start with a message.
    pub fn from_words(words: &'a [u32]) -> (r: Option<Self>)
        ensures
            match r {
                Some(m) => m.spec_words() == Some(words@) && !m.spec_any_accessed(),
                None => spec_message_layout(words@) is None,
            },
    {
        if MessageView::new(words).is_none() {
            return None;
        }
        let m = Self::new();
        proof {
            use_type_invariant(&m);
        }
        Some(MutableMessage { words: Some(words), accessed: m.accessed })
    }

    /// Field `id` of the encoded message.
    fn field(&self, id: usize) -> (r: Option<FieldView<'a>>)
        ensures
            match r {
                Some(f) => self.spec_field(id as nat) matches Some((start, w)) && self.spec_words()
                    matches Some(words) && f.spec_tail() == words.subrange(
                    start as int,
                    words.len() as int,
                ) && f.spec_width() == w,
                None => self.spec_field(id as nat) is None,
            },
    {
        let words: &'a [u32] = match self.words {
            Some(w) => w,
            None => {
                return None;
            },
        };
        let view = match MessageView::new(words) {
            Some(v) => v,
            None => {
                return None;
            },
        };
        view.field(id)
    }

    /// Whether field `id` exists in the source message or has been set
    /// (taken out to be changed).
    pub fn has_field(&self, id: usize) -> (r: bool)
        ensures
            r == (self.spec_field(id as nat) is Some || (id / 64 < WORDS && self.spec_accessed(id as nat))),
    {
        if self.field(id).is_some() {
            return true;
        }
        if id / 64 < WORDS {
            self.was_accessed(id)
        } else {
            false
        }
    }

    /// Whether field `id` was taken out to be changed.
    pub fn was_accessed(&self, id: usize) -> (r: bool)
        requires
            id / 64 < WORDS,
        ensures
            r == self.spec_accessed(id as nat),
    {
        proof {
            use_type_invariant(self);
        }
        let word: usize = id / 64;
        let bit: usize = id % 64;
        let v: u64 = self.accessed[word];
        proof {
            lemma_set_bit(v, bit as u64, 0);
        }
        (v & (1u64 << (bit as u64))) != 0
    }

    /// Whether any field was taken out to be changed.
    pub fn has_any_accessed(&self) -> (r: bool)
        ensures
            r == self.spec_any_accessed(),
    {
        let mut i: usize = 0;
        while i < self.accessed.len()
            invariant
                i <= self.accessed@.len(),
                forall|j: int| 0 <= j < i ==> self.accessed@[j] == 0,
            decreases self.accessed@.len() - i,
        {
            if self.accessed[i] != 0 {
                return true;
            }
            i += 1;
        }
        false
    }

    /// The encoded message, while no field was taken out.
    pub fn clean_words(&self) -> (r: Option<&[u32]>)
        ensures
            self.spec_any_accessed() ==> r is None,
            !self.spec_any_accessed() ==> match r {
                Some(w) => self.spec_words() == Some(w@),
                None => self.spec_words() is None,
            },
    {
        if self.has_any_accessed() {
            None
        } else {
            self.words
        }
    }

    /// Takes field `id` out to be changed: the first time, `slot` gets the
    /// field's decoded value (the type's default when it is absent or does
    /// not decode); later, `slot` is left as it is.
    pub fn get_field<'b, T: MutableField<'a>>(&mut self, id: usize, slot: &'b mut T) -> (r: &'b mut T)
        requires
            id / 64 < WORDS,
        ensures
            final(self).spec_words() == old(self).spec_words(),
            final(self).spec_accessed(id as nat),
            forall|j: nat|
                j != id && j / 64 < WORDS ==> #[trigger] final(self).spec_accessed(j) == old(
                    self,
                ).spec_accessed(j),
            old(self).spec_accessed(id as nat) ==> *r == *old(slot),
            !old(self).spec_accessed(id as nat) ==> first_load::<T>(old(self).spec_words(), old(self).spec_field(id as nat), *r),
            *final(slot) == *final(r),
            final(self).spec_any_accessed(),
    {
        proof {
            use_type_invariant(&*self);
        }
        if !self.was_accessed(id) {
            let word: usize = id / 64;
            let bit: usize = id % 64;
            let v: u64 = self.accessed[word];
            let nv: u64 = v | (1u64 << (bit as u64));
            let mut marks: Vec<u64> = Vec::new();
            let mut k: usize = 0;
            while k < self.accessed.len()
                invariant
                    k <= self.accessed@.len(),
                    word < self.accessed@.len(),
                    marks@ == self.accessed@.update(word as int, nv).subrange(0, k as int),
                decreases self.accessed@.len() - k,
            {
                if k == word {
                    marks.push(nv);
                } else {
                    marks.push(self.accessed[k]);
                }
                k += 1;
                assert(marks@ =~= self.accessed@.update(word as int, nv).subrange(0, k as int));
            }
            assert(marks@ =~= self.accessed@.update(word as int, nv));
            self.accessed = marks;
            proof {
                lemma_set_bit(v, bit as u64, 0);
                assert forall|j: nat| j != id && j / 64 < WORDS implies #[trigger] self.spec_accessed(j)
                    == old(self).spec_accessed(j) by {
                    if j / 64 == word {
                        lemma_set_bit(v, bit as u64, (j % 64) as u64);
                    }
                }
            }
            let decoded: Option<T> = match self.field(id) {
                Some(f) => T::decode(f),
                None => None,
            };
            *slot = match decoded {
                Some(v) => v,
                None => T::default(),
            };
            assert(first_load::<T>(old(self).spec_words(), old(self).spec_field(id as nat), *slot));
        }
        proof {
            use_type_invariant(&*self);
            let w = (id / 64) as int;
            lemma_marked_nonzero(self.accessed@[w], (id % 64) as u64);
            assert(0 <= w < self.accessed@.len() && self.accessed@[w] != 0);
        }
        slot
    }

    /// Encodes field `id` from `field` into `unit`: an untouched field
    /// copies the encoded message's words (inline when they are fewer than
    /// four) or is left out when absent; an empty value is left out; else the
    /// value is encoded, a one-word encoding of a type whose default a message
    /// leaves out is dropped, and a small segment is folded into the unit when
    /// the type folds.
    pub fn serialize_field<T: MutableField<'a>>(
        &self,
        id: usize,
        field: &T,
        buffer: &mut Buffer,
        unit: &mut Unit,
    ) -> (r: Result<(), MutableError>)
        requires
            id / 64 < WORDS,
        ensures
            !self.spec_accessed(id as nat) && self.spec_field(id as nat) is None ==> (r is Ok
                && final(unit).spec_inline().len() == 0 && final(unit).spec_segment() == (Segment {
                pos: 0,
                len: 0,
            }) && final(buffer).content() == old(buffer).content()),
            !self.spec_accessed(id as nat) ==> (self.spec_field(id as nat) matches Some((start, w))
                ==> self.spec_words() matches Some(ws) && source_copied::<T>(
                ws.subrange(start as int, ws.len() as int),
                w,
                old(buffer).content(),
                r,
                *final(unit),
                final(buffer).content(),
            )),
            self.spec_accessed(id as nat) && r is Ok ==> (final(unit).spec_inline().len() == 0
                && final(unit).spec_segment() == (Segment { pos: 0, len: 0 }) && final(buffer).content()
                == old(buffer).content()) || exists|u0: Unit, mid: Seq<u32>|
                field.spec_encoded(old(buffer).content(), Ok(u0), mid) && #[trigger] settled(
                    u0,
                    mid,
                    *final(unit),
                    final(buffer).content(),
                ),
    {
        if !self.was_accessed(id) {
            let f = match self.field(id) {
                Some(f) => f,
                None => {
                    *unit = Unit::empty();
                    return Ok(());
                },
            };
            match T::detect(f) {
                Some(words) => {
                    if buffer.len() > usize::MAX - words.len() {
                        return Err(serialize_failed("<message>", "<copy>"));
                    }
                    *unit = copy_words(words, buffer, true);
                    assert(words_copied(words@, old(buffer).content(), *unit, buffer.content()));
                },
                None => {
                    *unit = Unit::empty();
                },
            }
            return Ok(());
        }
        if field.is_empty_field() {
            *unit = Unit::empty();
            return Ok(());
        }
        let ghost before = buffer.content();
        *unit = match field.encode(buffer) {
            Ok(u) => u,
            Err(e) => {
                return Err(e);
            },
        };
        let ghost u0 = *unit;
        let ghost mid = buffer.content();
        assert(field.spec_encoded(before, Ok(u0), mid));
        if T::omits_default_after_encode() && should_omit_message_unit(unit) {
            if unit.is_segment() && unit.segment_info().len > buffer.len() {
                return Err(serialize_failed("<message>", "<omit>"));
            }
            drop_present_unit(buffer, unit);
        } else if T::folds_when_present() {
            fold_field(buffer, unit);
        }
        assert(settled(u0, mid, *unit, buffer.content()));
        Ok(())
    }
}

impl<'a, const N: usize, const WORDS: usize> Default for MutableMessage<'a, N, WORDS> {
    fn default() -> (r: Self)
        ensures
            r.spec_words() is None,
            !r.spec_any_accessed(),
    {
        Self::new()
    }
}

/// Replacing the value at a key's place changes what that key gives, and
/// nothing else.
proof fn lemma_get_after_update<'a, K: MutableMapKey<'a>, V>(
    keys: Seq<K>,
    values: Seq<V>,
    values2: Seq<V>,
    k0: Seq<u8>,
    i: int,
    v: V,
)
    requires
        keys_distinct(keys),
        keys.len() == values.len(),
        key_position(keys, k0) == Some(i),
        values2 == values.update(i, v),
    ensures
        forall|k: Seq<u8>|
            #[trigger] key_position(keys, k) matches Some(j) ==> values2[j] == (if k == k0 {
                v
            } else {
                values[j]
            }),
{
}

/// Appending a new key makes it give its value, and leaves the others.
proof fn lemma_get_after_push<'a, K: MutableMapKey<'a>, V>(
    keys: Seq<K>,
    values: Seq<V>,
    keys2: Seq<K>,
    values2: Seq<V>,
    k0: Seq<u8>,
    v: V,
)
    requires
        keys_distinct(keys),
        keys.len() == values.len(),
        key_position(keys, k0) is None,
        keys2.len() == keys.len() + 1,
        keys2.drop_last() == keys,
        keys2.last().spec_key_bytes() == k0,
        values2 == values.push(v),
    ensures
        keys_distinct(keys2),
        forall|k: Seq<u8>|
            #[trigger] key_position(keys2, k) == if k == k0 {
                Some(keys.len() as int)
            } else {
                key_position(keys, k)
            },
{
    assert forall|a: int, b: int|
        0 <= a < keys2.len() && 0 <= b < keys2.len() && a != b implies (
        #[trigger] keys2[a]).spec_key_bytes() != (#[trigger] keys2[b]).spec_key_bytes() by {
        if a < keys.len() {
            assert(keys2[a] == keys[a]);
        }
        if b < keys.len() {
            assert(keys2[b] == keys[b]);
        }
    }
    assert forall|k: Seq<u8>|
        #[trigger] key_position(keys2, k) == if k == k0 {
            Some(keys.len() as int)
        } else {
            key_position(keys, k)
        } by {
        if k == k0 {
            lemma_key_position(keys2, k, keys.len() as int);
        } else {
            match key_position(keys, k) {
                Some(j) => {
                    assert(keys2[j] == keys[j]);
                    lemma_key_position(keys2, k, j);
                },
                None => {
                    if key_position(keys2, k) is Some {
                        let j = key_position(keys2, k).unwrap();
                        if j < keys.len() {
                            assert(keys2[j] == keys[j]);
                        }
                    }
                },
            }
        }
    }
}

/// The words of scalars one after the other.
pub open spec fn scalar_words<T: Scalar>(values: Seq<T>) -> Seq<u32>
    decreases values.len(),
{
    if values.len() == 0 {
        Seq::empty()
    } else {
        scalar_words(values.drop_last()) + values.last().spec_to_words()
    }
}

proof fn lemma_scalar_words_len<T: Scalar>(values: Seq<T>)
    ensures
        scalar_words(values).len() == values.len() * T::spec_width(),
    decreases values.len(),
{
    if values.len() > 0 {
        lemma_scalar_words_len(values.drop_last());
        T::lemma_words_roundtrip(values.last());
        assert((values.len() - 1) * T::spec_width() + T::spec_width() == values.len()
            * T::spec_width()) by (nonlinear_arith);
    } else {
        assert(values.len() * T::spec_width() == 0) by (nonlinear_arith)
            requires
                values.len() == 0,
        ;
    }
}

/// Encodes scalars as an array of cells as wide as the scalar: the header
/// word alone (inline) for none, else the array put in front of the buffer.
/// Arrays of `2^30` or more elements, and arrays for which the buffer has no
/// room left, are refused.
pub fn encode_scalar_array<T: Scalar>(values: &[T], buffer: &mut Buffer) -> (r: Result<
    Unit,
    MutableError,
>)
    ensures
        keeps_written(old(buffer).content(), final(buffer).content()),
        values@.len() == 0 ==> final(buffer).content() == old(buffer).content() && (r matches Ok(
            u,
        ) && u.spec_inline() == seq![T::spec_width() as u32] && u.spec_segment() == (Segment {
            pos: 0,
            len: 0,
        })),
        0 < values@.len() < 0x4000_0000 && old(buffer).content().len() + 1 + values@.len()
            * T::spec_width() <= usize::MAX ==> (r matches Ok(u) && final(buffer).content()
            == seq![((values@.len() as u32) << 2u32) | (T::spec_width() as u32)] + scalar_words(
            values@,
        ) + old(buffer).content() && u.spec_inline().len() == 0 && u.spec_segment() == (Segment {
            pos: final(buffer).content().len() as usize,
            len: (final(buffer).content().len() - old(buffer).content().len()) as usize,
        })),
        values@.len() >= 0x4000_0000 || (values@.len() > 0 && old(buffer).content().len() + 1
            + values@.len() * T::spec_width() > usize::MAX) ==> (r is Err && final(buffer).content()
            == old(buffer).content()),
{
    proof {
        lemma_keeps_written_refl(buffer.content());
    }
    let w: usize = T::width();
    let n: usize = values.len();
    if n == 0 {
        let head: [u32; 1] = [w as u32];
        assert(head@ =~= seq![T::spec_width() as u32]);
        return Ok(Unit::inline(head.as_slice()));
    }
    if n >= 0x4000_0000 {
        return Err(serialize_failed("<array>", "<encode>"));
    }
    assert(n * w <= 2 * 0x4000_0000) by (nonlinear_arith)
        requires
            n < 0x4000_0000,
            w <= 2,
    ;
    if buffer.len() > usize::MAX - (n * w + 1) {
        return Err(serialize_failed("<array>", "<encode>"));
    }
    let mut words: Vec<u32> = Vec::new();
    let mut i: usize = 0;
    while i < n
        invariant
            i <= n,
            n == values@.len(),
            n < 0x4000_0000,
            w == T::spec_width(),
            words@ == scalar_words(values@.subrange(0, i as int)),
            words@.len() == i * T::spec_width(),
            1 <= T::spec_width() <= 2,
        decreases n - i,
    {
        let v: T = values[i];
        let mut cell: Vec<u32> = vec![0u32; w];
        proof {
            T::lemma_words_roundtrip(v);
        }
        let _ = v.write_words(cell.as_mut_slice());
        let ghost prev = words@;
        let mut k: usize = 0;
        while k < w
            invariant
                k <= w,
                w == T::spec_width(),
                cell@.len() == w,
                words@ == prev + cell@.subrange(0, k as int),
            decreases w - k,
        {
            words.push(cell[k]);
            k += 1;
            assert(words@ =~= prev + cell@.subrange(0, k as int));
        }
        proof {
            T::lemma_words_roundtrip(v);
            assert(cell@.subrange(0, w as int) =~= cell@);
            assert(values@.subrange(0, (i + 1) as int).drop_last() =~= values@.subrange(
                0,
                i as int,
            ));
            assert((i + 1) * T::spec_width() == i * T::spec_width() + T::spec_width())
                by (nonlinear_arith);
        }
        i += 1;
    }
    proof {
        assert(values@.subrange(0, n as int) =~= values@);
    }
    let last: usize = buffer.len();
    buffer.put_words(words.as_slice());
    buffer.put(((n as u32) << 2u32) | (w as u32));
    proof {
        let ghost before = old(buffer).content();
        assert(buffer.content() =~= seq![((n as u32) << 2u32) | (w as u32)] + words@ + before);
        lemma_keeps_written_prepend(seq![((n as u32) << 2u32) | (w as u32)] + words@, before);
    }
    Ok(Unit::segment(last, buffer.len()))
}

/// Reads all scalars of the array that starts `words`.
pub fn decode_scalar_array<T: Scalar>(words: &[u32]) -> (r: Option<Vec<T>>)
    ensures
        match r {
            Some(v) => spec_array_header(words@) matches Some((len, width)) && width
                == T::spec_width() && v@ == spec_scalars::<T>(
                words@.subrange(1, words@.len() as int),
                len,
            ),
            None => !(spec_array_header(words@) matches Some((len, width)) && width
                == T::spec_width()),
        },
{
    let array = ArrayView::new(words)?;
    let scalars = array.scalars::<T>()?;
    Some(scalars.iter())
}

} // verus!
