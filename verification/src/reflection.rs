//! A validated, lightweight schema model: protobuf file descriptors are
//! registered into a pool of message descriptors whose fields carry the
//! encoding types, with aliases, maps and type names resolved.

use vstd::prelude::*;
use vstd::string::{StrSliceExecFns, StringExecFns};
use vstd::utf8::{decode_utf8, valid_utf8};
use crate::naming::{find_last, last_index_of, lemma_last_index_bounds};

verus! {

/// A part of an option name.
#[derive(Clone, Debug)]
pub struct NamePart {
    pub name_part: String,
    pub is_extension: bool,
}

/// An option as written in the schema, before interpretation.
#[derive(Clone, Debug)]
pub struct UninterpretedOption {
    pub name: Vec<NamePart>,
    pub string_value: Option<Vec<u8>>,
}

/// A field of a message in a file descriptor. `label` and `type_code` are
/// the numbers of descriptor.proto (3 is repeated; 1 to 18 are the types).
#[derive(Clone, Debug)]
pub struct FieldDescriptorProto {
    pub name: String,
    pub number: i32,
    pub label: Option<i32>,
    pub type_code: Option<i32>,
    pub type_ref: String,
    pub deprecated: bool,
    pub options: Vec<UninterpretedOption>,
}

/// A value of an enum in a file descriptor.
#[derive(Clone, Debug)]
pub struct EnumValueDescriptorProto {
    pub name: Option<String>,
    pub number: Option<i32>,
}

/// An enum in a file descriptor.
#[derive(Clone, Debug)]
pub struct EnumDescriptorProto {
    pub name: String,
    pub values: Vec<EnumValueDescriptorProto>,
    pub deprecated: bool,
}

/// A message in a file descriptor, with its nested messages and enums.
#[derive(Debug)]
pub struct DescriptorProto {
    pub name: String,
    pub fields: Vec<FieldDescriptorProto>,
    pub nested_types: Vec<DescriptorProto>,
    pub enum_types: Vec<EnumDescriptorProto>,
    pub map_entry: bool,
    pub deprecated: bool,
    pub options: Vec<UninterpretedOption>,
}

/// A schema file: its package and its top-level enums and messages.
#[derive(Debug)]
pub struct FileDescriptorProto {
    pub package: String,
    pub enum_types: Vec<EnumDescriptorProto>,
    pub message_types: Vec<DescriptorProto>,
}

/// The encoding type of a field.
#[derive(Clone, Copy, Debug, PartialEq, Eq, Structural)]
pub enum FieldType {
    Unset,
    Message,
    Bytes,
    String,
    Double,
    Float,
    Uint64,
    Uint32,
    Int64,
    Int32,
    Bool,
    Enum,
    Unknown,
}

/// A field of a registered message: its id (field number minus one), whether
/// it repeats, its key type for maps (`None` otherwise), its value type and
/// the message it refers to, and its string options.
#[derive(Clone, Debug)]
pub struct Field {
    pub id: usize,
    pub repeated: bool,
    pub key: FieldType,
    pub value: FieldType,
    pub value_type: String,
    pub tags: Vec<(String, String)>,
}

/// A registered message: the single field `_` of an alias, or its fields
/// by name, and its string options.
#[derive(Clone, Debug)]
pub struct Descriptor {
    pub alias: Field,
    pub fields: Vec<(String, Field)>,
    pub tags: Vec<(String, String)>,
}

/// Why a file could not be registered.
#[derive(Clone, Debug)]
pub enum RegisterError {
    DuplicateDescriptor { name: String },
    EmptyMessage { name: String },
    InvalidAlias { name: String },
    InvalidFieldNumber { message: String, field: String, number: i32 },
    DuplicateFieldId { message: String, id: usize },
    OverlySparseFieldIds { name: String, max_field_number: i32, field_count: usize },
    UnsupportedFieldType { message: String, field: String },
    UnsupportedMapKeyType { message: String, field: String, key: FieldType },
    UnknownType { message: String, field: String, type_ref: String },
}

impl Field {
    /// Whether the field is a map.
    pub fn is_map(&self) -> (r: bool)
        ensures
            r == (self.key != FieldType::Unset),
    {
        self.key != FieldType::Unset
    }
}

impl Default for Descriptor {
    /// A message that is no alias and has no fields and no options.
    fn default() -> (r: Self)
        ensures
            r.alias.value == FieldType::Unset,
            r.alias.key == FieldType::Unset,
            r.alias.id == usize::MAX,
            r.fields@.len() == 0,
            r.tags@.len() == 0,
    {
        Descriptor { alias: empty_field(), fields: Vec::new(), tags: Vec::new() }
    }
}

impl Descriptor {
    /// Whether the message is an alias of its single field `_`.
    pub fn is_alias(&self) -> (r: bool)
        ensures
            r == (self.alias.value != FieldType::Unset),
    {
        self.alias.value != FieldType::Unset
    }
}

/// `namespace.name`, or `name` alone in the empty namespace.
pub open spec fn spec_full_name(namespace: Seq<char>, name: Seq<char>) -> Seq<char> {
    if namespace.len() == 0 {
        name
    } else {
        namespace + seq!['.'] + name
    }
}

/// A type name without its leading dots.
pub open spec fn spec_normalize(name: Seq<char>) -> Seq<char>
    decreases name.len(),
{
    if name.len() > 0 && name[0] == '.' {
        spec_normalize(name.drop_first())
    } else {
        name
    }
}

/// The encoding type of a descriptor type number: none for the types a
/// field cannot have (groups and unknown numbers); `Unknown` for messages and
/// enums until their names are resolved, and when the type is not given.
pub open spec fn spec_convert_type(code: Option<i32>) -> Option<FieldType> {
    match code {
        None => Some(FieldType::Unknown),
        Some(c) => if c == 11 || c == 14 {
            Some(FieldType::Unknown)
        } else if c == 12 {
            Some(FieldType::Bytes)
        } else if c == 9 {
            Some(FieldType::String)
        } else if c == 1 {
            Some(FieldType::Double)
        } else if c == 2 {
            Some(FieldType::Float)
        } else if c == 6 || c == 4 {
            Some(FieldType::Uint64)
        } else if c == 7 || c == 13 {
            Some(FieldType::Uint32)
        } else if c == 16 || c == 18 || c == 3 {
            Some(FieldType::Int64)
        } else if c == 15 || c == 17 || c == 5 {
            Some(FieldType::Int32)
        } else if c == 8 {
            Some(FieldType::Bool)
        } else {
            None
        },
    }
}

/// The types a map key can have.
pub open spec fn spec_key_type(value: FieldType) -> Option<FieldType> {
    match value {
        FieldType::String => Some(FieldType::String),
        FieldType::Uint64 => Some(FieldType::Uint64),
        FieldType::Uint32 => Some(FieldType::Uint32),
        FieldType::Int64 => Some(FieldType::Int64),
        FieldType::Int32 => Some(FieldType::Int32),
        _ => None,
    }
}

/// `namespace.name`, or `name` alone in the empty namespace.
pub fn full_name(namespace: &str, name: &str) -> (r: String)
    ensures
        r@ == spec_full_name(namespace@, name@),
{
    if namespace.is_empty() {
        name.to_owned()
    } else {
        let s = String::from_str(namespace).concat(".");
        proof {
            reveal_strlit(".");
        }
        s.concat(name)
    }
}

/// A type name without its leading dots.
pub fn normalize_type_ref(type_ref: &str) -> (r: String)
    ensures
        r@ == spec_normalize(type_ref@),
{
    let n: usize = type_ref.unicode_len();
    let mut k: usize = 0;
    assert(type_ref@.subrange(0, n as int) =~= type_ref@);
    while k < n && type_ref.get_char(k) == '.'
        invariant
            k <= n,
            n == type_ref@.len(),
            spec_normalize(type_ref@) == spec_normalize(type_ref@.subrange(k as int, n as int)),
        decreases n - k,
    {
        proof {
            assert(type_ref@.subrange(k as int, n as int).drop_first() =~= type_ref@.subrange(
                k + 1,
                n as int,
            ));
        }
        k += 1;
    }
    proof {
        let rest = type_ref@.subrange(k as int, n as int);
        assert(!(rest.len() > 0 && rest[0] == '.'));
    }
    String::from_str(type_ref.substring_char(k, n))
}

/// The encoding type of a field's descriptor type number.
pub fn convert_type(field: &FieldDescriptorProto) -> (r: Option<FieldType>)
    ensures
        r == spec_convert_type(field.type_code),
{
    match field.type_code {
        None => Some(FieldType::Unknown),
        Some(c) => {
            if c == 11 || c == 14 {
                Some(FieldType::Unknown)
            } else if c == 12 {
                Some(FieldType::Bytes)
            } else if c == 9 {
                Some(FieldType::String)
            } else if c == 1 {
                Some(FieldType::Double)
            } else if c == 2 {
                Some(FieldType::Float)
            } else if c == 6 || c == 4 {
                Some(FieldType::Uint64)
            } else if c == 7 || c == 13 {
                Some(FieldType::Uint32)
            } else if c == 16 || c == 18 || c == 3 {
                Some(FieldType::Int64)
            } else if c == 15 || c == 17 || c == 5 {
                Some(FieldType::Int32)
            } else if c == 8 {
                Some(FieldType::Bool)
            } else {
                None
            }
        },
    }
}

/// Converting a descriptor type keeps its width and signedness: the unsigned
/// 32-bit types (fixed32 = 7, uint32 = 13) become `Uint32` and the unsigned
/// 64-bit ones (uint64 = 4, fixed64 = 6) `Uint64`; the signed 32-bit types
/// (int32 = 5, sfixed32 = 15, sint32 = 17) become `Int32` and the signed
/// 64-bit ones (int64 = 3, sfixed64 = 16, sint64 = 18) `Int64`. No other
/// descriptor type becomes one of these four.
pub proof fn lemma_convert_type_keeps_sign_and_width(c: i32)
    ensures
        spec_convert_type(Some(c)) == Some(FieldType::Uint32) <==> (c == 7 || c == 13),
        spec_convert_type(Some(c)) == Some(FieldType::Uint64) <==> (c == 4 || c == 6),
        spec_convert_type(Some(c)) == Some(FieldType::Int32) <==> (c == 5 || c == 15 || c == 17),
        spec_convert_type(Some(c)) == Some(FieldType::Int64) <==> (c == 3 || c == 16 || c == 18),
{
}

/// The key type a map can have for a value type, when it can have one.
pub fn as_key_type(value: FieldType) -> (r: Option<FieldType>)
    ensures
        r == spec_key_type(value),
{
    match value {
        FieldType::String => Some(FieldType::String),
        FieldType::Uint64 => Some(FieldType::Uint64),
        FieldType::Uint32 => Some(FieldType::Uint32),
        FieldType::Int64 => Some(FieldType::Int64),
        FieldType::Int32 => Some(FieldType::Int32),
        _ => None,
    }
}

/// Whether no two entries have the same key.
pub open spec fn keys_distinct<V>(entries: Seq<(String, V)>) -> bool {
    forall|i: int, j: int|
        0 <= i < entries.len() && 0 <= j < entries.len() && i != j ==> (#[trigger] entries[i]).0@
            != (#[trigger] entries[j]).0@
}

/// Whether some entry has the key `key`.
pub open spec fn has_key<V>(entries: Seq<(String, V)>, key: Seq<char>) -> bool {
    exists|i: int| 0 <= i < entries.len() && (#[trigger] entries[i]).0@ == key
}

/// The value stored for `key`, when there is one.
pub open spec fn value_of<V>(entries: Seq<(String, V)>, key: Seq<char>) -> Option<V> {
    if has_key(entries, key) {
        Some(entries[choose|i: int| 0 <= i < entries.len() && (#[trigger] entries[i]).0@ == key].1)
    } else {
        None
    }
}

/// Where `key` stands among the entries.
pub(crate) fn find_entry<V>(entries: &Vec<(String, V)>, key: &String) -> (r: Option<usize>)
    ensures
        match r {
            Some(i) => i < entries@.len() && entries@[i as int].0@ == key@,
            None => !has_key(entries@, key@),
        },
{
    let mut i: usize = 0;
    while i < entries.len()
        invariant
            i <= entries@.len(),
            forall|j: int| 0 <= j < i ==> (#[trigger] entries@[j]).0@ != key@,
        decreases entries@.len() - i,
    {
        if entries[i].0 == *key {
            return Some(i);
        }
        i += 1;
    }
    None
}

/// With distinct keys, the value stored for a key is that of the entry
/// holding it.
pub(crate) proof fn lemma_value_of<V>(entries: Seq<(String, V)>, i: int)
    requires
        keys_distinct(entries),
        0 <= i < entries.len(),
    ensures
        value_of(entries, entries[i].0@) == Some(entries[i].1),
{
    let k = entries[i].0@;
    assert(has_key(entries, k));
    let j = choose|j: int| 0 <= j < entries.len() && (#[trigger] entries[j]).0@ == k;
    assert(entries[j].0@ == k);
}

/// Stores `value` for `key`: an entry with that key gets the value in
/// place, else the entry is appended. Gives whether the key was there.
pub(crate) fn insert_entry<V>(entries: &mut Vec<(String, V)>, key: String, value: V) -> (r: bool)
    requires
        keys_distinct(old(entries)@),
    ensures
        keys_distinct(final(entries)@),
        r == has_key(old(entries)@, key@),
        has_key(final(entries)@, key@),
        value_of(final(entries)@, key@) == Some(value),
        forall|k: Seq<char>|
            k != key@ ==> #[trigger] value_of(final(entries)@, k) == value_of(old(entries)@, k),
        forall|k: Seq<char>| #[trigger] has_key(final(entries)@, k) == (has_key(old(entries)@, k) || k == key@),
        forall|i: int|
            0 <= i < final(entries)@.len() ==> (#[trigger] final(entries)@[i]).1 == value || exists|
                j: int,
            | 0 <= j < old(entries)@.len() && #[trigger] old(entries)@[j].1 == final(entries)@[i].1,
        forall|i: int|
            0 <= i < final(entries)@.len() ==> if (#[trigger] final(entries)@[i]).0@ == key@ {
                final(entries)@[i].1 == value
            } else {
                i < old(entries)@.len() && final(entries)@[i] == old(entries)@[i]
            },
{
    let ghost e0 = entries@;
    match find_entry(entries, &key) {
        Some(i) => {
            entries.set(i, (key, value));
            proof {
                let e1 = entries@;
                assert forall|a: int| 0 <= a < e1.len() implies (#[trigger] e1[a]).1 == value || exists|
                    j: int,
                | 0 <= j < e0.len() && #[trigger] e0[j].1 == e1[a].1 by {
                    if a != i {
                        assert(e0[a].1 == e1[a].1);
                    }
                }
                assert forall|a: int, b: int|
                    0 <= a < e1.len() && 0 <= b < e1.len() && a != b implies (#[trigger] e1[a]).0@
                        != (#[trigger] e1[b]).0@ by {
                    assert(e0[a].0@ != e0[b].0@);
                }
                lemma_value_of(e1, i as int);
                assert forall|k: Seq<char>| #[trigger] has_key(e1, k) == (has_key(e0, k) || k == e1[i as int].0@) by {
                    if has_key(e0, k) {
                        let j = choose|j: int| 0 <= j < e0.len() && (#[trigger] e0[j]).0@ == k;
                        assert(e1[j].0@ == k);
                    }
                    if has_key(e1, k) {
                        let j = choose|j: int| 0 <= j < e1.len() && (#[trigger] e1[j]).0@ == k;
                        assert(e0[j].0@ == k);
                    }
                }
                assert forall|k: Seq<char>| k != e1[i as int].0@ implies #[trigger] value_of(e1, k) == value_of(e0, k) by {
                    if has_key(e0, k) {
                        let j = choose|j: int| 0 <= j < e0.len() && (#[trigger] e0[j]).0@ == k;
                        lemma_value_of(e0, j);
                        lemma_value_of(e1, j);
                    }
                }
            }
            true
        },
        None => {
            let ghost kv = key@;
            entries.push((key, value));
            proof {
                let e1 = entries@;
                let n = e0.len() as int;
                assert forall|i: int| 0 <= i < e1.len() implies (#[trigger] e1[i]).1 == value || exists|
                    j: int,
                | 0 <= j < e0.len() && #[trigger] e0[j].1 == e1[i].1 by {
                    if i < n {
                        assert(e0[i].1 == e1[i].1);
                    }
                }
                assert forall|a: int, b: int|
                    0 <= a < e1.len() && 0 <= b < e1.len() && a != b implies (#[trigger] e1[a]).0@
                        != (#[trigger] e1[b]).0@ by {
                    if a < n && b < n {
                        assert(e0[a].0@ != e0[b].0@);
                    } else if a < n {
                        assert(e1[a] == e0[a]);
                    } else if b < n {
                        assert(e1[b] == e0[b]);
                    }
                }
                lemma_value_of(e1, n);
                assert forall|k: Seq<char>| #[trigger] has_key(e1, k) == (has_key(e0, k) || k == kv) by {
                    if has_key(e0, k) {
                        let j = choose|j: int| 0 <= j < e0.len() && (#[trigger] e0[j]).0@ == k;
                        assert(e1[j].0@ == k);
                    }
                    if has_key(e1, k) {
                        let j = choose|j: int| 0 <= j < e1.len() && (#[trigger] e1[j]).0@ == k;
                        if j < n {
                            assert(e0[j].0@ == k);
                        }
                    }
                }
                assert forall|k: Seq<char>| k != kv implies #[trigger] value_of(e1, k) == value_of(e0, k) by {
                    if has_key(e0, k) {
                        let j = choose|j: int| 0 <= j < e0.len() && (#[trigger] e0[j]).0@ == k;
                        lemma_value_of(e0, j);
                        assert(e1[j] == e0[j]);
                        lemma_value_of(e1, j);
                    }
                }
            }
            false
        },
    }
}

/// `String::from_utf8_lossy`: the text of the bytes, with each invalid
/// sequence replaced by U+FFFD; bytes that are valid UTF-8 give exactly the
/// text they encode. Nothing is stated of the replacement for invalid bytes.
#[verifier::external_body]
fn lossy_string(bytes: &[u8]) -> (r: String)
    ensures
        valid_utf8(bytes@) ==> r@ == decode_utf8(bytes@),
{
    String::from_utf8_lossy(bytes).into_owned()
}

/// The string options of a message or field: those named by one plain
/// name part and holding a string; a later option of the same name wins.
fn collect_tags(options: &Vec<UninterpretedOption>) -> (r: Vec<(String, String)>)
    ensures
        keys_distinct(r@),
        forall|k: Seq<char>|
            #[trigger] has_key(r@, k) <==> exists|i: int|
                0 <= i < options@.len() && options@[i].name@.len() == 1
                    && !options@[i].name@[0].is_extension && options@[i].string_value is Some
                    && #[trigger] options@[i].name@[0].name_part@ == k,
        forall|k: Seq<char>| #[trigger] tag_kept(options@, r@, k, options@.len() as int),
{
    let mut tags: Vec<(String, String)> = Vec::new();
    let mut i: usize = 0;
    while i < options.len()
        invariant
            i <= options@.len(),
            keys_distinct(tags@),
            forall|k: Seq<char>|
                #[trigger] has_key(tags@, k) <==> exists|j: int|
                    0 <= j < i && options@[j].name@.len() == 1 && !options@[j].name@[0].is_extension
                        && options@[j].string_value is Some && #[trigger] options@[j].name@[0].name_part@
                        == k,
            forall|k: Seq<char>| #[trigger] tag_kept(options@, tags@, k, i as int),
        decreases options@.len() - i,
    {
        let ghost t0 = tags@;
        let option = &options[i];
        if option.name.len() == 1 {
            let part = &option.name[0];
            if !part.is_extension {
                match &option.string_value {
                    Some(value) => {
                        let text: String = lossy_string(value.as_slice());
                        let ghost tx = text;
                        insert_entry(&mut tags, part.name_part.clone(), text);
                        proof {
                            assert(tag_at(options@, i as int, part.name_part@));
                            assert(tag_text_of(options@[i as int], tx));
                            assert forall|k: Seq<char>| #[trigger] tag_kept(options@, tags@, k, i + 1) by {
                                if k != part.name_part@ {
                                    assert(!tag_at(options@, i as int, k));
                                    assert(value_of(tags@, k) == value_of(t0, k));
                                    assert(tag_kept(options@, t0, k, i as int));
                                }
                            }
                        }
                    },
                    None => {
                        proof {
                            assert forall|k: Seq<char>| #[trigger] tag_kept(options@, tags@, k, i + 1) by {
                                assert(!tag_at(options@, i as int, k));
                                assert(tag_kept(options@, tags@, k, i as int));
                            }
                        }
                    },
                }
            } else {
                proof {
                    assert forall|k: Seq<char>| #[trigger] tag_kept(options@, tags@, k, i + 1) by {
                        assert(!tag_at(options@, i as int, k));
                        assert(tag_kept(options@, tags@, k, i as int));
                    }
                }
            }
        } else {
            proof {
                assert forall|k: Seq<char>| #[trigger] tag_kept(options@, tags@, k, i + 1) by {
                    assert(!tag_at(options@, i as int, k));
                    assert(tag_kept(options@, tags@, k, i as int));
                }
            }
        }
        i += 1;
    }
    tags
}

/// Whether option `j` is a string option named `k`.
pub open spec fn tag_at(options: Seq<UninterpretedOption>, j: int, k: Seq<char>) -> bool {
    &&& options[j].name@.len() == 1
    &&& !options[j].name@[0].is_extension
    &&& options[j].string_value is Some
    &&& options[j].name@[0].name_part@ == k
}

/// The last string option named `k` among the first `i` options.
pub open spec fn last_tag_index(options: Seq<UninterpretedOption>, k: Seq<char>, i: int) -> Option<int>
    decreases i,
{
    if i <= 0 {
        None
    } else if tag_at(options, i - 1, k) {
        Some(i - 1)
    } else {
        last_tag_index(options, k, i - 1)
    }
}

/// Whether the text kept for `k`, if any, is that of the last string
/// option named `k` among the first `i` options.
pub open spec fn tag_kept(options: Seq<UninterpretedOption>, entries: Seq<(String, String)>, k: Seq<char>, i: int) -> bool {
    match value_of(entries, k) {
        Some(t) => last_tag_index(options, k, i) matches Some(j) && tag_text_of(options[j], t),
        None => true,
    }
}

/// Whether `t` is the text of an option's string: the string it encodes
/// when its bytes are valid UTF-8.
pub open spec fn tag_text_of(option: UninterpretedOption, t: String) -> bool {
    option.string_value matches Some(b) && (valid_utf8(b@) ==> t@ == decode_utf8(b@))
}

/// A field that holds nothing: no id, no type.
fn empty_field() -> (r: Field)
    ensures
        r.id == usize::MAX,
        !r.repeated,
        r.key == FieldType::Unset,
        r.value == FieldType::Unset,
        r.value_type@.len() == 0,
        r.tags@.len() == 0,
{
    Field {
        id: usize::MAX,
        repeated: false,
        key: FieldType::Unset,
        value: FieldType::Unset,
        value_type: String::new(),
        tags: Vec::new(),
    }
}

/// Whether an enum value has the name `k` and a number.
pub open spec fn names_value(v: EnumValueDescriptorProto, k: Seq<char>) -> bool {
    match v.name {
        Some(n) => v.number is Some && n@ == k,
        None => false,
    }
}

/// The named values of an enum; a later value of the same name wins.
fn collect_enum_values(item: &EnumDescriptorProto) -> (r: Vec<(String, i32)>)
    ensures
        keys_distinct(r@),
        forall|k: Seq<char>|
            #[trigger] has_key(r@, k) <==> exists|i: int|
                0 <= i < item.values@.len() && #[trigger] names_value(item.values@[i], k),
{
    let mut out: Vec<(String, i32)> = Vec::new();
    let mut i: usize = 0;
    while i < item.values.len()
        invariant
            i <= item.values@.len(),
            keys_distinct(out@),
            forall|k: Seq<char>|
                #[trigger] has_key(out@, k) <==> exists|j: int|
                    0 <= j < i && #[trigger] names_value(item.values@[j], k),
        decreases item.values@.len() - i,
    {
        let value = &item.values[i];
        let ghost prev = out@;
        match (&value.name, value.number) {
            (Some(name), Some(number)) => {
                insert_entry(&mut out, name.clone(), number);
            },
            _ => {},
        }
        proof {
            let vi = item.values@[i as int];
            assert forall|k: Seq<char>| #[trigger] has_key(out@, k) == (has_key(prev, k) || names_value(vi, k)) by {}
            assert forall|k: Seq<char>|
                #[trigger] has_key(out@, k) <==> exists|j: int|
                    0 <= j < i + 1 && #[trigger] names_value(item.values@[j], k) by {
                if names_value(vi, k) {
                    assert(names_value(item.values@[i as int], k));
                }
                if exists|j: int| 0 <= j < i + 1 && #[trigger] names_value(item.values@[j], k) {
                    let j = choose|j: int| 0 <= j < i + 1 && #[trigger] names_value(item.values@[j], k);
                    if j < i {
                        assert(exists|j2: int| 0 <= j2 < i && #[trigger] names_value(item.values@[j2], k));
                    }
                }
            }
        }
        i += 1;
    }
    out
}

/// The largest number a field of a message can have.
pub open spec fn max_field_number_limit() -> int {
    12int + 25 * 255
}

/// The largest field number of `fields`, and at least 1.
pub open spec fn spec_max_number(fields: Seq<FieldDescriptorProto>) -> int
    decreases fields.len(),
{
    if fields.len() == 0 {
        1
    } else {
        let m = spec_max_number(fields.drop_last());
        if fields.last().number > m {
            fields.last().number as int
        } else {
            m
        }
    }
}

/// Whether fields numbered up to `max_number` are too sparse for `count`
/// fields: more than six gaps, and more gaps than fields.
pub open spec fn spec_too_sparse(max_number: int, count: int) -> bool {
    max_number > max_field_number_limit() || (max_number - count > 6 && max_number > count * 2)
}

/// Checks the numbers of a message's fields: there is at least one field,
/// every number is positive, and the numbers are not too large or too
/// sparse.
pub fn validate_field_shape(name: &str, fields: &[FieldDescriptorProto]) -> (r: Result<
    (),
    RegisterError,
>)
    ensures
        fields@.len() == 0 ==> (r matches Err(RegisterError::EmptyMessage { name: n }) && n@
            == name@),
        fields@.len() > 0 && (exists|i: int| 0 <= i < fields@.len() && fields@[i].number <= 0)
            ==> (r matches Err(RegisterError::InvalidFieldNumber { message, field, number })
            && message@ == name@ && number <= 0 && exists|i: int|
            0 <= i < fields@.len() && fields@[i].number == number && fields@[i].name@ == field@
                && forall|j: int| 0 <= j < i ==> fields@[j].number > 0),
        fields@.len() > 0 && (forall|i: int| 0 <= i < fields@.len() ==> fields@[i].number > 0)
            ==> match r {
            Ok(()) => !spec_too_sparse(spec_max_number(fields@), fields@.len() as int),
            Err(RegisterError::OverlySparseFieldIds { name: n, max_field_number, field_count }) => n@
                == name@ && max_field_number == spec_max_number(fields@) && field_count
                == fields@.len() && spec_too_sparse(spec_max_number(fields@), fields@.len() as int),
            _ => false,
        },
{
    let field_count: usize = fields.len();
    if field_count == 0 {
        return Err(RegisterError::EmptyMessage { name: name.to_owned() });
    }
    let mut max_field_number: i32 = 1;
    let mut i: usize = 0;
    while i < field_count
        invariant
            i <= field_count,
            field_count == fields@.len(),
            forall|j: int| 0 <= j < i ==> fields@[j].number > 0,
            max_field_number == spec_max_number(fields@.subrange(0, i as int)),
        decreases field_count - i,
    {
        let number: i32 = fields[i].number;
        if number <= 0 {
            return Err(
                RegisterError::InvalidFieldNumber {
                    message: name.to_owned(),
                    field: fields[i].name.clone(),
                    number,
                },
            );
        }
        proof {
            assert(fields@.subrange(0, (i + 1) as int).drop_last() =~= fields@.subrange(0, i as int));
        }
        if number > max_field_number {
            max_field_number = number;
        }
        i += 1;
    }
    proof {
        assert(fields@.subrange(0, field_count as int) =~= fields@);
    }
    let max_number: usize = max_field_number as usize;
    let sparse: bool = max_field_number > 12 + 25 * 255 || (max_number > field_count && max_number
        - field_count > 6 && (max_number - 1) / 2 >= field_count);
    if sparse {
        return Err(
            RegisterError::OverlySparseFieldIds {
                name: name.to_owned(),
                max_field_number,
                field_count,
            },
        );
    }
    Ok(())
}

} // verus!

verus! {

/// The indices of the fields among the first `k` that are not deprecated,
/// in order.
pub open spec fn live_indices(fields: Seq<FieldDescriptorProto>, k: int) -> Seq<usize>
    decreases k,
{
    if k <= 0 {
        Seq::empty()
    } else if fields[k - 1].deprecated {
        live_indices(fields, k - 1)
    } else {
        live_indices(fields, k - 1).push((k - 1) as usize)
    }
}

/// Whether a message's only live field is `_`, which makes it an alias.
pub open spec fn alias_shape(m: DescriptorProto) -> bool {
    let live = live_indices(m.fields@, m.fields@.len() as int);
    live.len() == 1 && m.fields@[live[0] as int].name@ == "_"@
}

/// The live fields of a message fit it: an alias repeats its field, and
/// the live fields of another message have distinct numbers.
pub open spec fn live_fields_fit(m: DescriptorProto) -> bool {
    let live = live_indices(m.fields@, m.fields@.len() as int);
    &&& alias_shape(m) ==> m.fields@[live[0] as int].label == Some(3i32)
    &&& !alias_shape(m) ==> forall|a: int, b: int|
        0 <= a < live.len() && 0 <= b < live.len() && a != b ==> m.fields@[#[trigger] live[a] as int].number
            != m.fields@[#[trigger] live[b] as int].number
}

/// The ids taken by the first `k` live fields: their numbers, all
/// positive, less one.
pub open spec fn used_ids_match(used: Seq<usize>, fields: Seq<FieldDescriptorProto>, live: Seq<usize>, k: int) -> bool {
    forall|t: int|
        0 <= t < k ==> #[trigger] fields[live[t] as int].number > 0 && used[t] == (fields[live[t] as int].number
            - 1) as usize
}

/// What registration checks of a message and of the messages it nests
/// (neither deprecated nor map entries): it has fields, all numbered from
/// one, not too sparsely, and its live fields fit it.
pub open spec fn message_valid(m: DescriptorProto) -> bool
    decreases m,
{
    &&& m.fields@.len() > 0
    &&& forall|i: int| 0 <= i < m.fields@.len() ==> (#[trigger] m.fields@[i]).number > 0
    &&& !spec_too_sparse(spec_max_number(m.fields@), m.fields@.len() as int)
    &&& live_fields_fit(m)
    &&& forall|i: int|
        0 <= i < m.nested_types@.len() && !(#[trigger] m.nested_types@[i]).deprecated
            && !m.nested_types@[i].map_entry ==> message_valid(m.nested_types@[i])
}

/// Whether every map entry that a live field of a registered message of
/// the file refers to has a key and a value field.
pub open spec fn file_well_formed(file: FileDescriptorProto) -> bool {
    forall|i: int|
        0 <= i < file.message_types@.len() && !(#[trigger] file.message_types@[i]).deprecated ==> refs_whole(
            spec_full_name(file.package@, file.message_types@[i].name@),
            file.message_types@[i],
        )
}

/// Whether the map entry `found`, if any, that field `source` of `message`
/// refers to has a key and a value field; only a message or unresolved
/// type refers to one.
pub open spec fn entry_whole(message: DescriptorProto, found: Option<usize>, source: FieldDescriptorProto) -> bool {
    (spec_convert_type(source.type_code) matches Some(v) && (v == FieldType::Message || v == FieldType::Unknown))
        ==> (found matches Some(i) ==> message.nested_types@[i as int].fields@.len() >= 2)
}

/// Whether every live field of `m` (named `full`), and of the messages it
/// registers, that refers to a map entry refers to one with a key and a
/// value field.
pub open spec fn refs_whole(full: Seq<char>, m: DescriptorProto) -> bool
    decreases m,
{
    &&& forall|i: int|
        0 <= i < m.fields@.len() && !(#[trigger] m.fields@[i]).deprecated ==> entry_whole(
            m,
            entry_index(full, m.nested_types@, m.nested_types@.len() as int, spec_normalize(m.fields@[i].type_ref@)),
            m.fields@[i],
        )
    &&& forall|i: int|
        0 <= i < m.nested_types@.len() && registered_nested(#[trigger] m.nested_types@[i]) ==> refs_whole(
            spec_full_name(full, m.nested_types@[i].name@),
            m.nested_types@[i],
        )
}

/// The live fields are fields that are not deprecated.
proof fn lemma_live_not_deprecated(fields: Seq<FieldDescriptorProto>, k: int, t: int)
    requires
        0 <= k <= fields.len(),
        fields.len() <= usize::MAX,
        0 <= t < live_indices(fields, k).len(),
    ensures
        live_indices(fields, k)[t] < k,
        !fields[live_indices(fields, k)[t] as int].deprecated,
    decreases k,
{
    if k > 0 {
        if fields[k - 1].deprecated {
            lemma_live_not_deprecated(fields, k - 1, t);
        } else if t < live_indices(fields, k - 1).len() {
            lemma_live_not_deprecated(fields, k - 1, t);
        } else {
            assert(t == live_indices(fields, k - 1).len());
            assert(live_indices(fields, k)[t] == (k - 1) as usize);
        }
    }
}

/// Whether a field refers only to what the pool holds: its type is known, a
/// message type names a registered message, and an enum type names nothing.
pub open spec fn field_resolved(descriptors: Seq<(String, Descriptor)>, f: Field) -> bool {
    &&& f.value != FieldType::Unknown
    &&& f.value != FieldType::Unset
    &&& f.value == FieldType::Message ==> has_key(descriptors, f.value_type@)
    &&& f.value == FieldType::Enum ==> f.value_type@.len() == 0
}

/// Whether every field of a message refers only to what the pool holds:
/// the alias of an alias, else each field.
pub open spec fn descriptor_resolved(descriptors: Seq<(String, Descriptor)>, d: Descriptor) -> bool {
    if d.alias.value != FieldType::Unset {
        field_resolved(descriptors, d.alias)
    } else {
        forall|i: int| 0 <= i < d.fields@.len() ==> #[trigger] field_resolved(descriptors, d.fields@[i].1)
    }
}

/// Whether the fields of a message that is no alias have distinct ids.
pub open spec fn ids_distinct(d: Descriptor) -> bool {
    d.alias.value == FieldType::Unset ==> forall|i: int, j: int|
        0 <= i < d.fields@.len() && 0 <= j < d.fields@.len() && i != j ==> (
        #[trigger] d.fields@[i]).1.id != (#[trigger] d.fields@[j]).1.id
}

/// Registered messages and enums, by fully qualified name.
#[derive(Debug)]
pub struct DescriptorPool {
    enums: Vec<String>,
    enum_values: Vec<(String, Vec<(String, i32)>)>,
    descriptors: Vec<(String, Descriptor)>,
}

impl Default for DescriptorPool {
    fn default() -> (r: Self)
        ensures
            r.wf(),
            r.spec_descriptors().len() == 0,
            r.spec_enums().len() == 0,
    {
        DescriptorPool::new()
    }
}

impl DescriptorPool {
    /// The registered enum names.
    pub closed spec fn spec_enums(&self) -> Seq<String> {
        self.enums@
    }

    /// The registered enums' values by name.
    pub closed spec fn spec_enum_values(&self) -> Seq<(String, Vec<(String, i32)>)> {
        self.enum_values@
    }

    /// The registered messages by name.
    pub closed spec fn spec_descriptors(&self) -> Seq<(String, Descriptor)> {
        self.descriptors@
    }

    /// The full names of the registered messages.
    pub open spec fn pool_names(&self) -> Set<Seq<char>> {
        Set::new(|k: Seq<char>| has_key(self.spec_descriptors(), k))
    }

    /// No name is registered twice.
    pub open spec fn wf(&self) -> bool {
        &&& keys_distinct(self.spec_descriptors())
        &&& keys_distinct(self.spec_enum_values())
        &&& forall|i: int|
            0 <= i < self.spec_enum_values().len() ==> keys_distinct(
                (#[trigger] self.spec_enum_values()[i]).1@,
            )
    }

    /// Whether `name` is a registered enum.
    pub open spec fn is_enum(&self, name: Seq<char>) -> bool {
        exists|i: int| 0 <= i < self.spec_enums().len() && (#[trigger] self.spec_enums()[i])@ == name
    }

    /// Every registered message refers only to what the pool holds, and the
    /// fields of each message that is no alias have distinct ids.
    pub open spec fn resolved(&self) -> bool {
        forall|i: int|
            0 <= i < self.spec_descriptors().len() ==> descriptor_resolved(
                self.spec_descriptors(),
                (#[trigger] self.spec_descriptors()[i]).1,
            ) && ids_distinct(self.spec_descriptors()[i].1)
    }

    /// An empty pool.
    pub fn new() -> (r: Self)
        ensures
            r.wf(),
            r.resolved(),
            r.spec_descriptors().len() == 0,
            r.spec_enums().len() == 0,
    {
        DescriptorPool { enums: Vec::new(), enum_values: Vec::new(), descriptors: Vec::new() }
    }

    /// The message registered under `full_name`.
    pub fn find(&self, full_name: &str) -> (r: Option<&Descriptor>)
        requires
            self.wf(),
        ensures
            match value_of(self.spec_descriptors(), full_name@) {
                Some(d) => r == Some(&d),
                None => r is None,
            },
    {
        let key: String = full_name.to_owned();
        match find_entry(&self.descriptors, &key) {
            Some(i) => {
                proof {
                    lemma_value_of(self.descriptors@, i as int);
                }
                Some(&self.descriptors[i].1)
            },
            None => None,
        }
    }

    /// The number of value `variant` of the enum registered under
    /// `enum_name`.
    pub fn find_enum_number(&self, enum_name: &str, variant: &str) -> (r: Option<i32>)
        requires
            self.wf(),
        ensures
            match value_of(self.spec_enum_values(), enum_name@) {
                Some(values) => r == value_of(values@, variant@),
                None => r is None,
            },
    {
        let key: String = enum_name.to_owned();
        match find_entry(&self.enum_values, &key) {
            Some(i) => {
                proof {
                    lemma_value_of(self.enum_values@, i as int);
                }
                let values = &self.enum_values[i].1;
                let name: String = variant.to_owned();
                match find_entry(values, &name) {
                    Some(j) => {
                        proof {
                            lemma_value_of(values@, j as int);
                        }
                        Some(values[j].1)
                    },
                    None => None,
                }
            },
            None => None,
        }
    }

    /// Whether `name` is a registered enum or message.
    fn is_known_type(&self, name: &String) -> (r: bool)
        ensures
            r == (self.is_enum(name@) || has_key(self.spec_descriptors(), name@)),
    {
        let mut i: usize = 0;
        while i < self.enums.len()
            invariant
                i <= self.enums@.len(),
                forall|j: int| 0 <= j < i ==> (#[trigger] self.enums@[j])@ != name@,
            decreases self.enums@.len() - i,
        {
            if self.enums[i] == *name {
                assert(self.spec_enums()[i as int]@ == name@);
                return true;
            }
            i += 1;
        }
        find_entry(&self.descriptors, name).is_some()
    }

    /// Whether `name` is a registered enum.
    fn has_enum(&self, name: &String) -> (r: bool)
        ensures
            r == self.is_enum(name@),
    {
        let mut i: usize = 0;
        while i < self.enums.len()
            invariant
                i <= self.enums@.len(),
                forall|j: int| 0 <= j < i ==> (#[trigger] self.enums@[j])@ != name@,
            decreases self.enums@.len() - i,
        {
            if self.enums[i] == *name {
                assert(self.spec_enums()[i as int]@ == name@);
                return true;
            }
            i += 1;
        }
        false
    }

    /// Registers an enum under `name` with its values.
    fn add_enum(&mut self, name: String, item: &EnumDescriptorProto)
        requires
            old(self).wf(),
        ensures
            final(self).wf(),
            final(self).spec_descriptors() == old(self).spec_descriptors(),
            final(self).is_enum(name@),
            forall|k: Seq<char>| old(self).is_enum(k) ==> #[trigger] final(self).is_enum(k),
    {
        let ghost nv = name@;
        if !self.has_enum(&name) {
            self.enums.push(name.clone());
        }
        let values = collect_enum_values(item);
        insert_entry(&mut self.enum_values, name, values);
        proof {
            if !old(self).is_enum(nv) {
                assert(self.spec_enums()[self.spec_enums().len() - 1]@ == nv);
            }
            assert(self.is_enum(nv));
            assert forall|k: Seq<char>| old(self).is_enum(k) implies #[trigger] self.is_enum(k) by {
                let j = choose|j: int| 0 <= j < old(self).spec_enums().len() && (#[trigger] old(self).spec_enums()[j])@ == k;
                assert(self.spec_enums()[j] == old(self).spec_enums()[j]);
            }
        }
    }
}

} // verus!

verus! {

/// Whether a field's types are set, and a message type or an enum type it
/// already has refers only to what the pool holds.
pub open spec fn field_pending(descriptors: Seq<(String, Descriptor)>, f: Field) -> bool {
    &&& f.value != FieldType::Unset
    &&& f.value == FieldType::Message ==> has_key(descriptors, f.value_type@)
    &&& f.value == FieldType::Enum ==> f.value_type@.len() == 0
}

/// Whether every field of a message is pending.
pub open spec fn descriptor_pending(descriptors: Seq<(String, Descriptor)>, d: Descriptor) -> bool {
    if d.alias.value != FieldType::Unset {
        field_pending(descriptors, d.alias)
    } else {
        forall|i: int| 0 <= i < d.fields@.len() ==> #[trigger] field_pending(descriptors, d.fields@[i].1)
    }
}

impl DescriptorPool {
    /// Every registered message's fields have their types, those it refers
    /// to are held, and the fields of each message that is no alias have
    /// distinct ids.
    pub open spec fn pending(&self) -> bool {
        forall|i: int|
            0 <= i < self.spec_descriptors().len() ==> descriptor_pending(
                self.spec_descriptors(),
                (#[trigger] self.spec_descriptors()[i]).1,
            ) && ids_distinct(self.spec_descriptors()[i].1)
    }
}

/// Holding more names keeps what a pending field refers to.
proof fn lemma_pending_grow(
    d0: Seq<(String, Descriptor)>,
    d1: Seq<(String, Descriptor)>,
    d: Descriptor,
)
    requires
        descriptor_pending(d0, d),
        forall|k: Seq<char>| has_key(d0, k) ==> #[trigger] has_key(d1, k),
    ensures
        descriptor_pending(d1, d),
{
    if d.alias.value == FieldType::Unset {
        assert forall|i: int| 0 <= i < d.fields@.len() implies #[trigger] field_pending(
            d1,
            d.fields@[i].1,
        ) by {
            assert(field_pending(d0, d.fields@[i].1));
        }
    }
}

/// A resolved field or message is pending.
proof fn lemma_resolved_pending(descriptors: Seq<(String, Descriptor)>, d: Descriptor)
    requires
        descriptor_resolved(descriptors, d),
    ensures
        descriptor_pending(descriptors, d),
{
    if d.alias.value == FieldType::Unset {
        assert forall|i: int| 0 <= i < d.fields@.len() implies #[trigger] field_pending(
            descriptors,
            d.fields@[i].1,
        ) by {
            assert(field_resolved(descriptors, d.fields@[i].1));
        }
    }
}

/// The last dot-separated part of a name.
pub open spec fn spec_last_part(name: Seq<char>) -> Seq<char> {
    match last_index_of(name, '.') {
        Some(p) => name.subrange(p + 1, name.len() as int),
        None => name,
    }
}

/// Whether `k` is one of the names under which a map entry `entry`
/// nested in the message `parent` is found: the entry's own name, its full
/// name with and without a leading dot, and the parent's last part joined
/// to it.
pub open spec fn entry_name_of(parent: Seq<char>, entry: Seq<char>, k: Seq<char>) -> bool {
    ||| k == entry
    ||| k == spec_full_name(parent, entry)
    ||| k == seq!['.'] + spec_full_name(parent, entry)
    ||| k == spec_last_part(parent) + seq!['.'] + entry
}

/// Registers the names under which a map-entry message can be referred to:
/// its name, its full name with and without a leading dot, and its name
/// after the last part of its parent's name.
fn register_map_entry_names(
    map_entries: &mut Vec<(String, usize)>,
    parent_name: &str,
    nested: &DescriptorProto,
    index: usize,
)
    requires
        keys_distinct(old(map_entries)@),
    ensures
        keys_distinct(final(map_entries)@),
        forall|i: int|
            0 <= i < final(map_entries)@.len() ==> (#[trigger] final(map_entries)@[i]).1 == index
                || exists|j: int|
                0 <= j < old(map_entries)@.len() && #[trigger] old(map_entries)@[j].1 == final(map_entries)@[i].1,
        forall|k: Seq<char>|
            #[trigger] has_key(final(map_entries)@, k) == (has_key(old(map_entries)@, k) || entry_name_of(
                parent_name@,
                nested.name@,
                k,
            )),
        forall|k: Seq<char>|
            #[trigger] value_of(final(map_entries)@, k) == if entry_name_of(parent_name@, nested.name@, k) {
                Some(index)
            } else {
                value_of(old(map_entries)@, k)
            },
{
    let full: String = full_name(parent_name, nested.name.as_str());
    proof {
        reveal_strlit(".");
    }
    let dotted: String = String::from_str(".").concat(full.as_str());
    let n: usize = parent_name.unicode_len();
    let start: usize = match find_last(parent_name, '.') {
        Some(p) => p + 1,
        None => 0,
    };
    let parent_short: &str = parent_name.substring_char(start, n);
    assert(parent_short@ == spec_last_part(parent_name@));
    let short: String = String::from_str(parent_short).concat(".").concat(nested.name.as_str());
    assert(dotted@ == seq!['.'] + full@);
    assert(short@ == spec_last_part(parent_name@) + seq!['.'] + nested.name@);
    let ghost m0 = map_entries@;
    insert_entry(map_entries, nested.name.clone(), index);
    let ghost m1 = map_entries@;
    insert_entry(map_entries, full, index);
    let ghost m2 = map_entries@;
    insert_entry(map_entries, dotted, index);
    let ghost m3 = map_entries@;
    insert_entry(map_entries, short, index);
    proof {
        let m4 = map_entries@;
        assert forall|i: int| 0 <= i < m4.len() implies (#[trigger] m4[i]).1 == index || exists|
            j: int,
        | 0 <= j < m0.len() && #[trigger] m0[j].1 == m4[i].1 by {
            if m4[i].1 != index {
                let j3 = choose|j: int| 0 <= j < m3.len() && #[trigger] m3[j].1 == m4[i].1;
                let j2 = choose|j: int| 0 <= j < m2.len() && #[trigger] m2[j].1 == m3[j3].1;
                let j1 = choose|j: int| 0 <= j < m1.len() && #[trigger] m1[j].1 == m2[j2].1;
                let j0 = choose|j: int| 0 <= j < m0.len() && #[trigger] m0[j].1 == m1[j1].1;
                assert(m0[j0].1 == m4[i].1);
            }
        }
        assert forall|k: Seq<char>| #[trigger] has_key(m4, k) == (has_key(m0, k) || entry_name_of(
            parent_name@,
            nested.name@,
            k,
        )) by {
            assert(has_key(m1, k) == (has_key(m0, k) || k == nested.name@));
            assert(has_key(m2, k) == (has_key(m1, k) || k == full@));
            assert(has_key(m3, k) == (has_key(m2, k) || k == dotted@));
            assert(has_key(m4, k) == (has_key(m3, k) || k == short@));
        }
        assert forall|k: Seq<char>| #[trigger] value_of(m4, k) == if entry_name_of(
            parent_name@,
            nested.name@,
            k,
        ) {
            Some(index)
        } else {
            value_of(m0, k)
        } by {
            assert(value_of(m1, k) == if k == nested.name@ { Some(index) } else { value_of(m0, k) });
            assert(value_of(m2, k) == if k == full@ { Some(index) } else { value_of(m1, k) });
            assert(value_of(m3, k) == if k == dotted@ { Some(index) } else { value_of(m2, k) });
            assert(value_of(m4, k) == if k == short@ { Some(index) } else { value_of(m3, k) });
        }
    }
}

} // verus!

verus! {

/// What resolving does to a field: one whose type is not known yet gets a
/// resolved type and keeps its id; any other stays as it is.
pub open spec fn field_step(descriptors: Seq<(String, Descriptor)>, before: Field, after: Field) -> bool {
    if before.value == FieldType::Unknown {
        field_resolved(descriptors, after) && after.id == before.id
    } else {
        after == before
    }
}

/// What converting a field gives, before its id and tags.
pub enum ConvertOutcome {
    /// The key type (`Unset` unless a map), the value type and the name of
    /// the value's type.
    Converted(FieldType, FieldType, Seq<char>),
    /// The field, or its map entry's key or value, has a type a field
    /// cannot have.
    Unsupported,
    /// The map entry's key has this type, which no map key can have.
    BadKey(FieldType),
}

/// Whether the options carry a string option named `k`.
pub open spec fn tag_named(options: Seq<UninterpretedOption>, k: Seq<char>) -> bool {
    exists|i: int|
        0 <= i < options.len() && options[i].name@.len() == 1 && !options[i].name@[0].is_extension
            && options[i].string_value is Some && #[trigger] options[i].name@[0].name_part@ == k
}

/// What converting `source`, a field of `message`, gives: a field whose
/// type names one of the map entries `entries` (by a name without leading
/// dots) becomes a map of the entry's key and value types; another
/// message or enum field keeps its type's name for later resolution.
pub open spec fn spec_convert_field(source: FieldDescriptorProto, message: DescriptorProto, entries: Seq<(String, usize)>) -> ConvertOutcome {
    spec_convert_with(source, message, value_of(entries, spec_normalize(source.type_ref@)))
}

/// What converting `source`, a field of `message`, gives when its type's
/// name (without leading dots) names the map entry at `found` among the
/// message's nested messages, or none.
pub open spec fn spec_convert_with(source: FieldDescriptorProto, message: DescriptorProto, found: Option<usize>) -> ConvertOutcome {
    match spec_convert_type(source.type_code) {
        None => ConvertOutcome::Unsupported,
        Some(v) => if v == FieldType::Message || v == FieldType::Unknown {
            let st = spec_normalize(source.type_ref@);
            match found {
                Some(i) => {
                    let e = message.nested_types@[i as int];
                    match spec_convert_type(e.fields@[0].type_code) {
                        None => ConvertOutcome::Unsupported,
                        Some(k) => match spec_key_type(k) {
                            None => ConvertOutcome::BadKey(k),
                            Some(ck) => match spec_convert_type(e.fields@[1].type_code) {
                                None => ConvertOutcome::Unsupported,
                                Some(mv) => ConvertOutcome::Converted(ck, mv, spec_normalize(e.fields@[1].type_ref@)),
                            },
                        },
                    }
                },
                None => ConvertOutcome::Converted(FieldType::Unset, v, st),
            }
        } else {
            ConvertOutcome::Converted(FieldType::Unset, v, Seq::empty())
        },
    }
}

/// Converts a field of `message` (its owner, whose nested map-entry messages
/// `map_entries` names): a field whose type names a map entry becomes a map
/// of the entry's key and value types.
fn convert_field(
    message_name: &str,
    source: &FieldDescriptorProto,
    message: &DescriptorProto,
    map_entries: &Vec<(String, usize)>,
) -> (r: Result<Field, RegisterError>)
    requires
        keys_distinct(map_entries@),
        forall|i: int| 0 <= i < map_entries@.len() ==> (#[trigger] map_entries@[i]).1 < message.nested_types@.len(),
        entry_whole(*message, value_of(map_entries@, spec_normalize(source.type_ref@)), *source),
    ensures
        r matches Ok(f) ==> {
            &&& f.id == 0
            &&& f.value != FieldType::Unset
            &&& f.value != FieldType::Message
            &&& f.value != FieldType::Enum
            &&& f.repeated == (source.label == Some(3i32))
            &&& forall|k: Seq<char>| #[trigger] has_key(f.tags@, k) == tag_named(source.options@, k)
        },
        match spec_convert_field(*source, *message, map_entries@) {
            ConvertOutcome::Converted(k, v, t) => r matches Ok(f) && f.key == k && f.value == v
                && f.value_type@ == t,
            ConvertOutcome::Unsupported => r matches Err(RegisterError::UnsupportedFieldType { message: m, field: fl })
                && m@ == message_name@ && fl@ == source.name@,
            ConvertOutcome::BadKey(k) => r matches Err(
                RegisterError::UnsupportedMapKeyType { message: m, field: fl, key },
            ) && m@ == message_name@ && fl@ == source.name@ && key == k,
        },
{
    let repeated: bool = match source.label {
        Some(l) => l == 3,
        None => false,
    };
    let mut value: FieldType = match convert_type(source) {
        Some(v) => v,
        None => {
            return Err(
                RegisterError::UnsupportedFieldType {
                    message: message_name.to_owned(),
                    field: source.name.clone(),
                },
            );
        },
    };
    let mut key: FieldType = FieldType::Unset;
    let mut value_type: String = String::new();
    if value == FieldType::Message || value == FieldType::Unknown {
        let source_type: String = normalize_type_ref(source.type_ref.as_str());
        match find_entry(map_entries, &source_type) {
            Some(e) => {
                proof {
                    lemma_value_of(map_entries@, e as int);
                }
                let entry: &DescriptorProto = &message.nested_types[map_entries[e].1];
                let map_key: FieldType = match convert_type(&entry.fields[0]) {
                    Some(v) => v,
                    None => {
                        return Err(
                            RegisterError::UnsupportedFieldType {
                                message: message_name.to_owned(),
                                field: source.name.clone(),
                            },
                        );
                    },
                };
                let checked_key: FieldType = match as_key_type(map_key) {
                    Some(k) => k,
                    None => {
                        return Err(
                            RegisterError::UnsupportedMapKeyType {
                                message: message_name.to_owned(),
                                field: source.name.clone(),
                                key: map_key,
                            },
                        );
                    },
                };
                let map_value: FieldType = match convert_type(&entry.fields[1]) {
                    Some(v) => v,
                    None => {
                        return Err(
                            RegisterError::UnsupportedFieldType {
                                message: message_name.to_owned(),
                                field: source.name.clone(),
                            },
                        );
                    },
                };
                key = checked_key;
                value = map_value;
                let nested_type: String = normalize_type_ref(entry.fields[1].type_ref.as_str());
                if !nested_type.as_str().is_empty() {
                    value_type = nested_type;
                }
            },
            None => {
                if !source_type.as_str().is_empty() {
                    value_type = source_type;
                }
            },
        }
    }
    Ok(
        Field {
            id: 0,
            repeated,
            key,
            value,
            value_type,
            tags: collect_tags(&source.options),
        },
    )
}

/// The last of the first `n` nested messages that is a live map entry
/// referred to by `k` from the message named `full`.
pub open spec fn entry_index(full: Seq<char>, nested: Seq<DescriptorProto>, n: int, k: Seq<char>) -> Option<usize>
    decreases n,
{
    if n <= 0 {
        None
    } else if !nested[n - 1].deprecated && nested[n - 1].map_entry && entry_name_of(full, nested[n - 1].name@, k) {
        Some((n - 1) as usize)
    } else {
        entry_index(full, nested, n - 1, k)
    }
}

/// Whether a message, named `full`, passes registration's own checks: it
/// has fields, numbered from one and not too sparsely, its live fields fit
/// it, and each live field converts.
pub open spec fn message_checks(full: Seq<char>, m: DescriptorProto) -> bool {
    let live = live_indices(m.fields@, m.fields@.len() as int);
    &&& m.fields@.len() > 0
    &&& forall|i: int| 0 <= i < m.fields@.len() ==> (#[trigger] m.fields@[i]).number > 0
    &&& !spec_too_sparse(spec_max_number(m.fields@), m.fields@.len() as int)
    &&& live_fields_fit(m)
    &&& forall|t: int|
        0 <= t < live.len() ==> #[trigger] spec_convert_with(
            m.fields@[live[t] as int],
            m,
            entry_index(full, m.nested_types@, m.nested_types@.len() as int, spec_normalize(m.fields@[live[t] as int].type_ref@)),
        ) is Converted
}

/// Whether a nested message is registered as a message of its own.
pub open spec fn registered_nested(c: DescriptorProto) -> bool {
    !c.deprecated && !c.map_entry
}

/// The names registering a message under `ns` adds: its full name and
/// those its registered nested messages add.
pub open spec fn reg_names(ns: Seq<char>, m: DescriptorProto) -> Set<Seq<char>>
    decreases m, m.nested_types@.len() + 1,
{
    let full = spec_full_name(ns, m.name@);
    keys_after(Set::empty(), full, m, m.nested_types@.len() as int).insert(full)
}

/// The names `keys` and those the first `i` registered nested messages of
/// the message named `full` add.
pub open spec fn keys_after(keys: Set<Seq<char>>, full: Seq<char>, m: DescriptorProto, i: int) -> Set<Seq<char>>
    decreases m, i,
{
    if i <= 0 || i > m.nested_types@.len() {
        keys
    } else {
        let prev = keys_after(keys, full, m, i - 1);
        let c = m.nested_types@[i - 1];
        if registered_nested(c) {
            prev.union(reg_names(full, c))
        } else {
            prev
        }
    }
}

/// Whether the first `i` registered nested messages of the message named
/// `full` register one after another over the names `keys`.
pub open spec fn nested_register(keys: Set<Seq<char>>, full: Seq<char>, m: DescriptorProto, i: int) -> bool
    decreases m, i,
{
    if i <= 0 || i > m.nested_types@.len() {
        true
    } else {
        &&& nested_register(keys, full, m, i - 1)
        &&& registered_nested(m.nested_types@[i - 1]) ==> registers(
            keys_after(keys, full, m, i - 1),
            full,
            m.nested_types@[i - 1],
        )
    }
}

/// Whether registering `m` under `ns` into a pool holding the names `keys`
/// succeeds: its nested messages register, it passes its checks, and its
/// full name is new.
pub open spec fn registers(keys: Set<Seq<char>>, ns: Seq<char>, m: DescriptorProto) -> bool
    decreases m, m.nested_types@.len() + 1,
{
    let full = spec_full_name(ns, m.name@);
    &&& nested_register(keys, full, m, m.nested_types@.len() as int)
    &&& message_checks(full, m)
    &&& !keys_after(keys, full, m, m.nested_types@.len() as int).contains(full)
}

/// The names after some registered nested messages are the starting names
/// and those the nested messages add.
proof fn lemma_keys_after_union(keys: Set<Seq<char>>, full: Seq<char>, m: DescriptorProto, i: int)
    ensures
        keys_after(keys, full, m, i) == keys.union(keys_after(Set::empty(), full, m, i)),
    decreases i,
{
    if i <= 0 || i > m.nested_types@.len() {
        assert(keys.union(Set::<Seq<char>>::empty()) =~= keys);
    } else {
        lemma_keys_after_union(keys, full, m, i - 1);
        let c = m.nested_types@[i - 1];
        if registered_nested(c) {
            assert(keys.union(keys_after(Set::empty(), full, m, i - 1)).union(reg_names(full, c)) =~= keys.union(
                keys_after(Set::empty(), full, m, i - 1).union(reg_names(full, c)),
            ));
        }
    }
}

/// Nested messages that register one after another also do so up to any
/// earlier point.
proof fn lemma_nested_register_prefix(keys: Set<Seq<char>>, full: Seq<char>, m: DescriptorProto, i: int, j: int)
    requires
        0 <= i <= j <= m.nested_types@.len(),
        nested_register(keys, full, m, j),
    ensures
        nested_register(keys, full, m, i),
    decreases j - i,
{
    if i < j {
        lemma_nested_register_prefix(keys, full, m, i, j - 1);
    }
}

/// The names `keys` and those the first `i` top-level messages of a file
/// that are not deprecated add.
pub open spec fn file_keys(keys: Set<Seq<char>>, file: FileDescriptorProto, i: int) -> Set<Seq<char>>
    decreases i,
{
    if i <= 0 || i > file.message_types@.len() {
        keys
    } else {
        let prev = file_keys(keys, file, i - 1);
        let m = file.message_types@[i - 1];
        if !m.deprecated {
            prev.union(reg_names(file.package@, m))
        } else {
            prev
        }
    }
}

/// Whether the first `i` top-level messages of a file that are not
/// deprecated register one after another over the names `keys`.
pub open spec fn file_registers(keys: Set<Seq<char>>, file: FileDescriptorProto, i: int) -> bool
    decreases i,
{
    if i <= 0 || i > file.message_types@.len() {
        true
    } else {
        &&& file_registers(keys, file, i - 1)
        &&& !file.message_types@[i - 1].deprecated ==> registers(
            file_keys(keys, file, i - 1),
            file.package@,
            file.message_types@[i - 1],
        )
    }
}

/// Top-level messages that register one after another also do so up to
/// any earlier point.
proof fn lemma_file_registers_prefix(keys: Set<Seq<char>>, file: FileDescriptorProto, i: int, j: int)
    requires
        0 <= i <= j <= file.message_types@.len(),
        file_registers(keys, file, j),
    ensures
        file_registers(keys, file, i),
    decreases j - i,
{
    if i < j {
        lemma_file_registers_prefix(keys, file, i, j - 1);
    }
}

/// The names a fresh pool holds after the first `i` files register.
pub open spec fn files_keys(files: Seq<FileDescriptorProto>, i: int) -> Set<Seq<char>>
    decreases i,
{
    if i <= 0 || i > files.len() {
        Set::empty()
    } else {
        file_keys(files_keys(files, i - 1), files[i - 1], files[i - 1].message_types@.len() as int)
    }
}

/// Whether the top-level messages of the first `i` files register, file
/// after file, into a fresh pool.
pub open spec fn files_register(files: Seq<FileDescriptorProto>, i: int) -> bool
    decreases i,
{
    if i <= 0 || i > files.len() {
        true
    } else {
        &&& files_register(files, i - 1)
        &&& file_registers(files_keys(files, i - 1), files[i - 1], files[i - 1].message_types@.len() as int)
    }
}

/// Files that register one after another also do so up to any earlier
/// point.
proof fn lemma_files_register_prefix(files: Seq<FileDescriptorProto>, i: int, j: int)
    requires
        0 <= i <= j <= files.len(),
        files_register(files, j),
    ensures
        files_register(files, i),
    decreases j - i,
{
    if i < j {
        lemma_files_register_prefix(files, i, j - 1);
    }
}

/// Whether no live field after the `t`-th (before the `k`-th) has the
/// `t`-th live field's name.
pub open spec fn last_of_name(fields: Seq<FieldDescriptorProto>, live: Seq<usize>, t: int, k: int) -> bool {
    forall|u: int| t < u < k ==> #[trigger] fields[live[u] as int].name@ != fields[live[t] as int].name@
}

/// Whether `x` is what registration makes of field `f` of message `m`: its
/// id is one less than its number, it repeats when `f` does, its tags are
/// `f`'s, and its types are those `f` converts to.
pub open spec fn stored_field(f: FieldDescriptorProto, m: DescriptorProto, x: Field) -> bool {
    &&& x.id == f.number - 1
    &&& x.repeated == (f.label == Some(3i32))
    &&& forall|k: Seq<char>| #[trigger] has_key(x.tags@, k) == tag_named(f.options@, k)
    &&& exists|entries: Seq<(String, usize)>|
        #[trigger] spec_convert_field(f, m, entries) == ConvertOutcome::Converted(x.key, x.value, x.value_type@)
}

/// Whether `d` holds what registration stores for `m`: for an alias, its
/// field `_`, repeated, and no fields by name; else no alias, each live
/// field under its name (the last live field of a name wins), and no other
/// name.
pub open spec fn descriptor_holds(d: Descriptor, m: DescriptorProto) -> bool {
    let live = live_indices(m.fields@, m.fields@.len() as int);
    if alias_shape(m) {
        &&& d.fields@.len() == 0
        &&& d.alias.repeated
        &&& d.alias.value != FieldType::Unset
        &&& forall|k: Seq<char>| #[trigger] has_key(d.alias.tags@, k) == tag_named(m.fields@[live[0] as int].options@, k)
        &&& exists|entries: Seq<(String, usize)>|
            #[trigger] spec_convert_field(m.fields@[live[0] as int], m, entries) == ConvertOutcome::Converted(
                d.alias.key,
                d.alias.value,
                d.alias.value_type@,
            )
    } else {
        &&& d.alias.value == FieldType::Unset
        &&& forall|t: int|
            0 <= t < live.len() && #[trigger] last_of_name(m.fields@, live, t, live.len() as int)
                ==> (value_of(d.fields@, m.fields@[live[t] as int].name@) matches Some(x) && stored_field(
                m.fields@[live[t] as int],
                m,
                x,
            ))
        &&& forall|k: Seq<char>|
            #[trigger] has_key(d.fields@, k) ==> exists|t: int|
                0 <= t < live.len() && (#[trigger] m.fields@[live[t] as int]).name@ == k
    }
}

impl DescriptorPool {
    /// Registers a message and the enums and messages nested in it under
    /// `namespace`: map entries are not registered themselves, a message of
    /// a single live field `_` is an alias of it, and the other messages get
    /// their live fields by name with ids from their numbers.
    fn register_message(&mut self, namespace: &str, message: &DescriptorProto) -> (r: Result<
        (),
        RegisterError,
    >)
        requires
            old(self).wf(),
            refs_whole(spec_full_name(namespace@, message.name@), *message),
        ensures
            final(self).wf(),
            forall|k: Seq<char>|
                has_key(old(self).spec_descriptors(), k) ==> #[trigger] has_key(
                    final(self).spec_descriptors(),
                    k,
                ),
            forall|k: Seq<char>| old(self).is_enum(k) ==> #[trigger] final(self).is_enum(k),
            r is Ok && old(self).pending() ==> final(self).pending(),
            r is Ok ==> has_key(
                final(self).spec_descriptors(),
                spec_full_name(namespace@, message.name@),
            ),
            r is Ok ==> message_valid(*message),
            r is Ok ==> (value_of(final(self).spec_descriptors(), spec_full_name(namespace@, message.name@)) matches Some(d)
                && descriptor_holds(d, *message)),
            registers(old(self).pool_names(), namespace@, *message) <==> r is Ok,
            r is Ok ==> forall|k: Seq<char>|
                #[trigger] has_key(final(self).spec_descriptors(), k) == (has_key(old(self).spec_descriptors(), k)
                    || reg_names(namespace@, *message).contains(k)),
        decreases message,
    {
        let message_name: String = full_name(namespace, message.name.as_str());
        let ghost ok: bool = old(self).pending();
        let ghost keys0 = old(self).pool_names();
        let ghost full = message_name@;
        let ghost reg_ok: bool = registers(keys0, namespace@, *message);
        let mut e: usize = 0;
        while e < message.enum_types.len()
            invariant
                e <= message.enum_types@.len(),
                self.wf(),
                forall|k: Seq<char>|
                    has_key(old(self).spec_descriptors(), k) ==> #[trigger] has_key(
                        self.spec_descriptors(),
                        k,
                    ),
                forall|k: Seq<char>| old(self).is_enum(k) ==> #[trigger] self.is_enum(k),
                ok == old(self).pending(),
                ok ==> self.pending(),
                self.spec_descriptors() == old(self).spec_descriptors(),
            decreases message.enum_types@.len() - e,
        {
            let item: &EnumDescriptorProto = &message.enum_types[e];
            if !item.deprecated {
                let name: String = full_name(message_name.as_str(), item.name.as_str());
                let ghost before = *self;
                self.add_enum(name, item);
                proof {
                    assert forall|k: Seq<char>| before.is_enum(k) implies #[trigger] self.is_enum(k) by {}
                }
            }
            e += 1;
        }
        let mut map_entries: Vec<(String, usize)> = Vec::new();
        let mut n: usize = 0;
        while n < message.nested_types.len()
            invariant
                n <= message.nested_types@.len(),
                refs_whole(spec_full_name(namespace@, message.name@), *message),
                self.wf(),
                forall|k: Seq<char>|
                    has_key(old(self).spec_descriptors(), k) ==> #[trigger] has_key(
                        self.spec_descriptors(),
                        k,
                    ),
                forall|k: Seq<char>| old(self).is_enum(k) ==> #[trigger] self.is_enum(k),
                ok == old(self).pending(),
                ok ==> self.pending(),
                keys_distinct(map_entries@),
                forall|i: int|
                    0 <= i < map_entries@.len() ==> (#[trigger] map_entries@[i]).1 < message.nested_types@.len(),
                forall|i: int|
                    0 <= i < n && !(#[trigger] message.nested_types@[i]).deprecated
                        && !message.nested_types@[i].map_entry ==> message_valid(message.nested_types@[i]),
                full == message_name@,
                full == spec_full_name(namespace@, message.name@),
                keys0 == old(self).pool_names(),
                reg_ok == registers(keys0, namespace@, *message),
                forall|k: Seq<char>|
                    #[trigger] has_key(self.spec_descriptors(), k) == keys_after(keys0, full, *message, n as int).contains(k),
                forall|k: Seq<char>|
                    #[trigger] value_of(map_entries@, k) == entry_index(full, message.nested_types@, n as int, k),
                nested_register(keys0, full, *message, n as int),
            decreases message.nested_types@.len() - n,
        {
            let nested: &DescriptorProto = &message.nested_types[n];
            if nested.deprecated {
                proof {
                    assert(keys_after(keys0, full, *message, n + 1) == keys_after(keys0, full, *message, n as int));
                    assert forall|k: Seq<char>| #[trigger] value_of(map_entries@, k) == entry_index(
                        full,
                        message.nested_types@,
                        n + 1,
                        k,
                    ) by {
                        assert(value_of(map_entries@, k) == entry_index(full, message.nested_types@, n as int, k));
                    }
                    assert(nested_register(keys0, full, *message, n + 1));
                }
                n += 1;
                continue;
            }
            if nested.map_entry {
                let ghost m0 = map_entries@;
                register_map_entry_names(&mut map_entries, message_name.as_str(), nested, n);
                proof {
                    assert(keys_after(keys0, full, *message, n + 1) == keys_after(keys0, full, *message, n as int));
                    assert forall|k: Seq<char>| #[trigger] value_of(map_entries@, k) == entry_index(
                        full,
                        message.nested_types@,
                        n + 1,
                        k,
                    ) by {
                        assert(value_of(m0, k) == entry_index(full, message.nested_types@, n as int, k));
                    }
                    assert(nested_register(keys0, full, *message, n + 1));
                    assert forall|i: int| 0 <= i < map_entries@.len() implies (#[trigger] map_entries@[i]).1
                        < message.nested_types@.len() by {
                        if map_entries@[i].1 != n {
                            let j = choose|j: int| 0 <= j < m0.len() && #[trigger] m0[j].1 == map_entries@[i].1;
                            assert(m0[j].1 < message.nested_types@.len());
                        }
                    }
                }
                n += 1;
                continue;
            }
            let ghost before = *self;
            proof {
                assert(registered_nested(message.nested_types@[n as int]));
                assert(before.pool_names() =~= keys_after(keys0, full, *message, n as int));
                if reg_ok {
                    lemma_nested_register_prefix(keys0, full, *message, n + 1, message.nested_types@.len() as int);
                    assert(registers(before.pool_names(), full, *nested));
                }
            }
            match self.register_message(message_name.as_str(), nested) {
                Ok(()) => {},
                Err(err) => {
                    return Err(err);
                },
            }
            proof {
                assert forall|k: Seq<char>|
                    #[trigger] has_key(self.spec_descriptors(), k) == keys_after(keys0, full, *message, n + 1).contains(k) by {
                    assert(has_key(before.spec_descriptors(), k) == keys_after(keys0, full, *message, n as int).contains(k));
                }
                assert forall|k: Seq<char>| #[trigger] value_of(map_entries@, k) == entry_index(
                    full,
                    message.nested_types@,
                    n + 1,
                    k,
                ) by {
                    assert(value_of(map_entries@, k) == entry_index(full, message.nested_types@, n as int, k));
                }
                assert(registers(keys_after(keys0, full, *message, n as int), full, *nested));
                assert(nested_register(keys0, full, *message, n + 1));
                assert forall|k: Seq<char>|
                    has_key(old(self).spec_descriptors(), k) implies #[trigger] has_key(
                        self.spec_descriptors(),
                        k,
                    ) by {
                    assert(has_key(before.spec_descriptors(), k));
                }
                assert forall|k: Seq<char>| old(self).is_enum(k) implies #[trigger] self.is_enum(k) by {
                    assert(before.is_enum(k));
                }
            }
            n += 1;
        }
        let ghost nlen = message.nested_types@.len() as int;
        if message.fields.len() == 0 {
            proof {
                assert(!message_checks(full, *message));
            }
            return Err(RegisterError::EmptyMessage { name: message_name });
        }
        match validate_field_shape(message_name.as_str(), message.fields.as_slice()) {
            Ok(()) => {},
            Err(err) => {
                proof {
                    if forall|i: int| 0 <= i < message.fields@.len() ==> (#[trigger] message.fields@[i]).number > 0 {
                        assert(spec_too_sparse(spec_max_number(message.fields@), message.fields@.len() as int));
                    }
                    assert(!message_checks(full, *message));
                }
                return Err(err);
            },
        }
        let mut live: Vec<usize> = Vec::new();
        let mut f: usize = 0;
        while f < message.fields.len()
            invariant
                f <= message.fields@.len(),
                forall|i: int| 0 <= i < live@.len() ==> #[trigger] live@[i] < message.fields@.len(),
                live@ == live_indices(message.fields@, f as int),
            decreases message.fields@.len() - f,
        {
            if !message.fields[f].deprecated {
                live.push(f);
            }
            f += 1;
        }
        let tags: Vec<(String, String)> = collect_tags(&message.options);
        let alias: Field;
        let mut fields: Vec<(String, Field)> = Vec::new();
        let underscore: String = String::from_str("_");
        if live.len() == 1 && message.fields[live[0]].name == underscore {
            let field: &FieldDescriptorProto = &message.fields[live[0]];
            let repeated: bool = match field.label {
                Some(l) => l == 3,
                None => false,
            };
            if !repeated {
                proof {
                    assert(alias_shape(*message));
                    assert(!live_fields_fit(*message));
                }
                return Err(RegisterError::InvalidAlias { name: message_name });
            }
            proof {
                lemma_live_not_deprecated(message.fields@, message.fields@.len() as int, 0);
                let st = spec_normalize(field.type_ref@);
                assert(message.fields@[live@[0] as int] == *field);
                assert(value_of(map_entries@, st) == entry_index(full, message.nested_types@, nlen, st));
                assert(entry_whole(*message, value_of(map_entries@, st), *field));
            }
            alias = match convert_field(message_name.as_str(), field, message, &map_entries) {
                Ok(a) => a,
                Err(err) => {
                    proof {
                        let st = spec_normalize(field.type_ref@);
                        assert(value_of(map_entries@, st) == entry_index(full, message.nested_types@, nlen, st));
                        assert(message.fields@[live@[0] as int] == *field);
                        assert(!(spec_convert_with(
                            message.fields@[live@[0] as int],
                            *message,
                            entry_index(full, message.nested_types@, nlen, st),
                        ) is Converted));
                        assert(!message_checks(full, *message));
                    }
                    return Err(err);
                },
            };
            assert(alias_shape(*message));
            assert(live_fields_fit(*message));
            proof {
                let st = spec_normalize(field.type_ref@);
                assert(value_of(map_entries@, st) == entry_index(full, message.nested_types@, nlen, st));
                assert(message.fields@[live@[0] as int] == *field);
                assert(spec_convert_with(
                    message.fields@[live@[0] as int],
                    *message,
                    entry_index(full, message.nested_types@, nlen, st),
                ) is Converted);
            }
        } else {
            assert(!alias_shape(*message));
            alias = empty_field();
            let mut used: Vec<usize> = Vec::new();
            let mut k: usize = 0;
            while k < live.len()
                invariant
                    k <= live@.len(),
                    self.wf(),
                    forall|k: Seq<char>|
                        has_key(old(self).spec_descriptors(), k) ==> #[trigger] has_key(
                            self.spec_descriptors(),
                            k,
                        ),
                    forall|k: Seq<char>| old(self).is_enum(k) ==> #[trigger] self.is_enum(k),
                    ok == old(self).pending(),
                    ok ==> self.pending(),
                    forall|i: int| 0 <= i < live@.len() ==> #[trigger] live@[i] < message.fields@.len(),
                    forall|i: int|
                        0 <= i < map_entries@.len() ==> (#[trigger] map_entries@[i]).1 < message.nested_types@.len(),
                    refs_whole(full, *message),
                    message.fields@.len() <= usize::MAX,
                    keys_distinct(fields@),
                    keys_distinct(map_entries@),
                    forall|i: int, j: int|
                        0 <= i < used@.len() && 0 <= j < used@.len() && i != j ==> #[trigger] used@[i]
                            != #[trigger] used@[j],
                    forall|i: int|
                        0 <= i < fields@.len() ==> exists|j: int|
                            0 <= j < used@.len() && #[trigger] used@[j] == (#[trigger] fields@[i]).1.id,
                    forall|i: int, j: int|
                        0 <= i < fields@.len() && 0 <= j < fields@.len() && i != j ==> (
                        #[trigger] fields@[i]).1.id != (#[trigger] fields@[j]).1.id,
                    forall|i: int|
                        0 <= i < fields@.len() ==> (#[trigger] fields@[i]).1.value != FieldType::Unset
                            && fields@[i].1.value != FieldType::Message && fields@[i].1.value
                            != FieldType::Enum,
                    used@.len() == k,
                    used_ids_match(used@, message.fields@, live@, k as int),
                    forall|t: int|
                        0 <= t < k && #[trigger] last_of_name(message.fields@, live@, t, k as int) ==> (value_of(
                            fields@,
                            message.fields@[live@[t] as int].name@,
                        ) matches Some(x) && stored_field(message.fields@[live@[t] as int], *message, x)),
                    forall|key: Seq<char>|
                        #[trigger] has_key(fields@, key) ==> exists|t: int|
                            0 <= t < k && (#[trigger] message.fields@[live@[t] as int]).name@ == key,
                    forall|key: Seq<char>|
                        #[trigger] value_of(map_entries@, key) == entry_index(full, message.nested_types@, nlen, key),
                    full == message_name@,
                    nlen == message.nested_types@.len(),
                    keys0 == old(self).pool_names(),
                    reg_ok == registers(keys0, namespace@, *message),
                    full == spec_full_name(namespace@, message.name@),
                    !alias_shape(*message),
                    live@ == live_indices(message.fields@, message.fields@.len() as int),
                    forall|i: int| 0 <= i < message.fields@.len() ==> (#[trigger] message.fields@[i]).number > 0,
                    nested_register(keys0, full, *message, nlen),
                    forall|t: int|
                        0 <= t < k ==> #[trigger] spec_convert_with(
                            message.fields@[live@[t] as int],
                            *message,
                            entry_index(full, message.nested_types@, nlen, spec_normalize(message.fields@[live@[t] as int].type_ref@)),
                        ) is Converted,
                decreases live@.len() - k,
            {
                let field: &FieldDescriptorProto = &message.fields[live[k]];
                let number: i32 = field.number;
                proof {
                    assert(message.fields@[live@[k as int] as int] == *field);
                }
                if number <= 0 {
                    return Err(
                        RegisterError::InvalidFieldNumber {
                            message: message_name,
                            field: field.name.clone(),
                            number,
                        },
                    );
                }
                let id: usize = (number - 1) as usize;
                let mut seen: bool = false;
                let mut u: usize = 0;
                while u < used.len()
                    invariant
                        u <= used@.len(),
                        seen ==> exists|j: int| 0 <= j < used@.len() && used@[j] == id,
                        !seen ==> forall|j: int| 0 <= j < u ==> used@[j] != id,
                    decreases used@.len() - u,
                {
                    if used[u] == id {
                        seen = true;
                    }
                    u += 1;
                }
                if seen {
                    proof {
                        let j = choose|j: int| 0 <= j < used@.len() && used@[j] == id;
                        assert(used_ids_match(used@, message.fields@, live@, k as int));
                        assert(message.fields@[live@[j] as int].number > 0);
                        assert(message.fields@[live@[j] as int].number == message.fields@[live@[k as int] as int].number);
                        assert(!live_fields_fit(*message));
                    }
                    return Err(RegisterError::DuplicateFieldId { message: message_name, id });
                }
                proof {
                    lemma_live_not_deprecated(message.fields@, message.fields@.len() as int, k as int);
                    let st = spec_normalize(field.type_ref@);
                    assert(value_of(map_entries@, st) == entry_index(full, message.nested_types@, nlen, st));
                    assert(entry_whole(*message, value_of(map_entries@, st), *field));
                }
                let mut converted: Field = match convert_field(
                    message_name.as_str(),
                    field,
                    message,
                    &map_entries,
                ) {
                    Ok(c) => c,
                    Err(err) => {
                        proof {
                            let st = spec_normalize(field.type_ref@);
                            assert(value_of(map_entries@, st) == entry_index(full, message.nested_types@, nlen, st));
                            assert(!(spec_convert_with(
                                message.fields@[live@[k as int] as int],
                                *message,
                                entry_index(full, message.nested_types@, nlen, st),
                            ) is Converted));
                            assert(!message_checks(full, *message));
                        }
                        return Err(err);
                    },
                };
                proof {
                    let st = spec_normalize(field.type_ref@);
                    assert(value_of(map_entries@, st) == entry_index(full, message.nested_types@, nlen, st));
                    assert(spec_convert_with(
                        message.fields@[live@[k as int] as int],
                        *message,
                        entry_index(full, message.nested_types@, nlen, st),
                    ) is Converted);
                }
                converted.id = id;
                let ghost used0 = used@;
                let ghost fields0 = fields@;
                used.push(id);
                let ghost cv = converted;
                insert_entry(&mut fields, field.name.clone(), converted);
                proof {
                    let used1 = used@;
                    let fs = fields@;
                    assert forall|i: int|
                        0 <= i < fs.len() implies exists|j: int|
                            0 <= j < used1.len() && #[trigger] used1[j] == (#[trigger] fs[i]).1.id by {
                        if fs[i].1 == cv {
                            assert(used1[used0.len() as int] == id);
                        } else {
                            let j = choose|j: int| 0 <= j < fields0.len() && #[trigger] fields0[j].1 == fs[i].1;
                            let w = choose|w: int| 0 <= w < used0.len() && #[trigger] used0[w] == fields0[j].1.id;
                            assert(used1[w] == used0[w]);
                        }
                    }
                    assert forall|i: int, j: int|
                        0 <= i < used1.len() && 0 <= j < used1.len() && i != j implies #[trigger] used1[i]
                            != #[trigger] used1[j] by {
                        if i < used0.len() && j < used0.len() {
                            assert(used0[i] != used0[j]);
                        } else if i < used0.len() {
                            assert(used1[i] == used0[i]);
                        } else if j < used0.len() {
                            assert(used1[j] == used0[j]);
                        }
                    }
                    assert forall|i: int| 0 <= i < fs.len() implies (#[trigger] fs[i]).1.value
                        != FieldType::Unset && fs[i].1.value != FieldType::Message && fs[i].1.value
                        != FieldType::Enum by {
                        if fs[i].1 != cv {
                            let j = choose|j: int| 0 <= j < fields0.len() && #[trigger] fields0[j].1 == fs[i].1;
                            assert(fields0[j].1.value != FieldType::Unset);
                        }
                    }
                    assert forall|i: int, j: int|
                        0 <= i < fs.len() && 0 <= j < fs.len() && i != j implies (
                        #[trigger] fs[i]).1.id != (#[trigger] fs[j]).1.id by {
                        if fs[i].1 == cv && fs[j].1 != cv {
                            let j0 = choose|w: int| 0 <= w < fields0.len() && #[trigger] fields0[w].1 == fs[j].1;
                            let w = choose|w: int| 0 <= w < used0.len() && #[trigger] used0[w] == fields0[j0].1.id;
                            assert(used0[w] != id);
                        } else if fs[j].1 == cv && fs[i].1 != cv {
                            let i0 = choose|w: int| 0 <= w < fields0.len() && #[trigger] fields0[w].1 == fs[i].1;
                            let w = choose|w: int| 0 <= w < used0.len() && #[trigger] used0[w] == fields0[i0].1.id;
                            assert(used0[w] != id);
                        } else if fs[i].1 != cv && fs[j].1 != cv {
                            assert(fs[i] == fields0[i] && fs[j] == fields0[j]);
                        } else {
                            if fs[i].0@ != field.name@ {
                                let w = choose|w: int| 0 <= w < used0.len() && #[trigger] used0[w] == fields0[i].1.id;
                                assert(used0[w] != id);
                            } else if fs[j].0@ != field.name@ {
                                let w = choose|w: int| 0 <= w < used0.len() && #[trigger] used0[w] == fields0[j].1.id;
                                assert(used0[w] != id);
                            }
                        }
                    }
                }
                proof {
                    let fs = fields@;
                    let me = map_entries@;
                    assert(spec_convert_field(*field, *message, me) == ConvertOutcome::Converted(
                        cv.key,
                        cv.value,
                        cv.value_type@,
                    ));
                    assert(stored_field(*field, *message, cv));
                    assert forall|t: int|
                        0 <= t < k + 1 && #[trigger] last_of_name(message.fields@, live@, t, k + 1) implies (value_of(
                        fs,
                        message.fields@[live@[t] as int].name@,
                    ) matches Some(x) && stored_field(message.fields@[live@[t] as int], *message, x)) by {
                        if t < k {
                            assert(message.fields@[live@[k as int] as int] == *field);
                            assert(message.fields@[live@[k as int] as int].name@ != message.fields@[live@[t] as int].name@);
                            assert(last_of_name(message.fields@, live@, t, k as int));
                        } else {
                            assert(message.fields@[live@[t] as int] == *field);
                        }
                    }
                    assert forall|key: Seq<char>| #[trigger] has_key(fs, key) implies exists|t: int|
                        0 <= t < k + 1 && (#[trigger] message.fields@[live@[t] as int]).name@ == key by {
                        if key == field.name@ {
                            assert(message.fields@[live@[k as int] as int] == *field);
                        } else {
                            assert(has_key(fields0, key));
                        }
                    }
                }
                let ghost k0 = k;
                k += 1;
                assert forall|t: int| 0 <= t < k implies #[trigger] message.fields@[live@[t] as int].number > 0
                    && used@[t] == (message.fields@[live@[t] as int].number - 1) as usize by {
                    if t < k0 {
                        assert(used@[t] == used0[t]);
                        assert(used_ids_match(used0, message.fields@, live@, k0 as int));
                    } else {
                        assert(used@[t] == id);
                        assert(message.fields@[live@[t] as int] == *field);
                    }
                }
                assert(used_ids_match(used@, message.fields@, live@, k as int));
            }
            assert(!alias_shape(*message));
            assert forall|a: int, b: int|
                0 <= a < live@.len() && 0 <= b < live@.len() && a != b implies message.fields@[#[trigger] live@[a] as int].number
                    != message.fields@[#[trigger] live@[b] as int].number by {
                assert(used@[a] != used@[b]);
                assert(message.fields@[live@[a] as int].number > 0);
                assert(message.fields@[live@[b] as int].number > 0);
            }
            assert(live_fields_fit(*message));
        }
        assert(message_valid(*message));
        let descriptor = Descriptor { alias, fields, tags };
        let name_copy: String = message_name.clone();
        let ghost d0 = self.spec_descriptors();
        let ghost before = *self;
        let ghost dv = descriptor;
        let replaced: bool = insert_entry(&mut self.descriptors, message_name, descriptor);
        proof {
            let d1 = self.spec_descriptors();
            assert(self.spec_enums() == before.spec_enums());
            assert forall|k: Seq<char>| old(self).is_enum(k) implies #[trigger] self.is_enum(k) by {
                assert(before.is_enum(k));
                let j = choose|j: int| 0 <= j < before.spec_enums().len() && (#[trigger] before.spec_enums()[j])@ == k;
                assert(self.spec_enums()[j]@ == k);
            }
            assert forall|k: Seq<char>| has_key(d0, k) implies #[trigger] has_key(d1, k) by {}
            assert forall|k: Seq<char>|
                has_key(old(self).spec_descriptors(), k) implies #[trigger] has_key(d1, k) by {
                assert(has_key(d0, k));
            }
            if ok {
                assert forall|i: int| 0 <= i < d1.len() implies descriptor_pending(
                    d1,
                    (#[trigger] d1[i]).1,
                ) && ids_distinct(d1[i].1) by {
                    if d1[i].1 == dv {
                        if dv.alias.value == FieldType::Unset {
                            assert forall|j: int| 0 <= j < dv.fields@.len() implies #[trigger] field_pending(
                                d1,
                                dv.fields@[j].1,
                            ) by {}
                        }
                    } else {
                        let j = choose|j: int| 0 <= j < d0.len() && #[trigger] d0[j].1 == d1[i].1;
                        assert(descriptor_pending(d0, d0[j].1));
                        lemma_pending_grow(d0, d1, d0[j].1);
                    }
                }
            }
        }
        if replaced {
            proof {
                assert(has_key(d0, full));
                assert(keys_after(keys0, full, *message, nlen).contains(full));
            }
            return Err(RegisterError::DuplicateDescriptor { name: name_copy });
        }
        proof {
            assert(message_checks(full, *message));
            assert(registers(keys0, namespace@, *message));
            lemma_keys_after_union(keys0, full, *message, nlen);
            assert forall|k: Seq<char>|
                #[trigger] has_key(self.spec_descriptors(), k) == (has_key(old(self).spec_descriptors(), k)
                    || reg_names(namespace@, *message).contains(k)) by {
                assert(has_key(d0, k) == keys_after(keys0, full, *message, nlen).contains(k));
                assert(keys0.contains(k) == has_key(old(self).spec_descriptors(), k));
            }
        }
        Ok(())
    }
}

} // verus!

verus! {

impl DescriptorPool {
    /// Whether `name` is a registered enum or message.
    pub open spec fn is_known(&self, name: Seq<char>) -> bool {
        self.is_enum(name) || has_key(self.spec_descriptors(), name)
    }

    /// The first known name among `normalized` inside `scope` and inside
    /// each enclosing scope, found by dropping the scope's last part.
    pub open spec fn resolve_in(&self, scope: Seq<char>, normalized: Seq<char>) -> Option<Seq<char>>
        decreases scope.len(),
    {
        let candidate = spec_full_name(scope, normalized);
        if self.is_known(candidate) {
            Some(candidate)
        } else {
            match last_index_of(scope, '.') {
                Some(p) => {
                    proof {
                        lemma_last_index_bounds(scope, '.');
                    }
                    self.resolve_in(scope.subrange(0, p), normalized)
                },
                None => None,
            }
        }
    }

    /// The name that a type reference made inside `containing` denotes: the
    /// reference itself when it is known, else the innermost known name of
    /// it inside `containing` and its enclosing scopes; none for an empty
    /// reference.
    pub open spec fn spec_resolve(&self, containing: Seq<char>, type_ref: Seq<char>) -> Option<
        Seq<char>,
    > {
        let normalized = spec_normalize(type_ref);
        if normalized.len() == 0 {
            None
        } else if self.is_known(normalized) {
            Some(normalized)
        } else {
            self.resolve_in(containing, normalized)
        }
    }

    /// Whatever a type reference resolves to is known.
    pub proof fn lemma_resolve_known(&self, containing: Seq<char>, type_ref: Seq<char>)
        ensures
            self.spec_resolve(containing, type_ref) matches Some(n) ==> self.is_known(n),
    {
        let normalized = spec_normalize(type_ref);
        if normalized.len() > 0 && !self.is_known(normalized) {
            self.lemma_resolve_in_known(containing, normalized);
        }
    }

    proof fn lemma_resolve_in_known(&self, scope: Seq<char>, normalized: Seq<char>)
        ensures
            self.resolve_in(scope, normalized) matches Some(n) ==> self.is_known(n),
        decreases scope.len(),
    {
        if !self.is_known(spec_full_name(scope, normalized)) {
            lemma_last_index_bounds(scope, '.');
            if let Some(p) = last_index_of(scope, '.') {
                self.lemma_resolve_in_known(scope.subrange(0, p), normalized);
            }
        }
    }

    /// The name a type reference made inside `containing_type` denotes.
    fn resolve_type_name(&self, containing_type: &str, type_ref: &str) -> (r: Option<String>)
        ensures
            match self.spec_resolve(containing_type@, type_ref@) {
                Some(n) => r matches Some(s) && s@ == n,
                None => r is None,
            },
    {
        let normalized: String = normalize_type_ref(type_ref);
        if normalized.as_str().is_empty() {
            return None;
        }
        if self.is_known_type(&normalized) {
            return Some(normalized);
        }
        let mut scope: String = containing_type.to_owned();
        loop
            invariant
                normalized@ == spec_normalize(type_ref@),
                normalized@.len() > 0,
                !self.is_known(normalized@),
                self.resolve_in(scope@, normalized@) == self.resolve_in(
                    containing_type@,
                    normalized@,
                ),
            decreases scope@.len(),
        {
            let candidate: String = full_name(scope.as_str(), normalized.as_str());
            if self.is_known_type(&candidate) {
                return Some(candidate);
            }
            proof {
                lemma_last_index_bounds(scope@, '.');
            }
            match find_last(scope.as_str(), '.') {
                Some(p) => {
                    let shorter: String = String::from_str(scope.as_str().substring_char(0, p));
                    scope = shorter;
                },
                None => {
                    return None;
                },
            }
        }
    }
}

/// What resolving does to a message: the alias of an alias, or each field
/// of another message, takes its resolving step; names and options stay.
pub open spec fn descriptor_step(
    descriptors: Seq<(String, Descriptor)>,
    before: Descriptor,
    after: Descriptor,
) -> bool {
    &&& after.tags == before.tags
    &&& if before.alias.value != FieldType::Unset {
        field_step(descriptors, before.alias, after.alias) && after.fields == before.fields
    } else {
        &&& after.alias == before.alias
        &&& after.fields@.len() == before.fields@.len()
        &&& forall|i: int|
            0 <= i < before.fields@.len() ==> (#[trigger] after.fields@[i]).0 == before.fields@[i].0
                && field_step(descriptors, before.fields@[i].1, after.fields@[i].1)
    }
}

impl DescriptorPool {
    /// Resolves the type of a field of `message_name` whose type is not
    /// known yet: an enum loses its type name, a message gets its full name.
    fn resolve_field_type(&self, message_name: &str, field_name: &str, field: &mut Field) -> (r:
        Result<(), RegisterError>)
        ensures
            old(field).value != FieldType::Unknown ==> r is Ok && *final(field) == *old(field),
            old(field).value == FieldType::Unknown ==> match self.spec_resolve(
                message_name@,
                old(field).value_type@,
            ) {
                Some(n) => {
                    &&& r is Ok
                    &&& final(field).id == old(field).id
                    &&& final(field).repeated == old(field).repeated
                    &&& final(field).key == old(field).key
                    &&& final(field).tags == old(field).tags
                    &&& if self.is_enum(n) {
                        final(field).value == FieldType::Enum && final(field).value_type@.len() == 0
                    } else {
                        final(field).value == FieldType::Message && final(field).value_type@ == n
                    }
                },
                None => {
                    &&& r matches Err(RegisterError::UnknownType { message, field: f, type_ref })
                    &&& message@ == message_name@
                    &&& f@ == field_name@
                    &&& type_ref@ == old(field).value_type@
                    &&& *final(field) == *old(field)
                },
            },
    {
        if field.value != FieldType::Unknown {
            return Ok(());
        }
        let unresolved: String = field.value_type.clone();
        match self.resolve_type_name(message_name, unresolved.as_str()) {
            Some(resolved) => {
                if self.has_enum(&resolved) {
                    field.value = FieldType::Enum;
                    field.value_type = String::new();
                } else {
                    field.value = FieldType::Message;
                    field.value_type = resolved;
                }
                Ok(())
            },
            None => Err(
                RegisterError::UnknownType {
                    message: message_name.to_owned(),
                    field: field_name.to_owned(),
                    type_ref: unresolved,
                },
            ),
        }
    }

    /// Resolves the types of the alias of an alias, or of each field of
    /// another message, stopping at the first that cannot be resolved.
    fn resolve_descriptor(&self, full_name: &str, descriptor: &mut Descriptor) -> (r: Result<
        (),
        RegisterError,
    >)
        ensures
            r is Ok ==> descriptor_step(self.spec_descriptors(), *old(descriptor), *final(descriptor)),
            r is Ok == self.descriptor_resolves(full_name@, *old(descriptor)),
            r is Err ==> (r matches Err(RegisterError::UnknownType { message, .. }) && message@ == full_name@),
    {
        if descriptor.alias.value != FieldType::Unset {
            let underscore: String = String::from_str("_");
            let r = self.resolve_field_type(full_name, underscore.as_str(), &mut descriptor.alias);
            proof {
                self.lemma_resolve_known(full_name@, old(descriptor).alias.value_type@);
            }
            return r;
        }
        let mut i: usize = 0;
        while i < descriptor.fields.len()
            invariant
                i <= descriptor.fields@.len(),
                descriptor.alias == old(descriptor).alias,
                descriptor.tags == old(descriptor).tags,
                old(descriptor).alias.value == FieldType::Unset,
                descriptor.fields@.len() == old(descriptor).fields@.len(),
                forall|j: int|
                    i <= j < descriptor.fields@.len() ==> #[trigger] descriptor.fields@[j]
                        == old(descriptor).fields@[j],
                forall|j: int|
                    0 <= j < i ==> (#[trigger] descriptor.fields@[j]).0 == old(descriptor).fields@[j].0
                        && field_step(
                        self.spec_descriptors(),
                        old(descriptor).fields@[j].1,
                        descriptor.fields@[j].1,
                    ),
                forall|j: int|
                    0 <= j < i ==> self.field_resolves(full_name@, #[trigger] old(descriptor).fields@[j].1),
            decreases descriptor.fields@.len() - i,
        {
            let name: String = descriptor.fields[i].0.clone();
            let ghost before = descriptor.fields@[i as int].1;
            let entry = &mut descriptor.fields[i];
            let r = self.resolve_field_type(full_name, name.as_str(), &mut entry.1);
            proof {
                self.lemma_resolve_known(full_name@, before.value_type@);
            }
            match r {
                Ok(()) => {},
                Err(err) => {
                    proof {
                        assert(!self.field_resolves(full_name@, old(descriptor).fields@[i as int].1));
                    }
                    return Err(err);
                },
            }
            i += 1;
        }
        Ok(())
    }

    /// Whether a field's type, when it still has to be found, is found
    /// from inside `full`.
    pub open spec fn field_resolves(&self, full: Seq<char>, f: Field) -> bool {
        f.value != FieldType::Unknown || self.spec_resolve(full, f.value_type@) is Some
    }

    /// Whether every field of a descriptor registered as `full` resolves.
    pub open spec fn descriptor_resolves(&self, full: Seq<char>, d: Descriptor) -> bool {
        if d.alias.value != FieldType::Unset {
            self.field_resolves(full, d.alias)
        } else {
            forall|j: int| 0 <= j < d.fields@.len() ==> self.field_resolves(full, #[trigger] d.fields@[j].1)
        }
    }
}

/// Pools with the same enums know the same enums.
proof fn lemma_same_enums(a: DescriptorPool, b: DescriptorPool)
    requires
        a.spec_enums() == b.spec_enums(),
    ensures
        forall|k: Seq<char>| #[trigger] a.is_enum(k) == b.is_enum(k),
{
    assert forall|k: Seq<char>| #[trigger] a.is_enum(k) == b.is_enum(k) by {
        if a.is_enum(k) {
            let j = choose|j: int| 0 <= j < a.spec_enums().len() && (#[trigger] a.spec_enums()[j])@ == k;
            assert(b.spec_enums()[j]@ == k);
        }
        if b.is_enum(k) {
            let j = choose|j: int| 0 <= j < b.spec_enums().len() && (#[trigger] b.spec_enums()[j])@ == k;
            assert(a.spec_enums()[j]@ == k);
        }
    }
}

/// Entries with the same keys in the same places hold the same keys.
proof fn lemma_same_keys<V, W>(d0: Seq<(String, V)>, d1: Seq<(String, W)>)
    requires
        d0.len() == d1.len(),
        forall|j: int| 0 <= j < d0.len() ==> (#[trigger] d1[j]).0 == d0[j].0,
    ensures
        forall|k: Seq<char>| #[trigger] has_key(d0, k) <==> has_key(d1, k),
        keys_distinct(d0) ==> keys_distinct(d1),
{
    assert forall|k: Seq<char>| #[trigger] has_key(d0, k) <==> has_key(d1, k) by {
        if has_key(d0, k) {
            let j = choose|j: int| 0 <= j < d0.len() && (#[trigger] d0[j]).0@ == k;
            assert(d1[j].0@ == k);
        }
        if has_key(d1, k) {
            let j = choose|j: int| 0 <= j < d1.len() && (#[trigger] d1[j]).0@ == k;
            assert(d0[j].0 == d1[j].0);
        }
    }
    if keys_distinct(d0) {
        assert forall|a: int, b: int|
            0 <= a < d1.len() && 0 <= b < d1.len() && a != b implies (#[trigger] d1[a]).0@
                != (#[trigger] d1[b]).0@ by {
            assert(d0[a].0@ != d0[b].0@);
        }
    }
}

/// Taking an entry out keeps the keys of the others.
proof fn lemma_remove_keys<V>(d: Seq<(String, V)>, i: int)
    requires
        0 <= i < d.len(),
    ensures
        forall|k: Seq<char>| #[trigger] has_key(d.remove(i), k) ==> has_key(d, k),
        keys_distinct(d) ==> keys_distinct(d.remove(i)),
{
    let r = d.remove(i);
    assert forall|k: Seq<char>| #[trigger] has_key(r, k) implies has_key(d, k) by {
        let j = choose|j: int| 0 <= j < r.len() && (#[trigger] r[j]).0@ == k;
        if j < i {
            assert(d[j] == r[j]);
        } else {
            assert(d[j + 1] == r[j]);
        }
    }
    if keys_distinct(d) {
        assert forall|a: int, b: int|
            0 <= a < r.len() && 0 <= b < r.len() && a != b implies (#[trigger] r[a]).0@
                != (#[trigger] r[b]).0@ by {
            let a1 = if a < i { a } else { a + 1 };
            let b1 = if b < i { b } else { b + 1 };
            assert(r[a] == d[a1] && r[b] == d[b1]);
            assert(d[a1].0@ != d[b1].0@);
        }
    }
}

/// Holding more names keeps what a resolved message refers to.
proof fn lemma_resolved_grow(
    d0: Seq<(String, Descriptor)>,
    d1: Seq<(String, Descriptor)>,
    d: Descriptor,
)
    requires
        descriptor_resolved(d0, d),
        forall|k: Seq<char>| has_key(d0, k) ==> #[trigger] has_key(d1, k),
    ensures
        descriptor_resolved(d1, d),
{
    if d.alias.value == FieldType::Unset {
        assert forall|i: int| 0 <= i < d.fields@.len() implies #[trigger] field_resolved(
            d1,
            d.fields@[i].1,
        ) by {
            assert(field_resolved(d0, d.fields@[i].1));
        }
    }
}

/// A pending message resolved against part of a pool is resolved in the
/// pool, and keeps distinct ids.
proof fn lemma_step_resolves(
    part: Seq<(String, Descriptor)>,
    pool: Seq<(String, Descriptor)>,
    before: Descriptor,
    after: Descriptor,
)
    requires
        descriptor_step(part, before, after),
        descriptor_pending(pool, before),
        ids_distinct(before),
        forall|k: Seq<char>| has_key(part, k) ==> #[trigger] has_key(pool, k),
    ensures
        descriptor_resolved(pool, after),
        ids_distinct(after),
{
    if before.alias.value != FieldType::Unset {
        if before.alias.value == FieldType::Unknown {
            assert(field_resolved(part, after.alias));
        }
    } else {
        assert forall|i: int| 0 <= i < after.fields@.len() implies #[trigger] field_resolved(
            pool,
            after.fields@[i].1,
        ) by {
            assert(after.fields@[i].0 == before.fields@[i].0);
            assert(field_pending(pool, before.fields@[i].1));
            if before.fields@[i].1.value == FieldType::Unknown {
                assert(field_resolved(part, after.fields@[i].1));
            }
        }
        assert forall|i: int, j: int|
            0 <= i < after.fields@.len() && 0 <= j < after.fields@.len() && i != j implies (
            #[trigger] after.fields@[i]).1.id != (#[trigger] after.fields@[j]).1.id by {
            assert(after.fields@[i].0 == before.fields@[i].0);
            assert(after.fields@[j].0 == before.fields@[j].0);
            assert(before.fields@[i].1.id != before.fields@[j].1.id);
        }
    }
}

impl DescriptorPool {
    /// Registers the enums and messages of a schema file under its package,
    /// then resolves the type names of every registered message against
    /// the other registered names. A message that fails to resolve is
    /// left out of the pool.
    pub fn register(&mut self, file: &FileDescriptorProto) -> (r: Result<(), RegisterError>)
        requires
            old(self).wf(),
            file_well_formed(*file),
        ensures
            final(self).wf(),
            r is Ok && old(self).resolved() ==> final(self).resolved(),
            r is Ok ==> forall|k: Seq<char>|
                has_key(old(self).spec_descriptors(), k) ==> #[trigger] has_key(
                    final(self).spec_descriptors(),
                    k,
                ),
            r is Ok ==> forall|i: int|
                0 <= i < file.message_types@.len() && !(#[trigger] file.message_types@[i]).deprecated
                    ==> has_key(
                    final(self).spec_descriptors(),
                    spec_full_name(file.package@, file.message_types@[i].name@),
                ),
            r is Ok ==> forall|i: int|
                0 <= i < file.message_types@.len() && !(#[trigger] file.message_types@[i]).deprecated
                    ==> message_valid(file.message_types@[i]),
            forall|k: Seq<char>| old(self).is_enum(k) ==> #[trigger] final(self).is_enum(k),
            forall|i: int|
                0 <= i < file.enum_types@.len() && !(#[trigger] file.enum_types@[i]).deprecated
                    ==> final(self).is_enum(spec_full_name(file.package@, file.enum_types@[i].name@)),
            file_registers(old(self).pool_names(), *file, file.message_types@.len() as int) ==> (r is Ok
                || r matches Err(RegisterError::UnknownType { .. })),
            r is Ok ==> file_registers(old(self).pool_names(), *file, file.message_types@.len() as int),
            r is Ok ==> forall|k: Seq<char>|
                #[trigger] has_key(final(self).spec_descriptors(), k) == file_keys(
                    old(self).pool_names(),
                    *file,
                    file.message_types@.len() as int,
                ).contains(k),
    {
        let package: &str = file.package.as_str();
        let ghost ok: bool = old(self).resolved();
        let ghost keys0 = old(self).pool_names();
        let ghost reg_ok: bool = file_registers(keys0, *file, file.message_types@.len() as int);
        proof {
            if ok {
                assert forall|i: int| 0 <= i < self.spec_descriptors().len() implies descriptor_pending(
                    self.spec_descriptors(),
                    (#[trigger] self.spec_descriptors()[i]).1,
                ) && ids_distinct(self.spec_descriptors()[i].1) by {
                    lemma_resolved_pending(self.spec_descriptors(), self.spec_descriptors()[i].1);
                }
            }
        }
        let mut e: usize = 0;
        while e < file.enum_types.len()
            invariant
                e <= file.enum_types@.len(),
                package@ == file.package@,
                self.wf(),
                self.spec_descriptors() == old(self).spec_descriptors(),
                ok == old(self).resolved(),
                ok ==> self.pending(),
                forall|k: Seq<char>| old(self).is_enum(k) ==> #[trigger] self.is_enum(k),
                forall|i: int|
                    0 <= i < e && !(#[trigger] file.enum_types@[i]).deprecated ==> self.is_enum(
                        spec_full_name(file.package@, file.enum_types@[i].name@),
                    ),
            decreases file.enum_types@.len() - e,
        {
            let item: &EnumDescriptorProto = &file.enum_types[e];
            if !item.deprecated {
                let name: String = full_name(package, item.name.as_str());
                let ghost before = *self;
                self.add_enum(name, item);
                proof {
                    assert forall|k: Seq<char>| before.is_enum(k) implies #[trigger] self.is_enum(k) by {}
                }
            }
            e += 1;
        }
        let ghost enums_done = *self;
        let mut m: usize = 0;
        while m < file.message_types.len()
            invariant
                m <= file.message_types@.len(),
                package@ == file.package@,
                file_well_formed(*file),
                self.wf(),
                ok == old(self).resolved(),
                ok ==> self.pending(),
                forall|k: Seq<char>|
                    has_key(old(self).spec_descriptors(), k) ==> #[trigger] has_key(
                        self.spec_descriptors(),
                        k,
                    ),
                forall|k: Seq<char>| enums_done.is_enum(k) ==> #[trigger] self.is_enum(k),
                forall|k: Seq<char>| old(self).is_enum(k) ==> #[trigger] enums_done.is_enum(k),
                forall|i: int|
                    0 <= i < file.enum_types@.len() && !(#[trigger] file.enum_types@[i]).deprecated
                        ==> enums_done.is_enum(
                        spec_full_name(file.package@, file.enum_types@[i].name@),
                    ),
                forall|i: int|
                    0 <= i < m && !(#[trigger] file.message_types@[i]).deprecated ==> has_key(
                        self.spec_descriptors(),
                        spec_full_name(file.package@, file.message_types@[i].name@),
                    ),
                forall|i: int|
                    0 <= i < m && !(#[trigger] file.message_types@[i]).deprecated ==> message_valid(
                        file.message_types@[i],
                    ),
                keys0 == old(self).pool_names(),
                reg_ok == file_registers(keys0, *file, file.message_types@.len() as int),
                forall|k: Seq<char>|
                    #[trigger] has_key(self.spec_descriptors(), k) == file_keys(keys0, *file, m as int).contains(k),
                file_registers(keys0, *file, m as int),
            decreases file.message_types@.len() - m,
        {
            let message: &DescriptorProto = &file.message_types[m];
            if message.deprecated {
                proof {
                    assert(file_keys(keys0, *file, m + 1) == file_keys(keys0, *file, m as int));
                    assert(file_registers(keys0, *file, m + 1));
                }
                m += 1;
                continue;
            }
            proof {
                assert(refs_whole(spec_full_name(package@, message.name@), *message));
            }
            let ghost before = *self;
            proof {
                assert(before.pool_names() =~= file_keys(keys0, *file, m as int));
                if reg_ok {
                    lemma_file_registers_prefix(keys0, *file, m + 1, file.message_types@.len() as int);
                    assert(registers(before.pool_names(), package@, *message));
                }
            }
            match self.register_message(package, message) {
                Ok(()) => {},
                Err(err) => {
                    return Err(err);
                },
            }
            proof {
                assert forall|k: Seq<char>|
                    #[trigger] has_key(self.spec_descriptors(), k) == file_keys(keys0, *file, m + 1).contains(k) by {
                    assert(has_key(before.spec_descriptors(), k) == file_keys(keys0, *file, m as int).contains(k));
                }
                assert(registers(file_keys(keys0, *file, m as int), package@, *message));
                assert(file_registers(keys0, *file, m + 1));
                assert forall|k: Seq<char>|
                    has_key(old(self).spec_descriptors(), k) implies #[trigger] has_key(
                        self.spec_descriptors(),
                        k,
                    ) by {
                    assert(has_key(before.spec_descriptors(), k));
                }
                assert forall|k: Seq<char>| enums_done.is_enum(k) implies #[trigger] self.is_enum(k) by {
                    assert(before.is_enum(k));
                }
                assert forall|i: int|
                    0 <= i < m + 1 && !(#[trigger] file.message_types@[i]).deprecated implies has_key(
                        self.spec_descriptors(),
                        spec_full_name(file.package@, file.message_types@[i].name@),
                    ) by {
                    if i < m {
                        assert(has_key(
                            before.spec_descriptors(),
                            spec_full_name(file.package@, file.message_types@[i].name@),
                        ));
                    }
                }
                assert forall|i: int|
                    0 <= i < m + 1 && !(#[trigger] file.message_types@[i]).deprecated implies message_valid(
                        file.message_types@[i],
                    ) by {}
            }
            m += 1;
        }
        let ghost registered = self.spec_descriptors();
        let ghost enums_all = self.spec_enums();
        let ghost messages_done = *self;
        proof {
            assert forall|k: Seq<char>| old(self).is_enum(k) implies #[trigger] messages_done.is_enum(k) by {
                assert(enums_done.is_enum(k));
            }
        }
        let mut i: usize = 0;
        while i < self.descriptors.len()
            invariant
                i <= self.spec_descriptors().len(),
                self.wf(),
                self.spec_enums() == enums_all,
                messages_done.spec_enums() == enums_all,
                registered == messages_done.spec_descriptors(),
                forall|k: Seq<char>|
                    has_key(old(self).spec_descriptors(), k) ==> #[trigger] has_key(registered, k),
                forall|k: Seq<char>| old(self).is_enum(k) ==> #[trigger] messages_done.is_enum(k),
                forall|i: int|
                    0 <= i < file.enum_types@.len() && !(#[trigger] file.enum_types@[i]).deprecated
                        ==> messages_done.is_enum(
                        spec_full_name(file.package@, file.enum_types@[i].name@),
                    ),
                self.spec_descriptors().len() == registered.len(),
                forall|j: int|
                    0 <= j < registered.len() ==> (#[trigger] self.spec_descriptors()[j]).0
                        == registered[j].0,
                ok ==> forall|j: int|
                    0 <= j < i ==> descriptor_resolved(
                        self.spec_descriptors(),
                        (#[trigger] self.spec_descriptors()[j]).1,
                    ) && ids_distinct(self.spec_descriptors()[j].1),
                ok ==> forall|j: int|
                    i <= j < self.spec_descriptors().len() ==> descriptor_pending(
                        self.spec_descriptors(),
                        (#[trigger] self.spec_descriptors()[j]).1,
                    ) && ids_distinct(self.spec_descriptors()[j].1),
            decreases registered.len() - i,
        {
            let ghost d0 = self.spec_descriptors();
            let (name, mut descriptor) = self.descriptors.remove(i);
            let ghost part = self.spec_descriptors();
            let ghost before = descriptor;
            proof {
                lemma_remove_keys(d0, i as int);
                assert(part == d0.remove(i as int));
            }
            match self.resolve_descriptor(name.as_str(), &mut descriptor) {
                Ok(()) => {},
                Err(err) => {
                    proof {
                        lemma_same_enums(messages_done, *self);
                        assert forall|k: Seq<char>| old(self).is_enum(k) implies #[trigger] self.is_enum(k) by {
                            assert(messages_done.is_enum(k));
                        }
                    }
                    return Err(err);
                },
            }
            let ghost after = descriptor;
            self.descriptors.insert(i, (name, descriptor));
            proof {
                let d1 = self.spec_descriptors();
                assert(d1 =~= d0.update(i as int, (d0[i as int].0, after)));
                lemma_same_keys(d0, d1);
                if ok {
                    assert forall|k: Seq<char>| has_key(part, k) implies #[trigger] has_key(d1, k) by {
                        assert(has_key(d0, k));
                    }
                    assert(descriptor_pending(d0, before));
                    lemma_pending_grow(d0, d1, before);
                    lemma_step_resolves(part, d1, before, after);
                    assert forall|j: int| 0 <= j < i + 1 implies descriptor_resolved(
                        d1,
                        (#[trigger] d1[j]).1,
                    ) && ids_distinct(d1[j].1) by {
                        if j < i {
                            assert(d1[j] == d0[j]);
                            lemma_resolved_grow(d0, d1, d0[j].1);
                        }
                    }
                    assert forall|j: int| i + 1 <= j < d1.len() implies descriptor_pending(
                        d1,
                        (#[trigger] d1[j]).1,
                    ) && ids_distinct(d1[j].1) by {
                        assert(d1[j] == d0[j]);
                        lemma_pending_grow(d0, d1, d0[j].1);
                    }
                }
            }
            i += 1;
        }
        proof {
            lemma_same_keys(registered, self.spec_descriptors());
            assert forall|k: Seq<char>|
                #[trigger] has_key(self.spec_descriptors(), k) == file_keys(
                    keys0,
                    *file,
                    file.message_types@.len() as int,
                ).contains(k) by {
                assert(has_key(registered, k) == file_keys(keys0, *file, file.message_types@.len() as int).contains(k));
            }
            lemma_same_enums(messages_done, *self);
            assert forall|k: Seq<char>| old(self).is_enum(k) implies #[trigger] self.is_enum(k) by {
                assert(messages_done.is_enum(k));
            }
            assert forall|k: Seq<char>|
                has_key(old(self).spec_descriptors(), k) implies #[trigger] has_key(
                    self.spec_descriptors(),
                    k,
                ) by {
                assert(has_key(registered, k));
            }
        }
        Ok(())
    }
}


/// Whether every live field of `message` (registered under `namespace`),
/// and of the messages it registers, that refers to a map entry refers to
/// one with a key and a value field.
pub fn message_entries_whole(namespace: &str, message: &DescriptorProto) -> (r: bool)
    ensures
        r == refs_whole(spec_full_name(namespace@, message.name@), *message),
    decreases message,
{
    let message_name: String = full_name(namespace, message.name.as_str());
    let ghost full = message_name@;
    let mut map_entries: Vec<(String, usize)> = Vec::new();
    let mut n: usize = 0;
    while n < message.nested_types.len()
        invariant
            n <= message.nested_types@.len(),
            full == message_name@,
            keys_distinct(map_entries@),
            forall|i: int| 0 <= i < map_entries@.len() ==> (#[trigger] map_entries@[i]).1 < message.nested_types@.len(),
            forall|k: Seq<char>|
                #[trigger] value_of(map_entries@, k) == entry_index(full, message.nested_types@, n as int, k),
        decreases message.nested_types@.len() - n,
    {
        let nested: &DescriptorProto = &message.nested_types[n];
        let ghost m0 = map_entries@;
        if !nested.deprecated && nested.map_entry {
            register_map_entry_names(&mut map_entries, message_name.as_str(), nested, n);
            proof {
                assert forall|i: int| 0 <= i < map_entries@.len() implies (#[trigger] map_entries@[i]).1
                    < message.nested_types@.len() by {
                    if map_entries@[i].1 != n {
                        let j = choose|j: int| 0 <= j < m0.len() && #[trigger] m0[j].1 == map_entries@[i].1;
                        assert(m0[j].1 < message.nested_types@.len());
                    }
                }
            }
        }
        proof {
            assert forall|k: Seq<char>| #[trigger] value_of(map_entries@, k) == entry_index(
                full,
                message.nested_types@,
                n + 1,
                k,
            ) by {
                assert(value_of(m0, k) == entry_index(full, message.nested_types@, n as int, k));
            }
        }
        n += 1;
    }
    let ghost nlen = message.nested_types@.len() as int;
    let mut i: usize = 0;
    while i < message.fields.len()
        invariant
            i <= message.fields@.len(),
            nlen == message.nested_types@.len(),
            full == message_name@,
            full == spec_full_name(namespace@, message.name@),
            keys_distinct(map_entries@),
            forall|t: int| 0 <= t < map_entries@.len() ==> (#[trigger] map_entries@[t]).1 < message.nested_types@.len(),
            forall|k: Seq<char>| #[trigger] value_of(map_entries@, k) == entry_index(full, message.nested_types@, nlen, k),
            forall|j: int|
                0 <= j < i && !(#[trigger] message.fields@[j]).deprecated ==> entry_whole(
                    *message,
                    entry_index(full, message.nested_types@, nlen, spec_normalize(message.fields@[j].type_ref@)),
                    message.fields@[j],
                ),
        decreases message.fields@.len() - i,
    {
        let field: &FieldDescriptorProto = &message.fields[i];
        if !field.deprecated {
            match convert_type(field) {
                Some(v) => {
                    if v == FieldType::Message || v == FieldType::Unknown {
                        let st: String = normalize_type_ref(field.type_ref.as_str());
                        match find_entry(&map_entries, &st) {
                            Some(e) => {
                                proof {
                                    lemma_value_of(map_entries@, e as int);
                                }
                                let idx: usize = map_entries[e].1;
                                if message.nested_types[idx].fields.len() < 2 {
                                    proof {
                                        assert(!entry_whole(
                                            *message,
                                            entry_index(full, message.nested_types@, nlen, spec_normalize(message.fields@[i as int].type_ref@)),
                                            message.fields@[i as int],
                                        ));
                                    }
                                    return false;
                                }
                            },
                            None => {},
                        }
                    }
                },
                None => {},
            }
        }
        i += 1;
    }
    let mut j: usize = 0;
    while j < message.nested_types.len()
        invariant
            j <= message.nested_types@.len(),
            full == message_name@,
            full == spec_full_name(namespace@, message.name@),
            forall|i: int|
                0 <= i < message.fields@.len() && !(#[trigger] message.fields@[i]).deprecated ==> entry_whole(
                    *message,
                    entry_index(full, message.nested_types@, nlen, spec_normalize(message.fields@[i].type_ref@)),
                    message.fields@[i],
                ),
            nlen == message.nested_types@.len(),
            forall|t: int|
                0 <= t < j && registered_nested(#[trigger] message.nested_types@[t]) ==> refs_whole(
                    spec_full_name(full, message.nested_types@[t].name@),
                    message.nested_types@[t],
                ),
        decreases message.nested_types@.len() - j,
    {
        let nested: &DescriptorProto = &message.nested_types[j];
        if !nested.deprecated && !nested.map_entry {
            if !message_entries_whole(message_name.as_str(), nested) {
                proof {
                    assert(registered_nested(message.nested_types@[j as int]));
                }
                return false;
            }
        }
        j += 1;
    }
    true
}

/// Whether every map entry that a live field of a registered message of
/// the file refers to has a key and a value field.
pub fn file_entries_whole(file: &FileDescriptorProto) -> (r: bool)
    ensures
        r == file_well_formed(*file),
{
    let mut m: usize = 0;
    while m < file.message_types.len()
        invariant
            m <= file.message_types@.len(),
            forall|i: int|
                0 <= i < m && !(#[trigger] file.message_types@[i]).deprecated ==> refs_whole(
                    spec_full_name(file.package@, file.message_types@[i].name@),
                    file.message_types@[i],
                ),
        decreases file.message_types@.len() - m,
    {
        let message: &DescriptorProto = &file.message_types[m];
        if !message.deprecated {
            if !message_entries_whole(file.package.as_str(), message) {
                return false;
            }
        }
        m += 1;
    }
    true
}

/// Registers schema files, in order, into a fresh pool, stopping at the
/// first error, and hands back that pool: its messages resolve, it holds
/// every top-level message that is not deprecated, and those messages
/// passed registration's checks. Registration fails, other than on a type
/// name that does not resolve, exactly at the first file whose messages do
/// not register.
pub fn load_descriptor_pool(files: &Vec<FileDescriptorProto>) -> (r: Result<DescriptorPool, RegisterError>)
    requires
        forall|i: int| 0 <= i < files@.len() ==> file_well_formed(#[trigger] files@[i]),
    ensures
        match r {
            Ok(pool) => {
                &&& pool.wf()
                &&& pool.resolved()
                &&& forall|i: int, j: int|
                    0 <= i < files@.len() && 0 <= j < files@[i].message_types@.len() && !(#[trigger] files@[i].message_types@[j]).deprecated
                        ==> has_key(pool.spec_descriptors(), spec_full_name(files@[i].package@, files@[i].message_types@[j].name@))
                        && message_valid(files@[i].message_types@[j])
            },
            Err(_) => true,
        },
        files_register(files@, files@.len() as int) ==> (r is Ok || r matches Err(RegisterError::UnknownType { .. })),
        r is Ok ==> files_register(files@, files@.len() as int),
        r matches Err(e) ==> e is UnknownType || exists|i: int|
            0 <= i < files@.len() && files_register(files@, i) && !#[trigger] file_registers(
                files_keys(files@, i),
                files@[i],
                files@[i].message_types@.len() as int,
            ),
{
    let mut pool = DescriptorPool::new();
    let ghost reg_ok: bool = files_register(files@, files@.len() as int);
    proof {
        assert(pool.pool_names() =~= files_keys(files@, 0));
    }
    let mut i: usize = 0;
    while i < files.len()
        invariant
            i <= files@.len(),
            forall|i: int| 0 <= i < files@.len() ==> file_well_formed(#[trigger] files@[i]),
            pool.wf(),
            pool.resolved(),
            reg_ok == files_register(files@, files@.len() as int),
            pool.pool_names() == files_keys(files@, i as int),
            files_register(files@, i as int),
            forall|a: int, j: int|
                0 <= a < i && 0 <= j < files@[a].message_types@.len() && !(#[trigger] files@[a].message_types@[j]).deprecated
                    ==> has_key(pool.spec_descriptors(), spec_full_name(files@[a].package@, files@[a].message_types@[j].name@))
                    && message_valid(files@[a].message_types@[j]),
        decreases files@.len() - i,
    {
        let ghost before = pool;
        proof {
            if reg_ok {
                lemma_files_register_prefix(files@, i + 1, files@.len() as int);
                assert(file_registers(before.pool_names(), files@[i as int], files@[i as int].message_types@.len() as int));
            }
        }
        match pool.register(&files[i]) {
            Ok(()) => {},
            Err(e) => {
                proof {
                    if !(e is UnknownType) {
                        assert(!file_registers(
                            files_keys(files@, i as int),
                            files@[i as int],
                            files@[i as int].message_types@.len() as int,
                        ));
                    }
                }
                return Err(e);
            },
        }
        proof {
            assert(pool.pool_names() =~= files_keys(files@, i + 1));
            assert(files_register(files@, i + 1));
        }
        assert forall|a: int, j: int|
            0 <= a < i + 1 && 0 <= j < files@[a].message_types@.len() && !(#[trigger] files@[a].message_types@[j]).deprecated
                implies has_key(pool.spec_descriptors(), spec_full_name(files@[a].package@, files@[a].message_types@[j].name@))
                    && message_valid(files@[a].message_types@[j]) by {
            if a < i {
                assert(has_key(before.spec_descriptors(), spec_full_name(files@[a].package@, files@[a].message_types@[j].name@)));
            }
        }
        i += 1;
    }
    Ok(pool)
}

} // verus!
