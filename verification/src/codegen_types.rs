//! What the code generator decides for each field before it writes code:
//! the Rust types of readers and mutable fields, and the expressions that
//! measure a field's extent, from a field's descriptor type and the
//! registry of the schema's types.

use vstd::prelude::*;
use vstd::string::StringExecFns;
use crate::reflection::{
    find_entry, has_key, keys_distinct, lemma_value_of, value_of, FieldDescriptorProto,
};
use vstd::string::StrSliceExecFns;

verus! {

/// The descriptor type number a field has: its own when it names a type,
/// else that of `double`.
pub open spec fn type_of(code: Option<i32>) -> i32 {
    match code {
        Some(c) => if 1 <= c <= 18 {
            c
        } else {
            1
        },
        None => 1,
    }
}

/// The descriptor type number a field has.
pub fn field_type(code: Option<i32>) -> (r: i32)
    ensures
        r == type_of(code),
{
    match code {
        Some(c) => if 1 <= c && c <= 18 {
            c
        } else {
            1
        },
        None => 1,
    }
}

/// The label number a field has: its own when it names a label, else that
/// of `optional`.
pub open spec fn label_of(label: Option<i32>) -> i32 {
    match label {
        Some(l) => if 1 <= l <= 3 {
            l
        } else {
            1
        },
        None => 1,
    }
}

/// The label number a field has.
pub fn field_label(label: Option<i32>) -> (r: i32)
    ensures
        r == label_of(label),
{
    match label {
        Some(l) => if 1 <= l && l <= 3 {
            l
        } else {
            1
        },
        None => 1,
    }
}

/// Types read as `i32`: int32, sint32, sfixed32.
pub open spec fn is_i32_type(t: i32) -> bool {
    t == 5 || t == 17 || t == 15
}

/// Types read as `u32`: uint32, fixed32.
pub open spec fn is_u32_type(t: i32) -> bool {
    t == 13 || t == 7
}

/// Types read as `i64`: int64, sint64, sfixed64.
pub open spec fn is_i64_type(t: i32) -> bool {
    t == 3 || t == 18 || t == 16
}

/// Types read as `u64`: uint64, fixed64.
pub open spec fn is_u64_type(t: i32) -> bool {
    t == 4 || t == 6
}

/// Types stored as numbers in an array: the integers, the floats and enums.
pub open spec fn is_number_type(t: i32) -> bool {
    is_i32_type(t) || is_u32_type(t) || is_i64_type(t) || is_u64_type(t) || t == 2 || t == 1
        || t == 14
}

/// The name of a descriptor type.
pub open spec fn spec_type_title(t: i32) -> Seq<char> {
    if t == 1 {
        "Double"@
    } else if t == 2 {
        "Float"@
    } else if t == 3 {
        "Int64"@
    } else if t == 4 {
        "Uint64"@
    } else if t == 5 {
        "Int32"@
    } else if t == 6 {
        "Fixed64"@
    } else if t == 7 {
        "Fixed32"@
    } else if t == 8 {
        "Bool"@
    } else if t == 9 {
        "String"@
    } else if t == 10 {
        "Group"@
    } else if t == 11 {
        "Message"@
    } else if t == 12 {
        "Bytes"@
    } else if t == 13 {
        "Uint32"@
    } else if t == 14 {
        "Enum"@
    } else if t == 15 {
        "Sfixed32"@
    } else if t == 16 {
        "Sfixed64"@
    } else if t == 17 {
        "Sint32"@
    } else {
        "Sint64"@
    }
}

/// The name of a descriptor type.
pub fn type_title(t: i32) -> (r: &'static str)
    ensures
        r@ == spec_type_title(t),
{
    if t == 1 {
        "Double"
    } else if t == 2 {
        "Float"
    } else if t == 3 {
        "Int64"
    } else if t == 4 {
        "Uint64"
    } else if t == 5 {
        "Int32"
    } else if t == 6 {
        "Fixed64"
    } else if t == 7 {
        "Fixed32"
    } else if t == 8 {
        "Bool"
    } else if t == 9 {
        "String"
    } else if t == 10 {
        "Group"
    } else if t == 11 {
        "Message"
    } else if t == 12 {
        "Bytes"
    } else if t == 13 {
        "Uint32"
    } else if t == 14 {
        "Enum"
    } else if t == 15 {
        "Sfixed32"
    } else if t == 16 {
        "Sfixed64"
    } else if t == 17 {
        "Sint32"
    } else {
        "Sint64"
    }
}

/// `String::push`: appends `c`.
#[verifier::external_body]
pub(crate) fn push_char(s: &mut String, c: char)
    ensures
        final(s)@ == old(s)@.push(c),
{
    s.push(c);
}

/// The decimal digit `d`.
pub open spec fn digit_char(d: nat) -> char {
    (d + 48) as char
}

/// The decimal numeral of `n`.
pub open spec fn spec_decimal(n: nat) -> Seq<char>
    decreases n,
{
    if n < 10 {
        seq![digit_char(n)]
    } else {
        spec_decimal(n / 10).push(digit_char(n % 10))
    }
}

/// The decimal numeral of `n`, with a minus sign when it is negative.
pub open spec fn spec_signed(n: int) -> Seq<char> {
    if n < 0 {
        seq!['-'] + spec_decimal((-n) as nat)
    } else {
        spec_decimal(n as nat)
    }
}

/// Appends the decimal numeral of `n`.
pub fn append_decimal(out: &mut String, n: u64)
    ensures
        final(out)@ == old(out)@ + spec_decimal(n as nat),
    decreases n,
{
    let ghost start = out@;
    if n >= 10 {
        append_decimal(out, n / 10);
    }
    let d: u8 = (n % 10) as u8;
    let c: char = (d + 48) as char;
    assert(c == digit_char((n % 10) as nat));
    push_char(out, c);
    proof {
        if n >= 10 {
            assert(out@ =~= start + spec_decimal(n as nat));
        } else {
            assert(out@ =~= start + spec_decimal(n as nat));
        }
    }
}

/// Appends the decimal numeral of `n`, with a minus sign when negative.
pub fn append_signed(out: &mut String, n: i64)
    requires
        n > i64::MIN,
    ensures
        final(out)@ == old(out)@ + spec_signed(n as int),
{
    let ghost start = out@;
    if n < 0 {
        push_char(out, '-');
        append_decimal(out, (-n) as u64);
        assert(out@ =~= start + spec_signed(n as int));
    } else {
        append_decimal(out, n as u64);
    }
}

/// What an alias is of: an array of booleans, another array, or a map.
#[derive(Clone, Copy, Debug, PartialEq, Eq, Structural)]
pub enum AliasTarget {
    BoolArray,
    Array,
    MapEntries,
}

/// The type of a field of a map entry: its descriptor type and the name of
/// the type it refers to.
#[derive(Debug)]
pub struct FieldShape {
    pub ty: i32,
    pub type_ref: String,
}

/// The key and the value field of a map entry, when it has them.
#[derive(Debug)]
pub struct EntryFields {
    pub key: Option<FieldShape>,
    pub value: Option<FieldShape>,
}

/// The types of a schema by fully qualified name (with a leading dot): the
/// Rust name of each message and enum, the map-entry messages, and what
/// each alias message is of.
#[derive(Debug)]
pub struct Registry {
    pub rust_types: Vec<(String, String)>,
    pub map_entries: Vec<(String, EntryFields)>,
    pub aliases: Vec<(String, AliasTarget)>,
}

/// A map entry by its key and value fields: the descriptor type of each and
/// the name of the type it refers to.
pub struct EntryModel {
    pub key: Option<(i32, Seq<char>)>,
    pub value: Option<(i32, Seq<char>)>,
}

/// The registry as maps from fully qualified names.
pub struct RegistryModel {
    pub rust_types: Map<Seq<char>, Seq<char>>,
    pub map_entries: Map<Seq<char>, EntryModel>,
    pub aliases: Map<Seq<char>, AliasTarget>,
}

/// A field shape by its descriptor type and the name of its type.
pub open spec fn shape_model(s: Option<FieldShape>) -> Option<(i32, Seq<char>)> {
    match s {
        Some(f) => Some((f.ty, f.type_ref@)),
        None => None,
    }
}

/// A map entry by its key and value fields.
pub open spec fn entry_model(e: EntryFields) -> EntryModel {
    EntryModel { key: shape_model(e.key), value: shape_model(e.value) }
}

impl Registry {
    /// No name is registered twice in any table.
    pub open spec fn wf(&self) -> bool {
        &&& keys_distinct(self.rust_types@)
        &&& keys_distinct(self.map_entries@)
        &&& keys_distinct(self.aliases@)
    }

    /// The tables as maps.
    pub open spec fn model(&self) -> RegistryModel {
        RegistryModel {
            rust_types: Map::new(
                |k: Seq<char>| has_key(self.rust_types@, k),
                |k: Seq<char>| value_of(self.rust_types@, k).unwrap()@,
            ),
            map_entries: Map::new(
                |k: Seq<char>| has_key(self.map_entries@, k),
                |k: Seq<char>| entry_model(value_of(self.map_entries@, k).unwrap()),
            ),
            aliases: Map::new(
                |k: Seq<char>| has_key(self.aliases@, k),
                |k: Seq<char>| value_of(self.aliases@, k).unwrap(),
            ),
        }
    }
}

impl RegistryModel {
    /// The Rust name registered for `name`.
    pub open spec fn rust_type_of(&self, name: Seq<char>) -> Option<Seq<char>> {
        if self.rust_types.contains_key(name) {
            Some(self.rust_types[name])
        } else {
            None
        }
    }

    /// The map entry registered for `name`.
    pub open spec fn entry_of(&self, name: Seq<char>) -> Option<EntryModel> {
        if self.map_entries.contains_key(name) {
            Some(self.map_entries[name])
        } else {
            None
        }
    }

    /// Whether `name` is a registered map entry.
    pub open spec fn is_entry(&self, name: Seq<char>) -> bool {
        self.map_entries.contains_key(name)
    }

    /// Whether `name` is a registered alias.
    pub open spec fn is_alias(&self, name: Seq<char>) -> bool {
        self.aliases.contains_key(name)
    }

    /// What the alias registered as `name` is of.
    pub open spec fn alias_of(&self, name: Seq<char>) -> Option<AliasTarget> {
        if self.aliases.contains_key(name) {
            Some(self.aliases[name])
        } else {
            None
        }
    }
}

/// A text result, by its characters.
pub open spec fn text(r: Result<String, String>) -> Result<Seq<char>, Seq<char>> {
    match r {
        Ok(s) => Ok(s@),
        Err(e) => Err(e@),
    }
}

/// The Rust name of the type registered as `full_name`.
pub open spec fn spec_rust_type_name(reg: RegistryModel, full_name: Seq<char>) -> Result<
    Seq<char>,
    Seq<char>,
> {
    match reg.rust_type_of(full_name) {
        Some(v) => Ok(v),
        None => Err("unknown type "@ + full_name),
    }
}

/// The Rust name of the type registered as `full_name`.
pub fn rust_type_name(reg: &Registry, full_name: &str) -> (r: Result<String, String>)
    requires
        reg.wf(),
    ensures
        text(r) == spec_rust_type_name(reg.model(), full_name@),
{
    let key: String = full_name.to_owned();
    match find_entry(&reg.rust_types, &key) {
        Some(i) => {
            proof {
                lemma_value_of(reg.rust_types@, i as int);
            }
            Ok(reg.rust_types[i].1.clone())
        },
        None => Err(String::from_str("unknown type ").concat(full_name)),
    }
}

/// The Rust name of the mutable type of the message registered as
/// `full_name`.
pub open spec fn spec_rust_mutable_base_name(reg: RegistryModel, full_name: Seq<char>) -> Result<
    Seq<char>,
    Seq<char>,
> {
    match spec_rust_type_name(reg, full_name) {
        Ok(v) => Ok(v + "Mutable"@),
        Err(e) => Err(e),
    }
}

/// The Rust name of the mutable type of the message registered as
/// `full_name`.
pub fn rust_mutable_base_name(reg: &Registry, full_name: &str) -> (r: Result<String, String>)
    requires
        reg.wf(),
    ensures
        text(r) == spec_rust_mutable_base_name(reg.model(), full_name@),
{
    match rust_type_name(reg, full_name) {
        Ok(v) => Ok(v.concat("Mutable")),
        Err(e) => Err(e),
    }
}

/// The map entry registered as `name`, when there is one.
pub(crate) fn find_map_entry<'a>(reg: &'a Registry, name: &str) -> (r: Option<&'a EntryFields>)
    requires
        reg.wf(),
    ensures
        match reg.model().entry_of(name@) {
            Some(e) => r matches Some(re) && entry_model(*re) == e,
            None => r is None,
        },
{
    let key: String = name.to_owned();
    match find_entry(&reg.map_entries, &key) {
        Some(i) => {
            proof {
                lemma_value_of(reg.map_entries@, i as int);
            }
            Some(&reg.map_entries[i].1)
        },
        None => None,
    }
}

/// Whether `name` is a registered alias.
pub fn has_alias(reg: &Registry, name: &str) -> (r: bool)
    ensures
        r == reg.model().is_alias(name@),
{
    let key: String = name.to_owned();
    find_entry(&reg.aliases, &key).is_some()
}

/// Whether a field is a map: a repeated message field whose type is a
/// registered map entry.
pub open spec fn spec_is_map_field(reg: RegistryModel, label: i32, ty: i32, type_ref: Seq<char>) -> bool {
    label == 3 && ty == 11 && reg.is_entry(type_ref)
}

/// Whether a field is a map.
pub fn is_map_field(reg: &Registry, label: i32, ty: i32, type_ref: &str) -> (r: bool)
    requires
        reg.wf(),
    ensures
        r == spec_is_map_field(reg.model(), label, ty, type_ref@),
{
    label == 3 && ty == 11 && find_map_entry(reg, type_ref).is_some()
}

/// The Rust type a map key of type `ty` has in a mutable map.
pub open spec fn spec_mutable_key_type(ty: i32) -> Result<Seq<char>, Seq<char>> {
    if ty == 9 {
        Ok("String"@)
    } else if is_i32_type(ty) {
        Ok("i32"@)
    } else if is_u32_type(ty) {
        Ok("u32"@)
    } else if is_i64_type(ty) {
        Ok("i64"@)
    } else if is_u64_type(ty) {
        Ok("u64"@)
    } else {
        Err("unsupported mutable map key type: "@ + spec_type_title(ty))
    }
}

/// The Rust type a map key of type `ty` has in a mutable map.
pub fn mutable_key_type(ty: i32) -> (r: Result<String, String>)
    ensures
        text(r) == spec_mutable_key_type(ty),
{
    if ty == 9 {
        Ok(String::from_str("String"))
    } else if ty == 5 || ty == 17 || ty == 15 {
        Ok(String::from_str("i32"))
    } else if ty == 13 || ty == 7 {
        Ok(String::from_str("u32"))
    } else if ty == 3 || ty == 18 || ty == 16 {
        Ok(String::from_str("i64"))
    } else if ty == 4 || ty == 6 {
        Ok(String::from_str("u64"))
    } else {
        Err(String::from_str("unsupported mutable map key type: ").concat(type_title(ty)))
    }
}

/// The Rust type a value of type `ty` has in a mutable message.
pub open spec fn spec_mutable_value_type(reg: RegistryModel, ty: i32, type_ref: Seq<char>) -> Result<
    Seq<char>,
    Seq<char>,
> {
    if ty == 8 {
        Ok("bool"@)
    } else if is_i32_type(ty) {
        Ok("i32"@)
    } else if is_u32_type(ty) {
        Ok("u32"@)
    } else if is_i64_type(ty) {
        Ok("i64"@)
    } else if is_u64_type(ty) {
        Ok("u64"@)
    } else if ty == 2 {
        Ok("f32"@)
    } else if ty == 1 {
        Ok("f64"@)
    } else if ty == 9 {
        Ok("String"@)
    } else if ty == 12 {
        Ok("Vec<u8>"@)
    } else if ty == 14 {
        Ok("i32"@)
    } else if ty == 11 {
        match spec_rust_mutable_base_name(reg, type_ref) {
            Ok(v) => Ok(v + "<'a>"@),
            Err(e) => Err(e),
        }
    } else {
        Err("unsupported mutable value type: "@ + spec_type_title(ty))
    }
}

/// The Rust type a value of type `ty` has in a mutable message.
pub fn mutable_value_type(reg: &Registry, ty: i32, type_ref: &str) -> (r: Result<String, String>)
    requires
        reg.wf(),
    ensures
        text(r) == spec_mutable_value_type(reg.model(), ty, type_ref@),
{
    if ty == 8 {
        Ok(String::from_str("bool"))
    } else if ty == 5 || ty == 17 || ty == 15 {
        Ok(String::from_str("i32"))
    } else if ty == 13 || ty == 7 {
        Ok(String::from_str("u32"))
    } else if ty == 3 || ty == 18 || ty == 16 {
        Ok(String::from_str("i64"))
    } else if ty == 4 || ty == 6 {
        Ok(String::from_str("u64"))
    } else if ty == 2 {
        Ok(String::from_str("f32"))
    } else if ty == 1 {
        Ok(String::from_str("f64"))
    } else if ty == 9 {
        Ok(String::from_str("String"))
    } else if ty == 12 {
        Ok(String::from_str("Vec<u8>"))
    } else if ty == 14 {
        Ok(String::from_str("i32"))
    } else if ty == 11 {
        match rust_mutable_base_name(reg, type_ref) {
            Ok(v) => Ok(v.concat("<'a>")),
            Err(e) => Err(e),
        }
    } else {
        Err(String::from_str("unsupported mutable value type: ").concat(type_title(ty)))
    }
}

/// The Rust type a value of type `ty` is read as.
pub open spec fn spec_decode_type_name(reg: RegistryModel, ty: i32, type_ref: Seq<char>) -> Result<
    Seq<char>,
    Seq<char>,
> {
    if ty == 8 {
        Ok("bool"@)
    } else if is_i32_type(ty) {
        Ok("i32"@)
    } else if is_u32_type(ty) {
        Ok("u32"@)
    } else if is_i64_type(ty) {
        Ok("i64"@)
    } else if is_u64_type(ty) {
        Ok("u64"@)
    } else if ty == 2 {
        Ok("f32"@)
    } else if ty == 1 {
        Ok("f64"@)
    } else if ty == 14 {
        Ok("i32"@)
    } else if ty == 9 || ty == 12 {
        Ok("StringView<'a>"@)
    } else if ty == 11 {
        match spec_rust_type_name(reg, type_ref) {
            Ok(v) => Ok(v + "<'a>"@),
            Err(e) => Err(e),
        }
    } else {
        Err("unsupported decode type: "@ + spec_type_title(ty))
    }
}

/// The Rust type a value of type `ty` is read as.
pub fn decode_type_name(reg: &Registry, ty: i32, type_ref: &str) -> (r: Result<String, String>)
    requires
        reg.wf(),
    ensures
        text(r) == spec_decode_type_name(reg.model(), ty, type_ref@),
{
    if ty == 8 {
        Ok(String::from_str("bool"))
    } else if ty == 5 || ty == 17 || ty == 15 {
        Ok(String::from_str("i32"))
    } else if ty == 13 || ty == 7 {
        Ok(String::from_str("u32"))
    } else if ty == 3 || ty == 18 || ty == 16 {
        Ok(String::from_str("i64"))
    } else if ty == 4 || ty == 6 {
        Ok(String::from_str("u64"))
    } else if ty == 2 {
        Ok(String::from_str("f32"))
    } else if ty == 1 {
        Ok(String::from_str("f64"))
    } else if ty == 14 {
        Ok(String::from_str("i32"))
    } else if ty == 9 || ty == 12 {
        Ok(String::from_str("StringView<'a>"))
    } else if ty == 11 {
        match rust_type_name(reg, type_ref) {
            Ok(v) => Ok(v.concat("<'a>")),
            Err(e) => Err(e),
        }
    } else {
        Err(String::from_str("unsupported decode type: ").concat(type_title(ty)))
    }
}

/// The expression that measures a single value of type `ty` held in
/// `var`.
pub open spec fn spec_singular_detect_expr(
    reg: RegistryModel,
    ty: i32,
    type_ref: Seq<char>,
    var: Seq<char>,
) -> Result<Seq<char>, Seq<char>> {
    if ty == 8 || is_number_type(ty) {
        Ok(var + ".detect_scalar()"@)
    } else if ty == 9 || ty == 12 {
        Ok(var + ".detect_string()"@)
    } else if ty == 11 {
        match spec_rust_type_name(reg, type_ref) {
            Ok(v) => Ok(v + "::detect("@ + var + ".object_words()?)"@),
            Err(e) => Err(e),
        }
    } else {
        Err("unsupported detect type: "@ + spec_type_title(ty))
    }
}

/// The expression that measures a single value of type `ty` held in
/// `var`.
pub fn singular_detect_expr(reg: &Registry, ty: i32, type_ref: &str, var: &str) -> (r: Result<
    String,
    String,
>)
    requires
        reg.wf(),
    ensures
        text(r) == spec_singular_detect_expr(reg.model(), ty, type_ref@, var@),
{
    if ty == 8 || ty == 5 || ty == 17 || ty == 15 || ty == 13 || ty == 7 || ty == 3 || ty == 18
        || ty == 16 || ty == 4 || ty == 6 || ty == 2 || ty == 1 || ty == 14 {
        Ok(String::from_str(var).concat(".detect_scalar()"))
    } else if ty == 9 || ty == 12 {
        Ok(String::from_str(var).concat(".detect_string()"))
    } else if ty == 11 {
        match rust_type_name(reg, type_ref) {
            Ok(v) => Ok(v.concat("::detect(").concat(var).concat(".object_words()?)")),
            Err(e) => Err(e),
        }
    } else {
        Err(String::from_str("unsupported detect type: ").concat(type_title(ty)))
    }
}

/// The key and value fields of the map entry registered as `type_ref`, or
/// the error naming what is missing.
pub open spec fn spec_entry_fields(reg: RegistryModel, type_ref: Seq<char>, missing: Seq<char>) -> Result<
    ((i32, Seq<char>), (i32, Seq<char>)),
    Seq<char>,
> {
    match reg.entry_of(type_ref) {
        None => Err(missing + type_ref),
        Some(e) => match e.key {
            None => Err("missing map key field for "@ + type_ref),
            Some(k) => match e.value {
                None => Err("missing map value field for "@ + type_ref),
                Some(v) => Ok((k, v)),
            },
        },
    }
}

/// The key and value fields of the map entry registered as `type_ref`.
pub(crate) fn entry_fields<'a>(reg: &'a Registry, type_ref: &str, missing: &str) -> (r: Result<
    (&'a FieldShape, &'a FieldShape),
    String,
>)
    requires
        reg.wf(),
    ensures
        match spec_entry_fields(reg.model(), type_ref@, missing@) {
            Ok((k, v)) => r matches Ok((rk, rv)) && rk.ty == k.0 && rk.type_ref@ == k.1 && rv.ty == v.0
                && rv.type_ref@ == v.1,
            Err(e) => r matches Err(m) && m@ == e,
        },
{
    match find_map_entry(reg, type_ref) {
        None => Err(String::from_str(missing).concat(type_ref)),
        Some(e) => match &e.key {
            None => Err(String::from_str("missing map key field for ").concat(type_ref)),
            Some(k) => match &e.value {
                None => Err(String::from_str("missing map value field for ").concat(type_ref)),
                Some(v) => Ok((k, v)),
            },
        },
    }
}

/// The expression that measures a field held in `var`: a map by its key
/// and value, a repeated field by its items, another field by its value.
pub open spec fn spec_field_detect_expr(
    reg: RegistryModel,
    label: i32,
    ty: i32,
    type_ref: Seq<char>,
    var: Seq<char>,
) -> Result<Seq<char>, Seq<char>> {
    if spec_is_map_field(reg, label, ty, type_ref) {
        match spec_entry_fields(reg, type_ref, "missing map entry for "@) {
            Err(e) => Err(e),
            Ok((k, v)) => match spec_singular_detect_expr(reg, k.0, k.1, "key"@) {
                Err(e) => Err(e),
                Ok(key_expr) => match spec_singular_detect_expr(reg, v.0, v.1, "value"@) {
                    Err(e) => Err(e),
                    Ok(value_expr) => Ok(
                        "protocache_core::detect_map_with("@ + var + ".object_words()?, |key| "@
                            + key_expr + ", |value| "@ + value_expr + ")"@,
                    ),
                },
            },
        }
    } else if label == 3 {
        if ty == 8 {
            Ok(var + ".detect_string()"@)
        } else if is_number_type(ty) {
            Ok(var + ".detect_array()"@)
        } else {
            match spec_singular_detect_expr(reg, ty, type_ref, "item"@) {
                Err(e) => Err(e),
                Ok(item_expr) => Ok(
                    "protocache_core::detect_array_with("@ + var + ".object_words()?, |item| "@
                        + item_expr + ")"@,
                ),
            }
        }
    } else {
        spec_singular_detect_expr(reg, ty, type_ref, var)
    }
}

/// The expression that measures a field held in `var`.
pub fn field_detect_expr(reg: &Registry, label: i32, ty: i32, type_ref: &str, var: &str) -> (r:
    Result<String, String>)
    requires
        reg.wf(),
    ensures
        text(r) == spec_field_detect_expr(reg.model(), label, ty, type_ref@, var@),
{
    if is_map_field(reg, label, ty, type_ref) {
        let (k, v) = match entry_fields(reg, type_ref, "missing map entry for ") {
            Ok(kv) => kv,
            Err(e) => {
                return Err(e);
            },
        };
        let key_expr = match singular_detect_expr(reg, k.ty, k.type_ref.as_str(), "key") {
            Ok(x) => x,
            Err(e) => {
                return Err(e);
            },
        };
        let value_expr = match singular_detect_expr(reg, v.ty, v.type_ref.as_str(), "value") {
            Ok(x) => x,
            Err(e) => {
                return Err(e);
            },
        };
        return Ok(
            String::from_str("protocache_core::detect_map_with(").concat(var).concat(
                ".object_words()?, |key| ",
            ).concat(key_expr.as_str()).concat(", |value| ").concat(value_expr.as_str()).concat(
                ")",
            ),
        );
    }
    if label == 3 {
        if ty == 8 {
            return Ok(String::from_str(var).concat(".detect_string()"));
        }
        if ty == 5 || ty == 17 || ty == 15 || ty == 13 || ty == 7 || ty == 3 || ty == 18 || ty
            == 16 || ty == 4 || ty == 6 || ty == 2 || ty == 1 || ty == 14 {
            return Ok(String::from_str(var).concat(".detect_array()"));
        }
        let item_expr = match singular_detect_expr(reg, ty, type_ref, "item") {
            Ok(x) => x,
            Err(e) => {
                return Err(e);
            },
        };
        return Ok(
            String::from_str("protocache_core::detect_array_with(").concat(var).concat(
                ".object_words()?, |item| ",
            ).concat(item_expr.as_str()).concat(")"),
        );
    }
    singular_detect_expr(reg, ty, type_ref, var)
}

/// An optional text result, by its characters.
pub open spec fn opt_text(r: Result<Option<String>, String>) -> Result<Option<Seq<char>>, Seq<char>> {
    match r {
        Ok(Some(s)) => Ok(Some(s@)),
        Ok(None) => Ok(None),
        Err(e) => Err(e@),
    }
}

/// The reader type of a repeated number or boolean field, when it is one.
pub open spec fn spec_repeated_scalar_return(label: i32, ty: i32) -> Option<Seq<char>> {
    if label != 3 {
        None
    } else if ty == 8 {
        Some("Option<BoolArray<'a>>"@)
    } else if is_i32_type(ty) {
        Some("Option<ScalarArray<'a, i32>>"@)
    } else if is_u32_type(ty) {
        Some("Option<ScalarArray<'a, u32>>"@)
    } else if is_i64_type(ty) {
        Some("Option<ScalarArray<'a, i64>>"@)
    } else if is_u64_type(ty) {
        Some("Option<ScalarArray<'a, u64>>"@)
    } else if ty == 2 {
        Some("Option<ScalarArray<'a, f32>>"@)
    } else if ty == 1 {
        Some("Option<ScalarArray<'a, f64>>"@)
    } else if ty == 14 {
        Some("Option<ScalarArray<'a, i32>>"@)
    } else {
        None
    }
}

/// The reader type of a repeated number or boolean field.
pub fn repeated_scalar_return(label: i32, ty: i32) -> (r: Option<String>)
    ensures
        match spec_repeated_scalar_return(label, ty) {
            Some(t) => r matches Some(s) && s@ == t,
            None => r is None,
        },
{
    if label != 3 {
        None
    } else if ty == 8 {
        Some(String::from_str("Option<BoolArray<'a>>"))
    } else if ty == 5 || ty == 17 || ty == 15 {
        Some(String::from_str("Option<ScalarArray<'a, i32>>"))
    } else if ty == 13 || ty == 7 {
        Some(String::from_str("Option<ScalarArray<'a, u32>>"))
    } else if ty == 3 || ty == 18 || ty == 16 {
        Some(String::from_str("Option<ScalarArray<'a, i64>>"))
    } else if ty == 4 || ty == 6 {
        Some(String::from_str("Option<ScalarArray<'a, u64>>"))
    } else if ty == 2 {
        Some(String::from_str("Option<ScalarArray<'a, f32>>"))
    } else if ty == 1 {
        Some(String::from_str("Option<ScalarArray<'a, f64>>"))
    } else if ty == 14 {
        Some(String::from_str("Option<ScalarArray<'a, i32>>"))
    } else {
        None
    }
}

/// The expression that reads a repeated number or boolean field numbered
/// `number` from `array_expr`.
pub open spec fn spec_repeated_scalar_expr(ty: i32, number: i32, array_expr: Seq<char>) -> Result<
    Seq<char>,
    Seq<char>,
> {
    if ty == 8 {
        Ok("self.view.bools("@ + spec_signed(number - 1) + "usize)"@)
    } else if is_i32_type(ty) {
        Ok(array_expr + ".scalars::<i32>()"@)
    } else if is_u32_type(ty) {
        Ok(array_expr + ".scalars::<u32>()"@)
    } else if is_i64_type(ty) {
        Ok(array_expr + ".scalars::<i64>()"@)
    } else if is_u64_type(ty) {
        Ok(array_expr + ".scalars::<u64>()"@)
    } else if ty == 2 {
        Ok(array_expr + ".scalars::<f32>()"@)
    } else if ty == 1 {
        Ok(array_expr + ".scalars::<f64>()"@)
    } else if ty == 14 {
        Ok(array_expr + ".scalars::<i32>()"@)
    } else {
        Err("unsupported repeated scalar type: "@ + spec_type_title(ty))
    }
}

/// The expression that reads a repeated number or boolean field.
pub fn repeated_scalar_expr(ty: i32, number: i32, array_expr: &str) -> (r: Result<String, String>)
    requires
        number > i32::MIN,
    ensures
        text(r) == spec_repeated_scalar_expr(ty, number, array_expr@),
{
    if ty == 8 {
        let mut s = String::from_str("self.view.bools(");
        append_signed(&mut s, (number - 1) as i64);
        s.append("usize)");
        Ok(s)
    } else if ty == 5 || ty == 17 || ty == 15 {
        Ok(String::from_str(array_expr).concat(".scalars::<i32>()"))
    } else if ty == 13 || ty == 7 {
        Ok(String::from_str(array_expr).concat(".scalars::<u32>()"))
    } else if ty == 3 || ty == 18 || ty == 16 {
        Ok(String::from_str(array_expr).concat(".scalars::<i64>()"))
    } else if ty == 4 || ty == 6 {
        Ok(String::from_str(array_expr).concat(".scalars::<u64>()"))
    } else if ty == 2 {
        Ok(String::from_str(array_expr).concat(".scalars::<f32>()"))
    } else if ty == 1 {
        Ok(String::from_str(array_expr).concat(".scalars::<f64>()"))
    } else if ty == 14 {
        Ok(String::from_str(array_expr).concat(".scalars::<i32>()"))
    } else {
        Err(String::from_str("unsupported repeated scalar type: ").concat(type_title(ty)))
    }
}

/// The reader type of a repeated string, bytes or message field that is no
/// map, when it is one.
pub open spec fn spec_repeated_view_return(reg: RegistryModel, label: i32, ty: i32, type_ref: Seq<char>) -> Result<
    Option<Seq<char>>,
    Seq<char>,
> {
    if ty == 9 || ty == 12 {
        Ok(Some("ViewArray<'a, StringView<'a>>"@))
    } else if ty == 11 {
        if spec_is_map_field(reg, label, ty, type_ref) {
            Ok(None)
        } else {
            match spec_rust_type_name(reg, type_ref) {
                Ok(t) => Ok(Some("ViewArray<'a, "@ + t + "<'a>>"@)),
                Err(e) => Err(e),
            }
        }
    } else {
        Ok(None)
    }
}

/// The reader type of a repeated string, bytes or message field.
pub fn repeated_view_return(reg: &Registry, label: i32, ty: i32, type_ref: &str) -> (r: Result<
    Option<String>,
    String,
>)
    requires
        reg.wf(),
    ensures
        opt_text(r) == spec_repeated_view_return(reg.model(), label, ty, type_ref@),
{
    if ty == 9 || ty == 12 {
        Ok(Some(String::from_str("ViewArray<'a, StringView<'a>>")))
    } else if ty == 11 {
        if is_map_field(reg, label, ty, type_ref) {
            Ok(None)
        } else {
            match rust_type_name(reg, type_ref) {
                Ok(t) => Ok(Some(String::from_str("ViewArray<'a, ").concat(t.as_str()).concat("<'a>>"))),
                Err(e) => Err(e),
            }
        }
    } else {
        Ok(None)
    }
}

/// The reader type of a map field whose entry is registered as
/// `type_ref`.
pub open spec fn spec_map_view_return(reg: RegistryModel, type_ref: Seq<char>) -> Result<Seq<char>, Seq<char>> {
    match spec_entry_fields(reg, type_ref, "missing map entry for "@) {
        Err(e) => Err(e),
        Ok((k, v)) => match spec_decode_type_name(reg, k.0, k.1) {
            Err(e) => Err(e),
            Ok(kt) => match spec_decode_type_name(reg, v.0, v.1) {
                Err(e) => Err(e),
                Ok(vt) => Ok("ViewMap<'a, "@ + kt + ", "@ + vt + ">"@),
            },
        },
    }
}

/// The reader type of a map field.
pub fn map_view_return(reg: &Registry, type_ref: &str) -> (r: Result<String, String>)
    requires
        reg.wf(),
    ensures
        text(r) == spec_map_view_return(reg.model(), type_ref@),
{
    let (k, v) = match entry_fields(reg, type_ref, "missing map entry for ") {
        Ok(kv) => kv,
        Err(e) => {
            return Err(e);
        },
    };
    let kt = match decode_type_name(reg, k.ty, k.type_ref.as_str()) {
        Ok(t) => t,
        Err(e) => {
            return Err(e);
        },
    };
    let vt = match decode_type_name(reg, v.ty, v.type_ref.as_str()) {
        Ok(t) => t,
        Err(e) => {
            return Err(e);
        },
    };
    Ok(String::from_str("ViewMap<'a, ").concat(kt.as_str()).concat(", ").concat(vt.as_str()).concat(">"))
}

/// The type a field has in a mutable message: a mutable map, a mutable
/// array, a boxed message, or the value type.
pub open spec fn spec_mutable_field_type(reg: RegistryModel, label: i32, ty: i32, type_ref: Seq<char>) -> Result<
    Seq<char>,
    Seq<char>,
> {
    if spec_is_map_field(reg, label, ty, type_ref) {
        match spec_entry_fields(reg, type_ref, "missing map entry for "@) {
            Err(e) => Err(e),
            Ok((k, v)) => match spec_mutable_key_type(k.0) {
                Err(e) => Err(e),
                Ok(kt) => match spec_mutable_value_type(reg, v.0, v.1) {
                    Err(e) => Err(e),
                    Ok(vt) => Ok("MutableMap<'a, "@ + kt + ", "@ + vt + ">"@),
                },
            },
        }
    } else if label == 3 {
        match spec_mutable_value_type(reg, ty, type_ref) {
            Err(e) => Err(e),
            Ok(vt) => Ok("MutableArray<'a, "@ + vt + ">"@),
        }
    } else if ty == 11 {
        match spec_mutable_value_type(reg, ty, type_ref) {
            Err(e) => Err(e),
            Ok(vt) => Ok("Box<"@ + vt + ">"@),
        }
    } else {
        spec_mutable_value_type(reg, ty, type_ref)
    }
}

/// The mutable map type of an entry's key and value.
fn mutable_map_type(reg: &Registry, k: &FieldShape, v: &FieldShape) -> (r: Result<String, String>)
    requires
        reg.wf(),
    ensures
        text(r) == match spec_mutable_key_type(k.ty) {
            Err(e) => Err(e),
            Ok(kt) => match spec_mutable_value_type(reg.model(), v.ty, v.type_ref@) {
                Err(e) => Err(e),
                Ok(vt) => Ok("MutableMap<'a, "@ + kt + ", "@ + vt + ">"@),
            },
        },
{
    let kt = match mutable_key_type(k.ty) {
        Ok(t) => t,
        Err(e) => {
            return Err(e);
        },
    };
    let vt = match mutable_value_type(reg, v.ty, v.type_ref.as_str()) {
        Ok(t) => t,
        Err(e) => {
            return Err(e);
        },
    };
    Ok(String::from_str("MutableMap<'a, ").concat(kt.as_str()).concat(", ").concat(vt.as_str()).concat(">"))
}

/// The type a field has in a mutable message.
pub fn mutable_field_type(reg: &Registry, label: i32, ty: i32, type_ref: &str) -> (r: Result<
    String,
    String,
>)
    requires
        reg.wf(),
    ensures
        text(r) == spec_mutable_field_type(reg.model(), label, ty, type_ref@),
{
    if is_map_field(reg, label, ty, type_ref) {
        let (k, v) = match entry_fields(reg, type_ref, "missing map entry for ") {
            Ok(kv) => kv,
            Err(e) => {
                return Err(e);
            },
        };
        return mutable_map_type(reg, k, v);
    }
    if label == 3 {
        return match mutable_value_type(reg, ty, type_ref) {
            Ok(vt) => Ok(String::from_str("MutableArray<'a, ").concat(vt.as_str()).concat(">")),
            Err(e) => Err(e),
        };
    }
    if ty == 11 {
        return match mutable_value_type(reg, ty, type_ref) {
            Ok(vt) => Ok(String::from_str("Box<").concat(vt.as_str()).concat(">")),
            Err(e) => Err(e),
        };
    }
    mutable_value_type(reg, ty, type_ref)
}

/// The type a mutable message's getter of a field returns: the message
/// itself for a singular message field, else the field's type, by mutable
/// reference.
pub open spec fn spec_mutable_getter_return_type(reg: RegistryModel, label: i32, ty: i32, type_ref: Seq<char>) -> Result<
    Seq<char>,
    Seq<char>,
> {
    if label == 1 && ty == 11 && !spec_is_map_field(reg, label, ty, type_ref) {
        match spec_mutable_value_type(reg, ty, type_ref) {
            Err(e) => Err(e),
            Ok(vt) => Ok("&mut "@ + vt),
        }
    } else {
        match spec_mutable_field_type(reg, label, ty, type_ref) {
            Err(e) => Err(e),
            Ok(ft) => Ok("&mut "@ + ft),
        }
    }
}

/// The type a mutable message's getter of a field returns.
pub fn mutable_getter_return_type(reg: &Registry, label: i32, ty: i32, type_ref: &str) -> (r:
    Result<String, String>)
    requires
        reg.wf(),
    ensures
        text(r) == spec_mutable_getter_return_type(reg.model(), label, ty, type_ref@),
{
    if label == 1 && ty == 11 && !is_map_field(reg, label, ty, type_ref) {
        match mutable_value_type(reg, ty, type_ref) {
            Ok(vt) => Ok(String::from_str("&mut ").concat(vt.as_str())),
            Err(e) => Err(e),
        }
    } else {
        match mutable_field_type(reg, label, ty, type_ref) {
            Ok(ft) => Ok(String::from_str("&mut ").concat(ft.as_str())),
            Err(e) => Err(e),
        }
    }
}

/// The mutable type of an alias: a mutable map for an alias of a map,
/// else a mutable array.
pub open spec fn spec_alias_mutable_type(reg: RegistryModel, label: i32, ty: i32, type_ref: Seq<char>) -> Result<
    Seq<char>,
    Seq<char>,
> {
    if spec_is_map_field(reg, label, ty, type_ref) {
        match spec_entry_fields(reg, type_ref, "missing alias map entry for "@) {
            Err(e) => Err(e),
            Ok((k, v)) => match spec_mutable_key_type(k.0) {
                Err(e) => Err(e),
                Ok(kt) => match spec_mutable_value_type(reg, v.0, v.1) {
                    Err(e) => Err(e),
                    Ok(vt) => Ok("MutableMap<'a, "@ + kt + ", "@ + vt + ">"@),
                },
            },
        }
    } else {
        match spec_mutable_value_type(reg, ty, type_ref) {
            Err(e) => Err(e),
            Ok(vt) => Ok("MutableArray<'a, "@ + vt + ">"@),
        }
    }
}

/// The mutable type of an alias.
pub fn alias_mutable_type(reg: &Registry, label: i32, ty: i32, type_ref: &str) -> (r: Result<
    String,
    String,
>)
    requires
        reg.wf(),
    ensures
        text(r) == spec_alias_mutable_type(reg.model(), label, ty, type_ref@),
{
    if is_map_field(reg, label, ty, type_ref) {
        let (k, v) = match entry_fields(reg, type_ref, "missing alias map entry for ") {
            Ok(kv) => kv,
            Err(e) => {
                return Err(e);
            },
        };
        mutable_map_type(reg, k, v)
    } else {
        match mutable_value_type(reg, ty, type_ref) {
            Ok(vt) => Ok(String::from_str("MutableArray<'a, ").concat(vt.as_str()).concat(">")),
            Err(e) => Err(e),
        }
    }
}

/// Where a field numbered `x` goes among fields ordered by number: before
/// the first that is not below it.
pub open spec fn first_at_least(order: Seq<usize>, fields: Seq<FieldDescriptorProto>, x: i32) -> int
    decreases order.len(),
{
    if order.len() == 0 {
        0
    } else if fields[order[0] as int].number >= x {
        0
    } else {
        1 + first_at_least(order.drop_first(), fields, x)
    }
}

/// Places field `j` among fields ordered by number, in place of one with
/// the same number.
pub open spec fn place_field(order: Seq<usize>, fields: Seq<FieldDescriptorProto>, j: usize) -> Seq<usize> {
    let p = first_at_least(order, fields, fields[j as int].number);
    if p < order.len() && fields[order[p] as int].number == fields[j as int].number {
        order.update(p, j)
    } else {
        order.insert(p, j)
    }
}

/// The live fields among the first `k`, by number, a later field taking the
/// place of an earlier one with the same number.
pub open spec fn by_number(fields: Seq<FieldDescriptorProto>, k: int) -> Seq<usize>
    decreases k,
{
    if k <= 0 {
        Seq::empty()
    } else if fields[k - 1].deprecated {
        by_number(fields, k - 1)
    } else {
        place_field(by_number(fields, k - 1), fields, (k - 1) as usize)
    }
}

/// The live fields of a message by number, a later field taking the place
/// of an earlier one with the same number.
pub open spec fn live_order(fields: Seq<FieldDescriptorProto>) -> Seq<usize> {
    by_number(fields, fields.len() as int)
}

/// Placing a field keeps every place pointing at one of the first fields.
proof fn lemma_place_bounds(order: Seq<usize>, fields: Seq<FieldDescriptorProto>, j: usize, n: int)
    requires
        forall|i: int| 0 <= i < order.len() ==> order[i] < n,
        j < n,
    ensures
        forall|i: int| 0 <= i < place_field(order, fields, j).len() ==> place_field(order, fields, j)[i] < n,
        0 <= first_at_least(order, fields, fields[j as int].number) <= order.len(),
    decreases order.len(),
{
    lemma_first_at_least_bounds(order, fields, fields[j as int].number);
}

/// Where a field goes lies within the order.
proof fn lemma_first_at_least_bounds(order: Seq<usize>, fields: Seq<FieldDescriptorProto>, x: i32)
    ensures
        0 <= first_at_least(order, fields, x) <= order.len(),
    decreases order.len(),
{
    if order.len() > 0 && fields[order[0] as int].number < x {
        lemma_first_at_least_bounds(order.drop_first(), fields, x);
    }
}

/// The live fields of a message by number.
pub fn live_fields_by_number(fields: &Vec<FieldDescriptorProto>) -> (r: Vec<usize>)
    ensures
        r@ == live_order(fields@),
        forall|i: int| 0 <= i < r@.len() ==> r@[i] < fields@.len(),
{
    let mut order: Vec<usize> = Vec::new();
    let mut k: usize = 0;
    while k < fields.len()
        invariant
            k <= fields@.len(),
            order@ == by_number(fields@, k as int),
            forall|i: int| 0 <= i < order@.len() ==> order@[i] < fields@.len(),
        decreases fields@.len() - k,
    {
        if !fields[k].deprecated {
            let x: i32 = fields[k].number;
            let mut j: usize = 0;
            assert(order@.subrange(0, order@.len() as int) =~= order@);
            while j < order.len() && fields[order[j]].number < x
                invariant
                    j <= order@.len(),
                    forall|i: int| 0 <= i < order@.len() ==> order@[i] < fields@.len(),
                    first_at_least(order@, fields@, x) == j + first_at_least(
                        order@.subrange(j as int, order@.len() as int),
                        fields@,
                        x,
                    ),
                decreases order@.len() - j,
            {
                proof {
                    let sub = order@.subrange(j as int, order@.len() as int);
                    assert(sub.drop_first() =~= order@.subrange(j + 1, order@.len() as int));
                }
                j += 1;
            }
            proof {
                let sub = order@.subrange(j as int, order@.len() as int);
                if j == order@.len() {
                    assert(sub.len() == 0);
                } else {
                    assert(sub[0] == order@[j as int]);
                }
                lemma_place_bounds(order@, fields@, k, fields@.len() as int);
            }
            let ghost before = order@;
            if j < order.len() && fields[order[j]].number == x {
                order.set(j, k);
            } else {
                order.insert(j, k);
            }
            proof {
                assert(order@ == place_field(before, fields@, k));
            }
        }
        k += 1;
    }
    order
}

/// A letter in upper case; any other character as it is.
pub open spec fn ascii_upper(c: char) -> char {
    if 'a' <= c <= 'z' {
        ((c as int) - 32) as char
    } else {
        c
    }
}

/// A text with its letters in upper case.
pub open spec fn upper(s: Seq<char>) -> Seq<char>
    decreases s.len(),
{
    if s.len() == 0 {
        Seq::empty()
    } else {
        upper(s.drop_last()).push(ascii_upper(s.last()))
    }
}

/// Appends `s` with its letters in upper case.
pub fn append_upper(out: &mut String, s: &str)
    ensures
        final(out)@ == old(out)@ + upper(s@),
{
    let ghost start = out@;
    let n: usize = s.unicode_len();
    let mut i: usize = 0;
    while i < n
        invariant
            i <= n,
            n == s@.len(),
            out@ == start + upper(s@.subrange(0, i as int)),
        decreases n - i,
    {
        let c: char = s.get_char(i);
        let u: char = if 'a' <= c && c <= 'z' {
            let b: u8 = ((c as u32) - 32) as u8;
            b as char
        } else {
            c
        };
        assert(u == ascii_upper(c));
        push_char(out, u);
        proof {
            assert(s@.subrange(0, (i + 1) as int).drop_last() =~= s@.subrange(0, i as int));
            assert(out@ =~= start + upper(s@.subrange(0, (i + 1) as int)));
        }
        i += 1;
    }
    proof {
        assert(s@.subrange(0, n as int) =~= s@);
    }
}

/// What the alias registered as `name` is of.
pub fn alias_target(reg: &Registry, name: &str) -> (r: Option<AliasTarget>)
    requires
        reg.wf(),
    ensures
        r == reg.model().alias_of(name@),
{
    let key: String = name.to_owned();
    match find_entry(&reg.aliases, &key) {
        Some(i) => {
            proof {
                lemma_value_of(reg.aliases@, i as int);
            }
            Some(reg.aliases[i].1)
        },
        None => None,
    }
}

/// The Rust name registered as `name`.
pub fn find_rust_type(reg: &Registry, name: &str) -> (r: Option<String>)
    requires
        reg.wf(),
    ensures
        match reg.model().rust_type_of(name@) {
            Some(v) => r matches Some(s) && s@ == v,
            None => r is None,
        },
{
    let key: String = name.to_owned();
    match find_entry(&reg.rust_types, &key) {
        Some(i) => {
            proof {
                lemma_value_of(reg.rust_types@, i as int);
            }
            Some(reg.rust_types[i].1.clone())
        },
        None => None,
    }
}

} // verus!

