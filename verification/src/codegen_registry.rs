//! The registry the code generator builds from schema files: the Rust name
//! of every message and enum, the map-entry messages, and what each alias
//! message is of.

use vstd::prelude::*;
use vstd::string::{StrSliceExecFns, StringExecFns};
use crate::codegen_types::{
    field_label, field_type, label_of, push_char, type_of, AliasTarget, EntryFields, EntryModel, FieldShape,
    Registry, RegistryModel, entry_model,
};
use crate::naming::{count_char, find_last, last_index_of, lemma_last_index_bounds, package_prefix};
use crate::reflection::{
    find_entry, has_key, insert_entry, keys_distinct, normalize_type_ref, spec_normalize, value_of,
    DescriptorProto, EnumDescriptorProto, FieldDescriptorProto, FileDescriptorProto,
};

verus! {

/// The characters of a name that are no dots and follow at least `skip`
/// dots: its parts after the first `skip`, joined.
pub open spec fn flat_chars(s: Seq<char>, skip: int) -> Seq<char>
    decreases s.len(),
{
    if s.len() == 0 {
        Seq::empty()
    } else if s.last() != '.' && count_char(s.drop_last(), '.') >= skip {
        flat_chars(s.drop_last(), skip).push(s.last())
    } else {
        flat_chars(s.drop_last(), skip)
    }
}

/// The Rust name of a type: the parts of its full name after those of the
/// package, joined.
pub open spec fn spec_flatten(full_name: Seq<char>, package: Seq<char>) -> Seq<char> {
    let skip = if package.len() == 0 {
        0
    } else {
        count_char(spec_normalize(package), '.') + 1
    };
    flat_chars(spec_normalize(full_name), skip as int)
}

/// Dropping leading dots shortens a name, if anything.
proof fn lemma_normalize_len(s: Seq<char>)
    ensures
        spec_normalize(s).len() <= s.len(),
    decreases s.len(),
{
    if s.len() > 0 && s[0] == '.' {
        lemma_normalize_len(s.drop_first());
    }
}

/// The last part of a name, when it has a part after those of the
/// package; nothing otherwise.
pub open spec fn spec_last_part(full_name: Seq<char>, package: Seq<char>) -> Seq<char> {
    let skip = if package.len() == 0 {
        0
    } else {
        count_char(spec_normalize(package), '.') + 1
    };
    let name = spec_normalize(full_name);
    if count_char(name, '.') >= skip {
        match last_index_of(name, '.') {
            Some(i) => name.subrange(i + 1, name.len() as int),
            None => name,
        }
    } else {
        Seq::empty()
    }
}

/// The Rust name of a type: with `short`, an alias nested in another
/// message is named by its last part; else the parts after the package's
/// are joined.
pub open spec fn spec_flatten_for(full_name: Seq<char>, package: Seq<char>, nested_alias: bool, short: bool) -> Seq<char> {
    if short && nested_alias {
        spec_last_part(full_name, package)
    } else {
        spec_flatten(full_name, package)
    }
}

/// The number of dots in `s`.
fn count_dots(s: &str) -> (r: usize)
    ensures
        r == count_char(s@, '.'),
        r <= s@.len(),
{
    let n: usize = s.unicode_len();
    let mut count: usize = 0;
    let mut i: usize = 0;
    while i < n
        invariant
            i <= n,
            n == s@.len(),
            count == count_char(s@.subrange(0, i as int), '.'),
            count <= i,
        decreases n - i,
    {
        proof {
            assert(s@.subrange(0, (i + 1) as int).drop_last() =~= s@.subrange(0, i as int));
        }
        if s.get_char(i) == '.' {
            count += 1;
        }
        i += 1;
    }
    proof {
        assert(s@.subrange(0, n as int) =~= s@);
    }
    count
}

/// The Rust name of a type.
pub fn flatten_name(full_name: &str, package: &str) -> (r: String)
    requires
        package@.len() < usize::MAX,
    ensures
        r@ == spec_flatten(full_name@, package@),
{
    let skip: usize = if package.is_empty() {
        0
    } else {
        let normalized: String = normalize_type_ref(package);
        proof {
            lemma_normalize_len(package@);
        }
        count_dots(normalized.as_str()) + 1
    };
    let name: String = normalize_type_ref(full_name);
    let s: &str = name.as_str();
    let n: usize = s.unicode_len();
    let mut out = String::new();
    let mut dots: usize = 0;
    let mut i: usize = 0;
    while i < n
        invariant
            i <= n,
            n == s@.len(),
            dots == count_char(s@.subrange(0, i as int), '.'),
            dots <= i,
            out@ == flat_chars(s@.subrange(0, i as int), skip as int),
        decreases n - i,
    {
        let c: char = s.get_char(i);
        proof {
            assert(s@.subrange(0, (i + 1) as int).drop_last() =~= s@.subrange(0, i as int));
        }
        if c != '.' && dots >= skip {
            push_char(&mut out, c);
        }
        if c == '.' {
            dots += 1;
        }
        i += 1;
    }
    proof {
        assert(s@.subrange(0, n as int) =~= s@);
    }
    out
}

/// The last part of a name after those of the package.
pub fn last_part_name(full_name: &str, package: &str) -> (r: String)
    requires
        package@.len() < usize::MAX,
    ensures
        r@ == spec_last_part(full_name@, package@),
{
    let skip: usize = if package.is_empty() {
        0
    } else {
        let normalized: String = normalize_type_ref(package);
        proof {
            lemma_normalize_len(package@);
        }
        count_dots(normalized.as_str()) + 1
    };
    let name: String = normalize_type_ref(full_name);
    if count_dots(name.as_str()) >= skip {
        let s: &str = name.as_str();
        let n: usize = s.unicode_len();
        match find_last(s, '.') {
            Some(i) => String::from_str(s.substring_char(i + 1, n)),
            None => name.clone(),
        }
    } else {
        String::new()
    }
}

/// The registry with `name` given the Rust name `rust`.
pub open spec fn with_type(m: RegistryModel, name: Seq<char>, rust: Seq<char>) -> RegistryModel {
    RegistryModel { rust_types: m.rust_types.insert(name, rust), map_entries: m.map_entries, aliases: m.aliases }
}

/// The registry with `name` a map entry of fields `e`.
pub open spec fn with_entry(m: RegistryModel, name: Seq<char>, e: EntryModel) -> RegistryModel {
    RegistryModel { rust_types: m.rust_types, map_entries: m.map_entries.insert(name, e), aliases: m.aliases }
}

/// The registry with `name` an alias of `a`.
pub open spec fn with_alias(m: RegistryModel, name: Seq<char>, a: AliasTarget) -> RegistryModel {
    RegistryModel { rust_types: m.rust_types, map_entries: m.map_entries, aliases: m.aliases.insert(name, a) }
}

/// An empty registry.
pub open spec fn empty_model() -> RegistryModel {
    RegistryModel { rust_types: Map::empty(), map_entries: Map::empty(), aliases: Map::empty() }
}

/// The prefix of a package's full names: a dot and the package, or nothing.
pub open spec fn spec_package_prefix(package: Seq<char>) -> Seq<char> {
    if package.len() == 0 {
        Seq::empty()
    } else {
        "."@ + package
    }
}

/// The full name of a message: after its parent's, else after its
/// package's prefix.
pub open spec fn full_of(parent: Option<Seq<char>>, package: Seq<char>, name: Seq<char>) -> Seq<char> {
    match parent {
        Some(p) => p + "."@ + name,
        None => spec_package_prefix(package) + "."@ + name,
    }
}

/// A message is an alias when it has the single field `_`.
pub open spec fn is_alias_msg(message: DescriptorProto) -> bool {
    message.fields@.len() == 1 && message.fields@[0].name@ == "_"@
}

/// The shape of a field: its descriptor type and the name of its type.
pub open spec fn field_shape(f: FieldDescriptorProto) -> (i32, Seq<char>) {
    (type_of(f.type_code), f.type_ref@)
}

/// A map-entry message by its first two fields.
pub open spec fn entry_shapes(m: DescriptorProto) -> EntryModel {
    EntryModel {
        key: if m.fields@.len() >= 1 {
            Some(field_shape(m.fields@[0]))
        } else {
            None
        },
        value: if m.fields@.len() >= 2 {
            Some(field_shape(m.fields@[1]))
        } else {
            None
        },
    }
}

/// What an alias is of: booleans for a repeated `bool`, a map for a
/// message type that is a registered map entry, else an array.
pub open spec fn alias_target_for(m: RegistryModel, field: FieldDescriptorProto) -> AliasTarget {
    if label_of(field.label) == 3 && type_of(field.type_code) == 8 {
        AliasTarget::BoolArray
    } else if type_of(field.type_code) == 11 && m.map_entries.contains_key(field.type_ref@) {
        AliasTarget::MapEntries
    } else {
        AliasTarget::Array
    }
}

/// The registry after the enums nested in a message named `full`.
pub open spec fn collect_enums(m: RegistryModel, package: Seq<char>, full: Seq<char>, enums: Seq<EnumDescriptorProto>, i: int) -> RegistryModel
    decreases i,
{
    if i <= 0 {
        m
    } else {
        let prev = collect_enums(m, package, full, enums, i - 1);
        let name = full + "."@ + enums[i - 1].name@;
        with_type(prev, name, spec_flatten(name, package))
    }
}

/// The registry after a message and what it nests.
pub open spec fn spec_collect(m: RegistryModel, package: Seq<char>, parent: Option<Seq<char>>, message: DescriptorProto, short: bool) -> RegistryModel
    decreases message, 1int, 0int,
{
    let full = full_of(parent, package, message.name@);
    let m1 = with_type(m, full, spec_flatten_for(full, package, is_alias_msg(message) && parent is Some, short));
    let m2 = collect_nested(m1, package, full, message, message.nested_types@.len() as int, short);
    let m3 = collect_enums(m2, package, full, message.enum_types@, message.enum_types@.len() as int);
    if is_alias_msg(message) {
        with_alias(m3, full, alias_target_for(m3, message.fields@[0]))
    } else {
        m3
    }
}

/// The registry after the first `i` messages nested in a message named
/// `full`: a map entry is registered as one, another message is collected.
pub open spec fn collect_nested(m: RegistryModel, package: Seq<char>, full: Seq<char>, message: DescriptorProto, i: int, short: bool) -> RegistryModel
    decreases message, 0int, i,
{
    if i <= 0 || i > message.nested_types@.len() {
        m
    } else {
        let prev = collect_nested(m, package, full, message, i - 1, short);
        let nested = message.nested_types@[i - 1];
        if nested.map_entry {
            with_entry(prev, full + "."@ + nested.name@, entry_shapes(nested))
        } else {
            spec_collect(prev, package, Some(full), nested, short)
        }
    }
}

/// The registry after the first `i` top-level enums of a package.
pub open spec fn file_enums(m: RegistryModel, package: Seq<char>, enums: Seq<EnumDescriptorProto>, i: int) -> RegistryModel
    decreases i,
{
    if i <= 0 {
        m
    } else {
        with_type(file_enums(m, package, enums, i - 1), spec_package_prefix(package) + "."@ + enums[i - 1].name@, enums[i - 1].name@)
    }
}

/// The registry after the first `i` top-level messages of a package.
pub open spec fn file_messages(m: RegistryModel, package: Seq<char>, messages: Seq<DescriptorProto>, i: int, short: bool) -> RegistryModel
    decreases i,
{
    if i <= 0 {
        m
    } else {
        spec_collect(file_messages(m, package, messages, i - 1, short), package, None, messages[i - 1], short)
    }
}

/// The registry after a schema file.
pub open spec fn spec_register_file(m: RegistryModel, file: FileDescriptorProto, short: bool) -> RegistryModel {
    let enums = file_enums(m, file.package@, file.enum_types@, file.enum_types@.len() as int);
    file_messages(enums, file.package@, file.message_types@, file.message_types@.len() as int, short)
}

/// The registry after the first `k` schema files.
pub open spec fn spec_build(files: Seq<FileDescriptorProto>, k: int, short: bool) -> RegistryModel
    decreases k,
{
    if k <= 0 {
        empty_model()
    } else {
        spec_register_file(spec_build(files, k - 1, short), files[k - 1], short)
    }
}

/// An optional name by its characters.
pub open spec fn opt_view(p: Option<&str>) -> Option<Seq<char>> {
    match p {
        Some(s) => Some(s@),
        None => None,
    }
}

/// An empty registry.
pub fn new_registry() -> (r: Registry)
    ensures
        r.wf(),
        r.model() == empty_model(),
{
    let r = Registry { rust_types: Vec::new(), map_entries: Vec::new(), aliases: Vec::new() };
    assert(r.model().rust_types =~= Map::empty());
    assert(r.model().map_entries =~= Map::empty());
    assert(r.model().aliases =~= Map::empty());
    r
}

/// Gives `name` the Rust name `rust`.
fn add_rust_type(reg: &mut Registry, name: String, rust: String)
    requires
        old(reg).wf(),
    ensures
        final(reg).wf(),
        final(reg).model() == with_type(old(reg).model(), name@, rust@),
{
    let ghost m0 = reg.model();
    let ghost k = name@;
    let ghost v = rust@;
    insert_entry(&mut reg.rust_types, name, rust);
    proof {
        assert(reg.model().rust_types =~= m0.rust_types.insert(k, v));
        assert(reg.model().map_entries =~= m0.map_entries);
        assert(reg.model().aliases =~= m0.aliases);
    }
}

/// Registers `name` as a map entry of fields `e`.
fn add_map_entry(reg: &mut Registry, name: String, e: EntryFields)
    requires
        old(reg).wf(),
    ensures
        final(reg).wf(),
        final(reg).model() == with_entry(old(reg).model(), name@, entry_model(e)),
{
    let ghost m0 = reg.model();
    let ghost k = name@;
    let ghost v = entry_model(e);
    insert_entry(&mut reg.map_entries, name, e);
    proof {
        assert(reg.model().map_entries =~= m0.map_entries.insert(k, v));
        assert(reg.model().rust_types =~= m0.rust_types);
        assert(reg.model().aliases =~= m0.aliases);
    }
}

/// Registers `name` as an alias of `a`.
fn add_alias(reg: &mut Registry, name: String, a: AliasTarget)
    requires
        old(reg).wf(),
    ensures
        final(reg).wf(),
        final(reg).model() == with_alias(old(reg).model(), name@, a),
{
    let ghost m0 = reg.model();
    let ghost k = name@;
    insert_entry(&mut reg.aliases, name, a);
    proof {
        assert(reg.model().aliases =~= m0.aliases.insert(k, a));
        assert(reg.model().rust_types =~= m0.rust_types);
        assert(reg.model().map_entries =~= m0.map_entries);
    }
}

/// The key and value fields of a map-entry message.
fn entry_fields_of(m: &DescriptorProto) -> (r: EntryFields)
    ensures
        entry_model(r) == entry_shapes(*m),
{
    let key = if m.fields.len() >= 1 {
        Some(FieldShape { ty: field_type(m.fields[0].type_code), type_ref: m.fields[0].type_ref.clone() })
    } else {
        None
    };
    let value = if m.fields.len() >= 2 {
        Some(FieldShape { ty: field_type(m.fields[1].type_code), type_ref: m.fields[1].type_ref.clone() })
    } else {
        None
    };
    EntryFields { key, value }
}

/// Whether `name` is a registered map entry.
fn has_map_entry(reg: &Registry, name: &str) -> (r: bool)
    ensures
        r == reg.model().is_entry(name@),
{
    let key: String = name.to_owned();
    find_entry(&reg.map_entries, &key).is_some()
}

/// Whether a message is an alias: it has the single field `_`.
pub fn is_alias_message(message: &DescriptorProto) -> (r: bool)
    ensures
        r == is_alias_msg(*message),
{
    let underscore: String = String::from_str("_");
    message.fields.len() == 1 && message.fields[0].name == underscore
}

/// Registers a message and what it nests: its Rust name, its nested map
/// entries, messages and enums, and what it is of when it is an alias.
pub fn collect_message_types(reg: &mut Registry, package: &str, parent: Option<&str>, message: &DescriptorProto, short: bool)
    requires
        old(reg).wf(),
        package@.len() < usize::MAX,
    ensures
        final(reg).wf(),
        final(reg).model() == spec_collect(old(reg).model(), package@, opt_view(parent), *message, short),
    decreases message,
{
    let full: String = match parent {
        Some(p) => String::from_str(p).concat(".").concat(message.name.as_str()),
        None => package_prefix(package).concat(".").concat(message.name.as_str()),
    };
    assert(full@ == full_of(opt_view(parent), package@, message.name@));
    let flat: String = if short && is_alias_message(message) && parent.is_some() {
        last_part_name(full.as_str(), package)
    } else {
        flatten_name(full.as_str(), package)
    };
    add_rust_type(reg, full.clone(), flat);
    let ghost m1 = reg.model();
    let mut i: usize = 0;
    while i < message.nested_types.len()
        invariant
            i <= message.nested_types@.len(),
            reg.wf(),
            package@.len() < usize::MAX,
            reg.model() == collect_nested(m1, package@, full@, *message, i as int, short),
        decreases message.nested_types@.len() - i,
    {
        let nested: &DescriptorProto = &message.nested_types[i];
        if nested.map_entry {
            let name: String = String::from_str(full.as_str()).concat(".").concat(nested.name.as_str());
            add_map_entry(reg, name, entry_fields_of(nested));
        } else {
            collect_message_types(reg, package, Some(full.as_str()), nested, short);
        }
        i += 1;
    }
    let ghost m2 = reg.model();
    let mut j: usize = 0;
    while j < message.enum_types.len()
        invariant
            j <= message.enum_types@.len(),
            reg.wf(),
            package@.len() < usize::MAX,
            reg.model() == collect_enums(m2, package@, full@, message.enum_types@, j as int),
        decreases message.enum_types@.len() - j,
    {
        let name: String = String::from_str(full.as_str()).concat(".").concat(message.enum_types[j].name.as_str());
        let flat: String = flatten_name(name.as_str(), package);
        add_rust_type(reg, name, flat);
        j += 1;
    }
    if is_alias_message(message) {
        let field: &FieldDescriptorProto = &message.fields[0];
        let target: AliasTarget = if field_label(field.label) == 3 && field_type(field.type_code) == 8 {
            AliasTarget::BoolArray
        } else if field_type(field.type_code) == 11 && has_map_entry(reg, field.type_ref.as_str()) {
            AliasTarget::MapEntries
        } else {
            AliasTarget::Array
        };
        add_alias(reg, full, target);
    }
}

/// Registers the enums and messages of a schema file.
pub fn register_file(reg: &mut Registry, file: &FileDescriptorProto, short: bool)
    requires
        old(reg).wf(),
        file.package@.len() < usize::MAX,
    ensures
        final(reg).wf(),
        final(reg).model() == spec_register_file(old(reg).model(), *file, short),
{
    let package: &str = file.package.as_str();
    let ghost m0 = reg.model();
    let mut i: usize = 0;
    while i < file.enum_types.len()
        invariant
            i <= file.enum_types@.len(),
            package@ == file.package@,
            reg.wf(),
            reg.model() == file_enums(m0, file.package@, file.enum_types@, i as int),
        decreases file.enum_types@.len() - i,
    {
        let name: String = package_prefix(package).concat(".").concat(file.enum_types[i].name.as_str());
        add_rust_type(reg, name, file.enum_types[i].name.clone());
        i += 1;
    }
    let ghost m1 = reg.model();
    let mut k: usize = 0;
    while k < file.message_types.len()
        invariant
            k <= file.message_types@.len(),
            package@ == file.package@,
            package@.len() < usize::MAX,
            reg.wf(),
            reg.model() == file_messages(m1, file.package@, file.message_types@, k as int, short),
        decreases file.message_types@.len() - k,
    {
        collect_message_types(reg, package, None, &file.message_types[k], short);
        k += 1;
    }
}

/// The registry of a set of schema files.
pub fn build_registry(files: &[FileDescriptorProto], short: bool) -> (r: Registry)
    requires
        forall|i: int| 0 <= i < files@.len() ==> (#[trigger] files@[i]).package@.len() < usize::MAX,
    ensures
        r.wf(),
        r.model() == spec_build(files@, files@.len() as int, short),
{
    let mut reg = new_registry();
    let mut i: usize = 0;
    while i < files.len()
        invariant
            i <= files@.len(),
            reg.wf(),
            forall|i: int| 0 <= i < files@.len() ==> (#[trigger] files@[i]).package@.len() < usize::MAX,
            reg.model() == spec_build(files@, i as int, short),
        decreases files@.len() - i,
    {
        register_file(&mut reg, &files[i], short);
        i += 1;
    }
    reg
}

} // verus!
