use protocache::reflection::{
    file_entries_whole, load_descriptor_pool, Descriptor, DescriptorPool, DescriptorProto, EnumDescriptorProto, EnumValueDescriptorProto,
    Field, FieldDescriptorProto, FieldType, FileDescriptorProto, NamePart, RegisterError,
    UninterpretedOption,
};

const LABEL_OPTIONAL: i32 = 1;
const LABEL_REPEATED: i32 = 3;

const TYPE_DOUBLE: i32 = 1;
const TYPE_FLOAT: i32 = 2;
const TYPE_INT64: i32 = 3;
const TYPE_INT32: i32 = 5;
const TYPE_BOOL: i32 = 8;
const TYPE_STRING: i32 = 9;
const TYPE_GROUP: i32 = 10;
const TYPE_MESSAGE: i32 = 11;
const TYPE_ENUM: i32 = 14;

fn field_of<'a>(descriptor: &'a Descriptor, name: &str) -> &'a Field {
    &descriptor.fields.iter().find(|(n, _)| n == name).unwrap().1
}

fn tag_of<'a>(tags: &'a [(String, String)], name: &str) -> Option<&'a str> {
    tags.iter().find(|(n, _)| n == name).map(|(_, v)| v.as_str())
}

fn tag(name: &str, value: &str) -> UninterpretedOption {
    UninterpretedOption {
        name: vec![NamePart { name_part: name.to_owned(), is_extension: false }],
        string_value: Some(value.as_bytes().to_vec()),
    }
}

fn named_field(
    name: &str,
    number: i32,
    label: i32,
    ty: i32,
    type_ref: Option<&str>,
    deprecated: bool,
    tags: &[UninterpretedOption],
) -> FieldDescriptorProto {
    FieldDescriptorProto {
        name: name.to_owned(),
        number,
        label: Some(label),
        type_code: Some(ty),
        type_ref: type_ref.unwrap_or("").to_owned(),
        deprecated,
        options: tags.to_vec(),
    }
}

fn scalar_field(name: &str, number: i32, ty: i32) -> FieldDescriptorProto {
    named_field(name, number, LABEL_OPTIONAL, ty, None, false, &[])
}

fn message(name: &str, fields: Vec<FieldDescriptorProto>) -> DescriptorProto {
    DescriptorProto {
        name: name.to_owned(),
        fields,
        nested_types: Vec::new(),
        enum_types: Vec::new(),
        map_entry: false,
        deprecated: false,
        options: Vec::new(),
    }
}

fn file(package: &str, enums: Vec<EnumDescriptorProto>, messages: Vec<DescriptorProto>) -> FileDescriptorProto {
    FileDescriptorProto { package: package.to_owned(), enum_types: enums, message_types: messages }
}

fn map_entry(
    name: &str,
    key_type: i32,
    key_type_ref: Option<&str>,
    value_type: i32,
    value_type_ref: Option<&str>,
) -> DescriptorProto {
    let mut entry = message(
        name,
        vec![
            named_field("key", 1, LABEL_OPTIONAL, key_type, key_type_ref, false, &[]),
            named_field("value", 2, LABEL_OPTIONAL, value_type, value_type_ref, false, &[]),
        ],
    );
    entry.map_entry = true;
    entry
}

fn enum_descriptor(name: &str) -> EnumDescriptorProto {
    let value = |n: &str, number: i32| EnumValueDescriptorProto {
        name: Some(n.to_owned()),
        number: Some(number),
    };
    EnumDescriptorProto {
        name: name.to_owned(),
        values: vec![value("MODE_A", 0), value("MODE_B", 1), value("MODE_C", 2)],
        deprecated: false,
    }
}

fn main_message() -> DescriptorProto {
    let mut main = message(
        "Main",
        vec![
            scalar_field("id", 1, TYPE_INT32),
            named_field("score", 2, LABEL_OPTIONAL, TYPE_DOUBLE, None, false, &[tag("mark", "xyz")]),
            named_field("mode", 3, LABEL_OPTIONAL, TYPE_ENUM, Some("Mode"), false, &[]),
            named_field("object", 4, LABEL_OPTIONAL, TYPE_MESSAGE, Some("Small"), false, &[]),
            named_field("index", 5, LABEL_REPEATED, TYPE_MESSAGE, Some("Main.IndexEntry"), false, &[]),
            named_field("matrix", 6, LABEL_OPTIONAL, TYPE_MESSAGE, Some("Vec2D"), false, &[]),
            named_field("arrays", 7, LABEL_OPTIONAL, TYPE_MESSAGE, Some("ArrMap"), false, &[]),
        ],
    );
    main.nested_types = vec![map_entry("IndexEntry", TYPE_STRING, None, TYPE_INT32, None)];
    main.options = vec![tag("test_a", "123"), tag("test_b", "123")];
    main
}

fn small_message() -> DescriptorProto {
    message(
        "Small",
        vec![
            scalar_field("str", 4, TYPE_STRING),
            scalar_field("i32", 1, TYPE_INT32),
            scalar_field("flag", 2, TYPE_BOOL),
            named_field("junk", 5, LABEL_OPTIONAL, TYPE_INT64, None, true, &[]),
        ],
    )
}

fn vec2d_message() -> DescriptorProto {
    let mut vec2d = message(
        "Vec2D",
        vec![named_field("_", 1, LABEL_REPEATED, TYPE_MESSAGE, Some("Vec2D.Vec1D"), false, &[])],
    );
    vec2d.nested_types = vec![message(
        "Vec1D",
        vec![named_field("_", 1, LABEL_REPEATED, TYPE_FLOAT, None, false, &[])],
    )];
    vec2d
}

fn arr_map_message() -> DescriptorProto {
    let mut arr_map = message(
        "ArrMap",
        vec![named_field("_", 1, LABEL_REPEATED, TYPE_MESSAGE, Some("ArrMap.Entry"), false, &[])],
    );
    arr_map.nested_types = vec![
        message("Array", vec![named_field("_", 1, LABEL_REPEATED, TYPE_FLOAT, None, false, &[])]),
        map_entry("Entry", TYPE_STRING, None, TYPE_MESSAGE, Some("ArrMap.Array")),
    ];
    arr_map
}

fn fixture_file() -> FileDescriptorProto {
    file(
        "test",
        vec![enum_descriptor("Mode")],
        vec![small_message(), vec2d_message(), arr_map_message(), main_message()],
    )
}

fn big_object_file(count: usize) -> FileDescriptorProto {
    let fields = (1..=count).map(|i| scalar_field(&format!("i{i}"), i as i32, TYPE_INT32)).collect();
    file("", Vec::new(), vec![message("Object", fields)])
}

fn empty_message_file() -> FileDescriptorProto {
    file("", Vec::new(), vec![message("Empty", Vec::new())])
}

fn duplicate_id_file() -> FileDescriptorProto {
    file(
        "",
        Vec::new(),
        vec![message("Dup", vec![scalar_field("a", 1, TYPE_INT32), scalar_field("b", 1, TYPE_INT32)])],
    )
}

fn invalid_alias_file() -> FileDescriptorProto {
    file(
        "",
        Vec::new(),
        vec![message("Alias", vec![named_field("_", 1, LABEL_OPTIONAL, TYPE_INT32, None, false, &[])])],
    )
}

fn unknown_type_file() -> FileDescriptorProto {
    file(
        "",
        Vec::new(),
        vec![message(
            "Root",
            vec![named_field("child", 1, LABEL_OPTIONAL, TYPE_MESSAGE, Some("Missing"), false, &[])],
        )],
    )
}

fn unsupported_map_key_file() -> FileDescriptorProto {
    let mut root = message(
        "Root",
        vec![named_field("items", 1, LABEL_REPEATED, TYPE_MESSAGE, Some("ByFlagEntry"), false, &[])],
    );
    root.nested_types = vec![map_entry("ByFlagEntry", TYPE_BOOL, None, TYPE_INT32, None)];
    file("", Vec::new(), vec![root])
}

fn overly_sparse_file() -> FileDescriptorProto {
    file(
        "",
        Vec::new(),
        vec![message("Sparse", vec![scalar_field("a", 1, TYPE_INT32), scalar_field("z", 20, TYPE_INT32)])],
    )
}

#[test]
fn registers_targeted_schema_and_resolves_aliases() {
    let mut pool = DescriptorPool::default();
    pool.register(&fixture_file()).unwrap();

    let root = pool.find("test.Main").unwrap();
    assert_eq!(tag_of(&root.tags, "test_b"), Some("123"));

    let score = field_of(root, "score");
    assert_eq!(score.id, 1);
    assert!(!score.repeated);
    assert_eq!(score.value, FieldType::Double);
    assert_eq!(tag_of(&score.tags, "mark"), Some("xyz"));

    let mode = field_of(root, "mode");
    assert_eq!(mode.value, FieldType::Enum);
    assert!(mode.value_type.is_empty());
    assert_eq!(pool.find_enum_number("test.Mode", "MODE_C"), Some(2));

    let object = field_of(root, "object");
    assert_eq!(object.value, FieldType::Message);
    assert_eq!(object.value_type, "test.Small");
    let object_desc = pool.find(&object.value_type).unwrap();
    assert!(!object_desc.is_alias());
    assert_eq!(field_of(object_desc, "flag").value, FieldType::Bool);

    let index = field_of(root, "index");
    assert!(index.repeated);
    assert!(index.is_map());
    assert_eq!(index.key, FieldType::String);
    assert_eq!(index.value, FieldType::Int32);

    let matrix = field_of(root, "matrix");
    let matrix_desc = pool.find(&matrix.value_type).unwrap();
    let outer_alias = &matrix_desc.alias;
    assert!(outer_alias.repeated);
    assert!(!outer_alias.is_map());
    assert_eq!(outer_alias.value, FieldType::Message);
    let inner_alias_desc = pool.find(&outer_alias.value_type).unwrap();
    let inner_alias = &inner_alias_desc.alias;
    assert!(inner_alias.repeated);
    assert_eq!(inner_alias.value, FieldType::Float);

    let arrays = field_of(root, "arrays");
    let arrays_desc = pool.find(&arrays.value_type).unwrap();
    let alias = &arrays_desc.alias;
    assert!(alias.repeated);
    assert!(alias.is_map());
    assert_eq!(alias.key, FieldType::String);
    assert_eq!(alias.value, FieldType::Message);
    let array_desc = pool.find(&alias.value_type).unwrap();
    assert_eq!(array_desc.alias.value, FieldType::Float);
}

#[test]
fn big_object_fields_keep_dense_zero_based_ids() {
    let mut pool = DescriptorPool::default();
    pool.register(&big_object_file(1000)).unwrap();

    let object = pool.find("Object").unwrap();
    for i in 1..=1000 {
        let name = format!("i{i}");
        assert_eq!(field_of(object, &name).id, i - 1);
    }
}

#[test]
fn rejects_invalid_shapes() {
    let mut pool = DescriptorPool::default();
    let err = pool.register(&empty_message_file()).unwrap_err();
    assert!(matches!(err, RegisterError::EmptyMessage { .. }));

    let mut pool = DescriptorPool::default();
    let err = pool.register(&duplicate_id_file()).unwrap_err();
    assert!(matches!(err, RegisterError::DuplicateFieldId { .. }));

    let mut pool = DescriptorPool::default();
    let err = pool.register(&invalid_alias_file()).unwrap_err();
    assert!(matches!(err, RegisterError::InvalidAlias { .. }));

    let mut pool = DescriptorPool::default();
    let err = pool.register(&unknown_type_file()).unwrap_err();
    assert!(matches!(err, RegisterError::UnknownType { .. }));

    let mut pool = DescriptorPool::default();
    let err = pool.register(&unsupported_map_key_file()).unwrap_err();
    assert!(matches!(err, RegisterError::UnsupportedMapKeyType { .. }));

    let mut pool = DescriptorPool::default();
    let err = pool.register(&overly_sparse_file()).unwrap_err();
    assert!(matches!(err, RegisterError::OverlySparseFieldIds { .. }));
}

#[test]
fn unknown_type_error_names_the_field_and_reference() {
    let mut pool = DescriptorPool::default();
    match pool.register(&unknown_type_file()).unwrap_err() {
        RegisterError::UnknownType { message, field, type_ref } => {
            assert_eq!(message, "Root");
            assert_eq!(field, "child");
            assert_eq!(type_ref, "Missing");
        }
        other => panic!("unexpected error {other:?}"),
    }
    // The message that failed to resolve is left out of the pool.
    assert!(pool.find("Root").is_none());
}

#[test]
fn references_resolve_to_the_innermost_enclosing_scope() {
    let mut outer = message("Outer", vec![named_field("inner", 1, LABEL_OPTIONAL, TYPE_MESSAGE, Some("Inner"), false, &[])]);
    outer.nested_types = vec![message("Inner", vec![scalar_field("x", 1, TYPE_INT32)])];
    let top_inner = message("Inner", vec![scalar_field("y", 1, TYPE_INT32)]);
    let mut pool = DescriptorPool::default();
    pool.register(&file("pkg", Vec::new(), vec![top_inner, outer])).unwrap();
    let outer_desc = pool.find("pkg.Outer").unwrap();
    assert_eq!(field_of(outer_desc, "inner").value_type, "pkg.Outer.Inner");
    // A leading dot names the type from the root.
    let absolute = message("Abs", vec![named_field("v", 1, LABEL_OPTIONAL, TYPE_MESSAGE, Some(".pkg.Inner"), false, &[])]);
    pool.register(&file("pkg", Vec::new(), vec![absolute])).unwrap();
    assert_eq!(field_of(pool.find("pkg.Abs").unwrap(), "v").value_type, "pkg.Inner");
}

#[test]
fn rejects_invalid_numbers_groups_and_duplicates() {
    let mut pool = DescriptorPool::default();
    let err = pool
        .register(&file("", Vec::new(), vec![message("Neg", vec![scalar_field("a", 0, TYPE_INT32)])]))
        .unwrap_err();
    assert!(matches!(err, RegisterError::InvalidFieldNumber { number: 0, .. }));

    let mut pool = DescriptorPool::default();
    let err = pool
        .register(&file("", Vec::new(), vec![message("G", vec![scalar_field("g", 1, TYPE_GROUP)])]))
        .unwrap_err();
    assert!(matches!(err, RegisterError::UnsupportedFieldType { .. }));

    let mut pool = DescriptorPool::default();
    let twice = file(
        "",
        Vec::new(),
        vec![message("Same", vec![scalar_field("a", 1, TYPE_INT32)]), message("Same", vec![scalar_field("b", 1, TYPE_INT32)])],
    );
    let err = pool.register(&twice).unwrap_err();
    assert!(matches!(err, RegisterError::DuplicateDescriptor { .. }));
}

#[test]
fn deprecated_items_are_skipped() {
    let mut gone = message("Gone", vec![scalar_field("a", 1, TYPE_INT32)]);
    gone.deprecated = true;
    let mut old_enum = enum_descriptor("Old");
    old_enum.deprecated = true;
    let mut pool = DescriptorPool::default();
    pool.register(&file("p", vec![old_enum], vec![gone])).unwrap();
    assert!(pool.find("p.Gone").is_none());
    assert_eq!(pool.find_enum_number("p.Old", "MODE_A"), None);
}

#[test]
fn builds_reflection_pool_from_real_fixture_proto() {
    let pool = load_descriptor_pool(&vec![fixture_file()]).unwrap();

    let root = pool.find("test.Main").unwrap();
    assert_eq!(Some(field_of(root, "matrix").value_type.as_str()), Some("test.Vec2D"));
    assert!(pool.find("test.Vec2D").unwrap().is_alias());
    assert!(pool.find("test.ArrMap").unwrap().alias.is_map());
}

#[test]
fn loading_stops_at_the_first_invalid_file() {
    let err = load_descriptor_pool(&vec![fixture_file(), empty_message_file()]).unwrap_err();
    assert!(matches!(err, RegisterError::EmptyMessage { .. }));
}

#[test]
fn an_unreferenced_map_entry_may_lack_its_fields() {
    fn root_with_broken_entry() -> DescriptorProto {
        let mut root = message("Root", vec![scalar_field("id", 1, TYPE_INT32)]);
        let mut broken = map_entry("UnusedEntry", TYPE_STRING, None, TYPE_INT32, None);
        broken.fields.truncate(1);
        root.nested_types = vec![broken];
        root
    }
    let f = file("pkg", Vec::new(), vec![root_with_broken_entry()]);
    assert!(file_entries_whole(&f));
    assert!(load_descriptor_pool(&vec![f]).is_ok());

    let mut referring = root_with_broken_entry();
    referring.fields.push(named_field("unused", 2, LABEL_REPEATED, TYPE_MESSAGE, Some("UnusedEntry"), false, &[]));
    assert!(!file_entries_whole(&file("pkg", Vec::new(), vec![referring])));
}
