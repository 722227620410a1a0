use prost::Message;
use prost_types::compiler::CodeGeneratorResponse;
use protocache::response::response_bytes;
use protocache::plugin::{
    base_types_import, generate_file, generate_library_outputs, generate_mutable_message, generate_outputs,
    validate_request,
    OutputKind,
};
use protocache::codegen::generate_rust_for_file;
use protocache::codegen_registry::build_registry;
use protocache::reflection::{
    DescriptorProto, EnumDescriptorProto, EnumValueDescriptorProto, FieldDescriptorProto,
    FileDescriptorProto,
};

const OPTIONAL: i32 = 1;
const REPEATED: i32 = 3;
const FLOAT: i32 = 2;
const UINT64: i32 = 4;
const INT32: i32 = 5;
const BOOL: i32 = 8;
const STRING: i32 = 9;
const MESSAGE: i32 = 11;
const BYTES: i32 = 12;
const ENUM: i32 = 14;

fn field(name: &str, number: i32, label: i32, ty: i32, type_ref: Option<&str>) -> FieldDescriptorProto {
    FieldDescriptorProto {
        name: name.to_owned(),
        number,
        label: Some(label),
        type_code: Some(ty),
        type_ref: type_ref.unwrap_or_default().to_owned(),
        deprecated: false,
        options: Vec::new(),
    }
}

fn message(name: &str, fields: Vec<FieldDescriptorProto>) -> DescriptorProto {
    DescriptorProto {
        name: name.to_owned(),
        fields,
        nested_types: Vec::new(),
        enum_types: Vec::new(),
        map_entry: false,
        deprecated: false,
        options: Vec::new(),
    }
}

fn map_entry(name: &str, key_type: i32, key_ref: Option<&str>, value_type: i32, value_ref: Option<&str>) -> DescriptorProto {
    let mut entry = message(
        name,
        vec![field("key", 1, OPTIONAL, key_type, key_ref), field("value", 2, OPTIONAL, value_type, value_ref)],
    );
    entry.map_entry = true;
    entry
}

fn enum_value(name: &str, number: i32) -> EnumValueDescriptorProto {
    EnumValueDescriptorProto { name: Some(name.to_owned()), number: Some(number) }
}

fn representative_file() -> FileDescriptorProto {
    let child = message(
        "Child",
        vec![
            field("name", 1, OPTIONAL, STRING, None),
            field("parent", 2, OPTIONAL, MESSAGE, Some(".demo.nested.Root")),
        ],
    );
    let floats = message("Floats", vec![field("_", 1, REPEATED, FLOAT, None)]);
    let mut alias_map = message(
        "AliasMap",
        vec![field("_", 1, REPEATED, MESSAGE, Some(".demo.nested.AliasMap.EntriesEntry"))],
    );
    alias_map.nested_types = vec![map_entry("EntriesEntry", STRING, None, MESSAGE, Some(".demo.nested.Child"))];
    let mut obsolete = field("obsolete", 9, OPTIONAL, INT32, None);
    obsolete.deprecated = true;
    let mut root = message(
        "Root",
        vec![
            field("id", 1, OPTIONAL, INT32, None),
            field("title", 2, OPTIONAL, STRING, None),
            field("payload", 3, OPTIONAL, BYTES, None),
            field("mode", 4, OPTIONAL, ENUM, Some(".demo.nested.Mode")),
            field("child", 5, OPTIONAL, MESSAGE, Some(".demo.nested.Child")),
            field("values", 6, REPEATED, UINT64, None),
            field("labels", 7, REPEATED, MESSAGE, Some(".demo.nested.Root.LabelsEntry")),
            field("floats", 8, OPTIONAL, MESSAGE, Some(".demo.nested.Floats")),
            obsolete,
            field("inner", 10, OPTIONAL, MESSAGE, Some(".demo.nested.Root.Inner")),
            field("alias_map", 11, OPTIONAL, MESSAGE, Some(".demo.nested.AliasMap")),
        ],
    );
    root.nested_types = vec![
        map_entry("LabelsEntry", STRING, None, MESSAGE, Some(".demo.nested.Child")),
        message("Inner", vec![field("enabled", 1, OPTIONAL, BOOL, None)]),
    ];
    FileDescriptorProto {
        package: "demo.nested".to_owned(),
        enum_types: vec![EnumDescriptorProto {
            name: "Mode".to_owned(),
            values: vec![enum_value("MODE_UNSPECIFIED", 0), enum_value("MODE_ACTIVE", 1)],
            deprecated: false,
        }],
        message_types: vec![child, floats, alias_map, root],
    }
}

/// Checks the schema, then writes the files of the wanted schema files.
fn generate_response(
    files: Vec<FileDescriptorProto>,
    names: &[&str],
    wanted: &[&str],
    parameter: Option<&str>,
) -> Result<Vec<(String, String)>, String> {
    validate_request(&files).map_err(|err| format!("schema validation failed: {err:?}"))?;
    let names: Vec<String> = names.iter().map(|s| s.to_string()).collect();
    let wanted: Vec<String> = wanted.iter().map(|s| s.to_string()).collect();
    generate_outputs(&files, &names, &wanted, parameter == Some("extra"))
}

#[test]
fn generates_readonly_and_extra_for_representative_schema() {
    let response = generate_response(
        vec![representative_file()],
        &["schemas/complex.proto"],
        &["schemas/complex.proto"],
        Some("extra"),
    )
    .unwrap();
    assert_eq!(response.len(), 2);
    assert_eq!(response[0].0, "schemas/complex.pc.rs");
    assert_eq!(response[1].0, "schemas/complex.pc-ex.rs");

    let readonly = &response[0].1;
    for expected in [
        "pub mod demo {",
        "pub mod nested {",
        "pub enum Mode",
        "pub struct Child<'a>",
        "pub struct Root<'a>",
        "pub struct RootInner<'a>",
        "pub struct Floats<'a>",
        "pub struct AliasMap<'a>",
        "pub fn parent(self) -> Option<Root<'a>>",
        "pub fn labels(self) -> Option<ViewMap<'a, StringView<'a>, Child<'a>>>",
    ] {
        assert!(readonly.contains(expected), "missing readonly fragment: {expected}");
    }
    assert!(!readonly.contains("OBSOLETE_FIELD_ID"));
    assert!(!readonly.contains("fn obsolete("));

    let extra = &response[1].1;
    for expected in [
        "pub struct ChildMutable<'a>",
        "pub struct RootMutable<'a>",
        "pub struct RootInnerMutable<'a>",
        "pub type FloatsMutable<'a> = MutableArray<'a, f32>;",
        "pub type AliasMapMutable<'a> = MutableMap<'a, String, ChildMutable<'a>>;",
        "_labels: MutableMap<'a, String, ChildMutable<'a>>",
    ] {
        assert!(extra.contains(expected), "missing extra fragment: {expected}");
    }
    assert!(!extra.contains("_obsolete:"));
    assert!(!extra.contains("fn obsolete("));
}

#[test]
fn emits_only_requested_files_and_readonly_without_extra_parameter() {
    let dependency = FileDescriptorProto {
        package: String::new(),
        enum_types: Vec::new(),
        message_types: vec![message("Dependency", vec![field("value", 1, OPTIONAL, INT32, None)])],
    };
    let response = generate_response(
        vec![representative_file(), dependency],
        &["schemas/complex.proto", "dependency.proto"],
        &["dependency.proto"],
        None,
    )
    .unwrap();
    assert_eq!(response.len(), 1);
    assert_eq!(response[0].0, "dependency.pc.rs");
    assert!(response[0].1.contains("pub struct Dependency<'a>"));
}

#[test]
fn rejects_invalid_schema_before_generation() {
    let invalid = FileDescriptorProto {
        package: String::new(),
        enum_types: Vec::new(),
        message_types: vec![message("Empty", Vec::new())],
    };
    let error = generate_response(vec![invalid], &["invalid.proto"], &["invalid.proto"], Some("extra")).unwrap_err();
    assert!(error.contains("schema validation failed"));
    assert!(error.contains("EmptyMessage"));
}

#[test]
fn imports_the_package_types_into_the_extra_file() {
    assert_eq!(base_types_import("demo.nested"), "self::demo::nested::*");
    assert_eq!(base_types_import("demo"), "self::demo::*");
    assert_eq!(base_types_import(""), "self::*");
}

#[test]
fn starts_each_kind_of_file_with_its_imports() {
    let file = FileDescriptorProto { package: String::new(), enum_types: Vec::new(), message_types: Vec::new() };
    let files = [file];
    let reg = build_registry(&files, true);
    assert_eq!(
        generate_file(&files[0], &reg, OutputKind::Readonly).unwrap(),
        "// @generated by protoc-gen-pcrs.\nuse protocache_core::{ArrayView, BoolArray, EnumValue, FieldDecode, FieldView, MapView, MessageView, ScalarArray, StringView, ViewArray, ViewMap};\n\n"
    );
    assert_eq!(
        generate_file(&files[0], &reg, OutputKind::Extra).unwrap(),
        "// @generated by protoc-gen-pcrs.\n// Requires the corresponding .pc.rs file to be included first.\nuse protocache_core::{ArrayView, Buffer, EnumValue, FieldView, MutableError, Unit, serialize_message_at};\nuse protocache_core::mutable::{MutableArray, MutableArrayElement, MutableField, MutableMap, MutableMessage};\n\n"
    );
    let packaged = FileDescriptorProto { package: "a.b".to_owned(), enum_types: Vec::new(), message_types: Vec::new() };
    let files = [packaged];
    let reg = build_registry(&files, true);
    assert_eq!(
        generate_file(&files[0], &reg, OutputKind::Readonly).unwrap(),
        "// @generated by protoc-gen-pcrs.\npub mod a {\npub mod b {\n\n        use protocache_core::{ArrayView, BoolArray, EnumValue, FieldDecode, FieldView, MapView, MessageView, ScalarArray, StringView, ViewArray, ViewMap};\n\n} // mod b\n} // mod a\n"
    );
    assert!(generate_file(&files[0], &reg, OutputKind::Extra)
        .unwrap()
        .contains("use self::a::b::*;\n\n"));
}

#[test]
fn writes_a_mutable_message_by_reader_field_ids() {
    let point = message(
        "Point",
        vec![field("y", 2, OPTIONAL, INT32, None), field("x", 1, OPTIONAL, INT32, None)],
    );
    let files = [FileDescriptorProto { package: String::new(), enum_types: Vec::new(), message_types: vec![point] }];
    let reg = build_registry(&files, true);
    let mut out = String::new();
    generate_mutable_message(&mut out, &reg, &files[0].message_types[0], ".Point", "").unwrap();
    assert!(out.starts_with(
        "#[derive(Clone, Debug, Default)]\npub struct PointMutable<'a> {\n    __view__: MutableMessage<'a, 2, 1>,\n    _x: i32,\n    _y: i32,\n}\n\n"
    ));
    assert!(out.contains(
        "        self.__view__.serialize_field(Point::Y_FIELD_ID, &self._y, buffer, &mut parts[Point::Y_FIELD_ID])?;\n        self.__view__.serialize_field(Point::X_FIELD_ID, &self._x, buffer, &mut parts[Point::X_FIELD_ID])?;\n"
    ));
    assert!(out.contains("    fn is_dirty(&self) -> bool { self.__view__.has_any_accessed() }\n"));
    assert!(out.contains("            descriptor: \".Point\".to_owned(),\n"));
    let mut out = String::new();
    let err = generate_mutable_message(&mut out, &reg, &files[0].message_types[0], ".Missing", "").unwrap_err();
    assert_eq!(err, "missing rust name for .Missing");
}

#[test]
fn names_the_file_in_a_generation_error() {
    let broken = FileDescriptorProto {
        package: String::new(),
        enum_types: Vec::new(),
        message_types: vec![message("Broken", vec![field("g", 1, OPTIONAL, 10, None)])],
    };
    let names = vec!["broken.proto".to_owned()];
    let err = generate_outputs(&vec![broken], &names, &names, false).unwrap_err();
    assert!(err.starts_with("failed to generate broken.proto: "), "{err}");
}

#[test]
fn writes_one_file_per_wanted_schema_with_the_single_file_generator() {
    let files = vec![representative_file()];
    let names = vec!["schemas/complex.proto".to_owned()];
    let outputs = generate_library_outputs(&files, &names, &names).unwrap();
    assert_eq!(outputs.len(), 1);
    assert_eq!(outputs[0].0, "schemas/complex.pc.rs");
    assert_eq!(outputs[0].1, generate_rust_for_file(&files[0]).unwrap());
    let none = generate_library_outputs(&files, &names, &Vec::new()).unwrap();
    assert!(none.is_empty());
}

#[test]
fn answers_protoc_with_the_files_or_the_error() {
    let files = Ok(vec![("a.pc.rs".to_owned(), "// a\n".to_owned()), ("b.pc.rs".to_owned(), "// b\n".to_owned())]);
    let response = CodeGeneratorResponse::decode(response_bytes(&files).as_slice()).unwrap();
    assert_eq!(response.error, None);
    assert_eq!(response.file.len(), 2);
    assert_eq!(response.file[0].name(), "a.pc.rs");
    assert_eq!(response.file[1].content(), "// b\n");

    let failed: Result<Vec<(String, String)>, String> = Err("schema validation failed".to_owned());
    let response = CodeGeneratorResponse::decode(response_bytes(&failed).as_slice()).unwrap();
    assert_eq!(response.error.as_deref(), Some("schema validation failed"));
    assert!(response.file.is_empty());
}
