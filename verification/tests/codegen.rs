use protocache::codegen::{generate_enum, generate_getter, generate_rust_for_file, make_pad};
use protocache::codegen_registry::{build_registry, flatten_name, is_alias_message};
use protocache::codegen_types::{field_type, mutable_key_type, AliasTarget};
use protocache::reflection::{
    DescriptorProto, EnumDescriptorProto, EnumValueDescriptorProto, FieldDescriptorProto,
    FileDescriptorProto,
};

const OPTIONAL: i32 = 1;
const REPEATED: i32 = 3;
const INT32: i32 = 5;
const BOOL: i32 = 8;
const STRING: i32 = 9;
const MESSAGE: i32 = 11;
const FLOAT: i32 = 2;

fn field(name: &str, number: i32, label: i32, ty: i32, type_ref: &str) -> FieldDescriptorProto {
    FieldDescriptorProto {
        name: name.to_owned(),
        number,
        label: Some(label),
        type_code: Some(ty),
        type_ref: type_ref.to_owned(),
        deprecated: false,
        options: Vec::new(),
    }
}

fn message(name: &str, fields: Vec<FieldDescriptorProto>) -> DescriptorProto {
    DescriptorProto {
        name: name.to_owned(),
        fields,
        nested_types: Vec::new(),
        enum_types: Vec::new(),
        map_entry: false,
        deprecated: false,
        options: Vec::new(),
    }
}

fn mode_enum() -> EnumDescriptorProto {
    EnumDescriptorProto {
        name: "Mode".to_owned(),
        values: vec![
            EnumValueDescriptorProto { name: Some("MODE_A".to_owned()), number: Some(0) },
            EnumValueDescriptorProto { name: Some("MODE_B".to_owned()), number: Some(-2) },
        ],
        deprecated: false,
    }
}

fn demo_file() -> FileDescriptorProto {
    let mut root = message(
        "Root",
        vec![
            field("name", 2, OPTIONAL, STRING, ""),
            field("id", 1, OPTIONAL, INT32, ""),
            field("child", 3, OPTIONAL, MESSAGE, ".demo.nested.Child"),
            field("labels", 4, REPEATED, MESSAGE, ".demo.nested.Root.LabelsEntry"),
        ],
    );
    let mut entry = message(
        "LabelsEntry",
        vec![field("key", 1, OPTIONAL, STRING, ""), field("value", 2, OPTIONAL, MESSAGE, ".demo.nested.Child")],
    );
    entry.map_entry = true;
    root.nested_types = vec![entry];
    let child = message("Child", vec![field("flag", 1, OPTIONAL, BOOL, "")]);
    let floats = message("Floats", vec![field("_", 1, REPEATED, FLOAT, "")]);
    FileDescriptorProto {
        package: "demo.nested".to_owned(),
        enum_types: vec![mode_enum()],
        message_types: vec![child, root, floats],
    }
}

#[test]
fn writes_enums_with_their_values() {
    let mut out = String::new();
    generate_enum(&mut out, &mode_enum(), "  ");
    assert_eq!(
        out,
        "  #[derive(Clone, Copy, Debug, Eq, PartialEq)]\n  #[allow(non_camel_case_types)]\n  #[repr(i32)]\n  pub enum Mode {\n      MODE_A = 0,\n      MODE_B = -2,\n  }\n\n"
    );
}

#[test]
fn pads_four_spaces_per_level() {
    assert_eq!(make_pad(0), "");
    assert_eq!(make_pad(2), "        ");
}

#[test]
fn flattens_names_after_the_package() {
    assert_eq!(flatten_name(".demo.nested.Root.Inner", "demo.nested"), "RootInner");
    assert_eq!(flatten_name(".Root", ""), "Root");
    assert_eq!(flatten_name(".a.b", "x.y.z"), "");
}

#[test]
fn registers_rust_names_entries_and_aliases() {
    let files = [demo_file()];
    let reg = build_registry(&files, false);
    let rust = |k: &str| reg.rust_types.iter().find(|(n, _)| n == k).map(|(_, v)| v.clone());
    assert_eq!(rust(".demo.nested.Root").as_deref(), Some("Root"));
    assert_eq!(rust(".demo.nested.Mode").as_deref(), Some("Mode"));
    assert!(reg.map_entries.iter().any(|(n, _)| n == ".demo.nested.Root.LabelsEntry"));
    let alias = reg.aliases.iter().find(|(n, _)| n == ".demo.nested.Floats").map(|(_, t)| *t);
    assert_eq!(alias, Some(AliasTarget::Array));
    assert!(is_alias_message(&files[0].message_types[2]));
    assert!(!is_alias_message(&files[0].message_types[1]));
}

#[test]
fn writes_getters_by_field_type() {
    let files = [demo_file()];
    let reg = build_registry(&files, false);
    let mut out = String::new();
    generate_getter(&mut out, &reg, &field("id", 1, OPTIONAL, INT32, ""), "").unwrap();
    assert_eq!(out, "    pub fn id(self) -> i32 {\n        self.view.scalar::<i32>(0usize).unwrap_or_default()\n    }\n\n");
    let mut out = String::new();
    generate_getter(&mut out, &reg, &field("labels", 4, REPEATED, MESSAGE, ".demo.nested.Root.LabelsEntry"), "")
        .unwrap();
    assert_eq!(
        out,
        "    pub fn labels(self) -> Option<ViewMap<'a, StringView<'a>, Child<'a>>> {\n        Some(ViewMap::new(self.view.map(3usize)?))\n    }\n\n"
    );
    let mut out = String::new();
    let err = generate_getter(&mut out, &reg, &field("g", 1, OPTIONAL, 10, ""), "").unwrap_err();
    assert_eq!(err, "unsupported field type Group for g");
    let mut out = String::new();
    let err = generate_getter(&mut out, &reg, &field("m", 1, OPTIONAL, MESSAGE, ".demo.Missing"), "").unwrap_err();
    assert_eq!(err, "unknown type .demo.Missing");
}

#[test]
fn generates_readers_and_mutable_messages_for_a_file() {
    let code = generate_rust_for_file(&demo_file()).unwrap();
    let p8 = " ".repeat(8);
    let p12 = " ".repeat(12);
    let p16 = " ".repeat(16);
    for expected in [
        "// @generated by protoc-gen-pcrs.\n".to_owned(),
        "pub mod demo {\npub mod nested {\n\n".to_owned(),
        format!("{p8}use protocache_core::mutable::{{MutableArray, MutableArrayElement, MutableField, MutableMap, MutableMessage}};\n\n"),
        format!("{p8}pub enum Mode {{\n{p12}MODE_A = 0,\n{p12}MODE_B = -2,\n{p8}}}\n\n"),
        format!("{p8}pub struct Root<'a> {{\n{p12}view: MessageView<'a>,\n{p8}}}\n"),
        format!("{p12}pub const ID_FIELD_ID: usize = 0;\n{p12}pub const NAME_FIELD_ID: usize = 1;\n"),
        format!("{p12}pub fn name(self) -> Option<&'a str> {{\n{p16}self.view.string(1usize)?.as_str()\n{p12}}}\n"),
        format!("{p12}pub fn child(self) -> Option<Child<'a>> {{\n{p16}Some(Child::from_view(self.view.message(2usize)?))\n{p12}}}\n"),
        format!("{p12}__view__: MutableMessage<'a, 4, 1>,\n{p12}_id: i32,\n{p12}_name: String,\n{p12}_child: Box<ChildMutable<'a>>,\n{p12}_labels: MutableMap<'a, String, ChildMutable<'a>>,\n"),
        format!("{p16}let mut parts = [Unit::empty(); 4];\n{p16}self.__view__.serialize_field(3usize, &self._labels, buffer, &mut parts[3usize])?;\n"),
        format!("{p12}fn is_dirty(&self) -> bool {{ self.__view__.was_accessed(0usize) || self.__view__.was_accessed(1usize) || self.__view__.was_accessed(2usize) || self.__view__.was_accessed(3usize) }}\n"),
        format!("{p12}pub fn child(&mut self) -> &mut ChildMutable<'a> {{\n{p16}self.__view__.get_field(2usize, &mut self._child).as_mut()\n{p12}}}\n"),
        format!("{p8}pub struct Floats<'a> {{\n{p12}words: &'a [u32],\n{p8}}}\n"),
        format!("{p12}pub fn values(self) -> Option<ScalarArray<'a, f32>> {{\n{p16}ArrayView::new(self.words)?.scalars::<f32>()\n{p12}}}\n"),
        format!("{p8}pub type FloatsMutable<'a> = MutableArray<'a, f32>;\n\n"),
        format!("{p12}const FULL_NAME: &'static str = \".demo.nested.Root\";\n"),
        "} // mod nested\n} // mod demo\n".to_owned(),
    ] {
        assert!(code.contains(&expected), "missing fragment: {expected}");
    }
    assert!(code.ends_with("} // mod nested\n} // mod demo\n"));
}

#[test]
fn generation_errors_name_the_unknown_type() {
    let mut file = demo_file();
    file.message_types[1].fields.push(field("bad", 5, OPTIONAL, MESSAGE, ".demo.Nowhere"));
    let err = generate_rust_for_file(&file).unwrap_err();
    assert_eq!(err, "unknown type .demo.Nowhere");
}

#[test]
fn types_and_keys_follow_descriptor_numbers() {
    assert_eq!(field_type(None), 1);
    assert_eq!(field_type(Some(99)), 1);
    assert_eq!(field_type(Some(9)), 9);
    assert_eq!(mutable_key_type(9).unwrap(), "String");
    assert_eq!(mutable_key_type(8).unwrap_err(), "unsupported mutable map key type: Bool");
}
