use protocache::naming::{convert_ex_filename, convert_filename, package_depth, package_prefix};

#[test]
fn converts_proto_filenames() {
    assert_eq!(convert_filename("dir/item.proto"), "dir/item.pc.rs");
    assert_eq!(convert_ex_filename("dir/item.proto"), "dir/item.pc-ex.rs");
    assert_eq!(convert_filename("schema"), "schema.pc.rs");
}

#[test]
fn only_the_last_extension_is_replaced() {
    assert_eq!(convert_filename("a.b/c.d.proto"), "a.b/c.d.pc.rs");
    assert_eq!(convert_ex_filename("noext"), "noext.pc-ex.rs");
    assert_eq!(convert_filename(".proto"), ".pc.rs");
}

#[test]
fn package_prefix_and_depth() {
    assert_eq!(package_prefix(""), "");
    assert_eq!(package_prefix("demo.nested"), ".demo.nested");
    assert_eq!(package_depth(""), 0);
    assert_eq!(package_depth("demo"), 1);
    assert_eq!(package_depth("demo.nested.deep"), 3);
}
