use ntex_grpc::prost_build::code_generator::{
    cut_prefix, keep_stripped, push_indent, snake_case, strip_enum_prefix,
};
use ntex_grpc::prost_build::{split_package_name, Module};

#[test]
fn test_strip_enum_prefix() {
    assert_eq!(strip_enum_prefix("Foo", "FooBar"), "Bar");
    assert_eq!(strip_enum_prefix("Foo", "Foobar"), "Foobar");
    assert_eq!(strip_enum_prefix("Foo", "Foo"), "Foo");
    assert_eq!(strip_enum_prefix("Foo", "Bar"), "Bar");
    assert_eq!(strip_enum_prefix("Foo", "Foo1"), "Foo1");
}

#[test]
fn strip_enum_prefix_ignores_case_of_prefix() {
    assert_eq!(strip_enum_prefix("foo", "FOOBar"), "Bar");
    assert_eq!(strip_enum_prefix("FOO", "fooBar"), "Bar");
    assert_eq!(strip_enum_prefix("LongerThanName", "Short"), "Short");
    assert_eq!(strip_enum_prefix("", "Name"), "Name");
    assert_eq!(strip_enum_prefix("", "name"), "name");
}

#[test]
fn the_prefix_is_cut_where_the_lowercase_begins_with_it() {
    assert_eq!(cut_prefix("Foo", "FooBar", "foo", "foobar"), "Bar");
    assert_eq!(cut_prefix("Foo", "Foobar", "foo", "foobar"), "bar");
    assert_eq!(cut_prefix("Foo", "Foo", "foo", "foo"), "");
    assert_eq!(cut_prefix("Foo", "Bar", "foo", "bar"), "Bar");
    // the lowercase decides, not the names themselves
    assert_eq!(cut_prefix("Foo", "FooBar", "xyz", "foobar"), "FooBar");
    assert_eq!(cut_prefix("Foo", "BarBaz", "bar", "barbaz"), "Baz");
    // a prefix longer than the name is never cut
    assert_eq!(cut_prefix("Longer", "Foo", "", "foo"), "Foo");

    assert_eq!(keep_stripped("FooBar", "Bar", true), "Bar");
    assert_eq!(keep_stripped("Foobar", "bar", false), "Foobar");
    assert_eq!(keep_stripped("Foo", "", true), "Foo");
    assert_eq!(keep_stripped("Foo", "", false), "Foo");
}

#[test]
fn a_package_name_is_split_at_its_dots() {
    assert_eq!(split_package_name("google.protobuf"), vec!["google", "protobuf"]);
    assert_eq!(split_package_name(".fooBar..BazQux."), vec!["fooBar", "BazQux"]);
    assert_eq!(split_package_name("one"), vec!["one"]);
    assert_eq!(split_package_name(""), Vec::<String>::new());
    assert_eq!(split_package_name("..."), Vec::<String>::new());
}

#[test]
fn snake_case_splits_at_uppercase() {
    assert_eq!(snake_case("SayHello"), "say_hello");
    assert_eq!(snake_case("sayHello"), "say_hello");
    assert_eq!(snake_case("hello"), "hello");
    assert_eq!(snake_case(""), "");
    assert_eq!(snake_case("ABC"), "a_b_c");
    assert_eq!(snake_case("get2Things"), "get2_things");
}

#[test]
fn push_indent_appends_four_spaces_per_level() {
    let mut buf = String::from("x");
    push_indent(&mut buf, 0);
    assert_eq!(buf, "x");
    push_indent(&mut buf, 1);
    assert_eq!(buf, "x    ");
    push_indent(&mut buf, 2);
    assert_eq!(buf, "x            ");
}

#[test]
fn module_from_package_name() {
    let module = Module::from_protobuf_package_name("helloworld");
    assert_eq!(module.parts(), vec!["helloworld"]);
    let module = Module::from_protobuf_package_name("google.protobuf");
    assert_eq!(module.parts(), vec!["google", "protobuf"]);
    assert_eq!(module.len(), 2);
    assert!(!module.is_empty());
    // empty parts are left out, and parts go to snake case
    let module = Module::from_protobuf_package_name(".fooBar..BazQux.");
    assert_eq!(module.parts(), vec!["foo_bar", "baz_qux"]);
    let module = Module::from_protobuf_package_name("");
    assert!(module.is_empty());
    assert_eq!(module.len(), 0);
}

#[test]
fn module_file_names() {
    let module = Module::from_parts(vec!["foo".to_string(), "bar".to_string()]);
    assert_eq!(module.to_file_name_or("_"), "foo_bar.rs");
    assert_eq!(module.part(0), "foo");
    assert_eq!(module.part(1), "bar");
    assert_eq!(module.to_partial_file_name(0), "foo");
    assert_eq!(module.to_partial_file_name(1), "foo.bar");
    let empty = Module::from_parts(Vec::new());
    assert_eq!(empty.to_file_name_or("_"), "_.rs");
    assert_eq!(empty.to_file_name_or("my.default"), "my_default.rs");
    assert_eq!(empty.to_file_name_or("already.rs"), "already.rs");
    let module = Module::from_parts(vec!["a".to_string(), "rs".to_string()]);
    assert_eq!(module.to_file_name_or("_"), "a.rs");
    assert_eq!(Module::from_parts(vec!["x".to_string()]), Module::from_parts(vec!["x".to_string()]));
}
