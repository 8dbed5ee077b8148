use proto_regulate::descriptor::{EnumType, EnumValue, Field, FieldType, FileDescriptor, Label, Message};
use proto_regulate::merge::{merge_by_package, MergeError, MergeResult, MERGE_ALGORITHM_VERSION};
use proto_regulate::TEXT_GENERATOR_VERSION;

// Descriptors as the schema parser delivers them for the schema text
// quoted above each test.

fn file(syntax: &str, package: Option<&str>, messages: Vec<Message>) -> FileDescriptor {
    FileDescriptor {
        syntax: Some(syntax.to_string()),
        package: package.map(|p| p.to_string()),
        message_type: messages,
        ..Default::default()
    }
}

fn message(name: &str, fields: Vec<Field>) -> Message {
    Message { name: name.to_string(), field: fields, ..Default::default() }
}

fn scalar(name: &str, number: i32, t: FieldType) -> Field {
    Field {
        name: name.to_string(),
        number,
        label: Some(Label::Optional),
        field_type: Some(t),
        ..Default::default()
    }
}

fn merge(files: Vec<FileDescriptor>) -> Result<Vec<MergeResult>, MergeError> {
    merge_by_package(files)
}

#[test]
fn test_merge_algorithm_version() {
    assert!(MERGE_ALGORITHM_VERSION.starts_with("1.0.0+"));
    assert!(MERGE_ALGORITHM_VERSION.contains(TEXT_GENERATOR_VERSION));
}

#[test]
fn test_empty_input() {
    let result = merge(vec![]).unwrap();
    assert_eq!(result.len(), 0);
}

// syntax = "proto3"; package test; message User { string name = 1; }
#[test]
fn test_single_file() {
    let proto = file("proto3", Some("test"), vec![message("User", vec![scalar("name", 1, FieldType::TypeString)])]);
    let results = merge(vec![proto]).unwrap();
    assert_eq!(results.len(), 1);
    assert_eq!(results[0].package_name, "test");
    assert!(results[0].content.contains("message User"));
    assert!(!results[0].fingerprint.is_empty());
}

// package foo; message User { string name = 1; } / message Profile { int32 age = 1; }
#[test]
fn test_merge_same_package() {
    let file1 = file("proto3", Some("foo"), vec![message("User", vec![scalar("name", 1, FieldType::TypeString)])]);
    let file2 = file("proto3", Some("foo"), vec![message("Profile", vec![scalar("age", 1, FieldType::TypeInt32)])]);
    let results = merge(vec![file1, file2]).unwrap();
    assert_eq!(results.len(), 1);
    assert_eq!(results[0].package_name, "foo");
    assert!(results[0].content.contains("message User"));
    assert!(results[0].content.contains("message Profile"));
}

// package foo; message Foo {} / package bar; message Bar {}
#[test]
fn test_multiple_packages() {
    let file1 = file("proto3", Some("foo"), vec![message("Foo", vec![])]);
    let file2 = file("proto3", Some("bar"), vec![message("Bar", vec![])]);
    let results = merge(vec![file1, file2]).unwrap();
    assert_eq!(results.len(), 2);
    assert_eq!(results[0].package_name, "bar");
    assert_eq!(results[1].package_name, "foo");
}

// package test; message User { string name = 1; } / message User { string email = 1; }
#[test]
fn test_duplicate_message_error() {
    let file1 = file("proto3", Some("test"), vec![message("User", vec![scalar("name", 1, FieldType::TypeString)])]);
    let file2 = file("proto3", Some("test"), vec![message("User", vec![scalar("email", 1, FieldType::TypeString)])]);
    let result = merge(vec![file1, file2]);
    assert!(result.is_err());
    let err = result.unwrap_err();
    assert!(err.message().contains("Duplicate message 'User'"));
}

// syntax = "proto2"; package test; message Foo {} / syntax = "proto3"; package test; message Bar {}
#[test]
fn test_syntax_conflict_error() {
    let file1 = file("proto2", Some("test"), vec![message("Foo", vec![])]);
    let file2 = file("proto3", Some("test"), vec![message("Bar", vec![])]);
    let result = merge(vec![file1, file2]);
    assert!(result.is_err());
    let err = result.unwrap_err();
    assert!(err.message().contains("Syntax version conflict"));
}

// syntax = "proto3"; message Orphan { string data = 1; }
#[test]
fn test_empty_package() {
    let proto = file("proto3", None, vec![message("Orphan", vec![scalar("data", 1, FieldType::TypeString)])]);
    let results = merge(vec![proto]).unwrap();
    assert_eq!(results.len(), 1);
    assert_eq!(results[0].package_name, "");
}

// package test; message B {} message A {} / message A {} message B {}
#[test]
fn test_deterministic_output() {
    let file1 = file("proto3", Some("test"), vec![message("B", vec![]), message("A", vec![])]);
    let file2 = file("proto3", Some("test"), vec![message("A", vec![]), message("B", vec![])]);
    let results1 = merge(vec![file1]).unwrap();
    let results2 = merge(vec![file2]).unwrap();
    assert_eq!(results1[0].content, results2[0].content);
    assert_eq!(results1[0].fingerprint, results2[0].fingerprint);
}

// package foo.bar; message User {...} / package foo.bar; message Profile {...} / package baz; message Product {...}
#[test]
fn test_merge_goal_basic() {
    let file1 = file("proto3", Some("foo.bar"), vec![message("User", vec![scalar("name", 1, FieldType::TypeString)])]);
    let file2 = file("proto3", Some("foo.bar"), vec![message("Profile", vec![scalar("age", 1, FieldType::TypeInt32)])]);
    let file3 = file("proto3", Some("baz"), vec![message("Product", vec![scalar("id", 1, FieldType::TypeString)])]);
    let results = merge(vec![file1, file2, file3]).unwrap();
    assert_eq!(results.len(), 2, "two packages");
    assert_eq!(results[0].package_name, "baz");
    assert!(results[0].content.contains("message Product"));
    assert!(!results[0].fingerprint.is_empty());
    assert_eq!(results[1].package_name, "foo.bar");
    assert!(results[1].content.contains("message User"));
    assert!(results[1].content.contains("message Profile"));
    assert!(!results[1].fingerprint.is_empty());
}

// syntax = "proto3"; package test; message Foo { string bar = 1; }
#[test]
fn test_convert_to_tuple_format() {
    let file1 = file("proto3", Some("test"), vec![message("Foo", vec![scalar("bar", 1, FieldType::TypeString)])]);
    let results = merge(vec![file1]).unwrap();
    let tuple_format: Vec<(String, String, String)> =
        results.into_iter().map(|r| (r.package_name, r.content, r.fingerprint)).collect();
    assert_eq!(tuple_format.len(), 1);
    assert_eq!(tuple_format[0].0, "test");
    assert!(!tuple_format[0].1.is_empty());
    assert!(!tuple_format[0].2.is_empty());
}

// package api.v1; message Request {...} / message Response {...} / enum Status { UNKNOWN = 0; OK = 1; }
#[test]
fn test_merge_same_package_different_messages() {
    let file1 = file("proto3", Some("api.v1"), vec![message("Request", vec![scalar("id", 1, FieldType::TypeString)])]);
    let file2 = file("proto3", Some("api.v1"), vec![message("Response", vec![scalar("code", 1, FieldType::TypeInt32)])]);
    let mut file3 = file("proto3", Some("api.v1"), vec![]);
    file3.enum_type = vec![EnumType {
        name: "Status".to_string(),
        value: vec![
            EnumValue { name: "UNKNOWN".to_string(), number: 0, deprecated: None },
            EnumValue { name: "OK".to_string(), number: 1, deprecated: None },
        ],
        ..Default::default()
    }];
    let results = merge(vec![file1, file2, file3]).unwrap();
    assert_eq!(results.len(), 1);
    assert_eq!(results[0].package_name, "api.v1");
    let content = &results[0].content;
    assert!(content.contains("message Request"));
    assert!(content.contains("message Response"));
    assert!(content.contains("enum Status"));
}

// syntax = "proto3"; package test; message Msg { string field = 1; }
#[test]
fn test_fingerprint_consistency() {
    let make = || file("proto3", Some("test"), vec![message("Msg", vec![scalar("field", 1, FieldType::TypeString)])]);
    let results1 = merge(vec![make()]).unwrap();
    let results2 = merge(vec![make()]).unwrap();
    assert_eq!(results1[0].fingerprint, results2[0].fingerprint);
}

// syntax = "proto3"; package a; message A {} / package b; message B {}
fn merge_to_tuples(files: Vec<FileDescriptor>) -> Result<Vec<(String, String, String)>, MergeError> {
    let results = merge_by_package(files)?;
    Ok(results.into_iter().map(|r| (r.package_name, r.content, r.fingerprint)).collect())
}

#[test]
fn test_wrapper_function() {
    let files = vec![
        file("proto3", Some("a"), vec![message("A", vec![])]),
        file("proto3", Some("b"), vec![message("B", vec![])]),
    ];
    let tuples = merge_to_tuples(files).unwrap();
    assert_eq!(tuples.len(), 2);
}
