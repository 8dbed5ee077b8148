use proto_regulate::descriptor::{
    EnumType, EnumValue, Field, FieldOptions, FieldType, FileDescriptor, FileOptions, Label, Message,
    MessageOptions, Method, NumberRange, Oneof, OptimizeMode, Service,
};
use proto_regulate::fingerprint::fingerprint;
use proto_regulate::imports::{stub_import_paths, trim_text};
use proto_regulate::merge::{merge_by_package, merge_file_options, MergeError, SymbolKind};
use proto_regulate::text::{
    escape_bytes, escape_string, format_type_name, last_component_of, normalize_float_default,
};
use proto_regulate::text_gen::{enum_number_to_name, field_type_to_string, parse_int};
use proto_regulate::{descriptor_to_proto, TextGenerator, TextGeneratorOptions, TEXT_GENERATOR_VERSION};

fn field(name: &str, number: i32, label: Label, t: FieldType) -> Field {
    Field {
        name: name.to_string(),
        number,
        label: Some(label),
        field_type: Some(t),
        ..Default::default()
    }
}

fn typed(name: &str, number: i32, label: Label, t: FieldType, type_ref: &str) -> Field {
    Field { type_ref: Some(type_ref.to_string()), ..field(name, number, label, t) }
}

fn proto3(package: &str) -> FileDescriptor {
    FileDescriptor {
        syntax: Some("proto3".to_string()),
        package: Some(package.to_string()),
        ..Default::default()
    }
}

#[test]
fn test_version_constant() {
    assert_eq!(TEXT_GENERATOR_VERSION, "1.0.0");
}

#[test]
fn test_field_type_mapping() {
    assert_eq!(field_type_to_string(FieldType::TypeInt32), "int32");
    assert_eq!(field_type_to_string(FieldType::TypeString), "string");
    assert_eq!(field_type_to_string(FieldType::TypeBool), "bool");
    assert_eq!(field_type_to_string(FieldType::TypeDouble), "double");
}

#[test]
fn test_format_type_name() {
    assert_eq!(format_type_name(".foo.Bar"), "foo.Bar");
    assert_eq!(format_type_name("foo.Bar"), "foo.Bar");
    assert_eq!(format_type_name(".Bar"), "Bar");
}

#[test]
fn single_message_exact_text() {
    let mut f = proto3("test");
    f.message_type = vec![Message {
        name: "User".to_string(),
        field: vec![field("name", 1, Label::Optional, FieldType::TypeString)],
        ..Default::default()
    }];
    let results = merge_by_package(vec![f]).unwrap();
    assert_eq!(results.len(), 1);
    assert_eq!(results[0].package_name, "test");
    assert_eq!(results[0].content, "syntax = \"proto3\";\n\npackage test;\n\nmessage User {\n  string name = 1;\n}\n\n");
    assert!(results[0].content.contains("syntax = \"proto3\";"));
    assert!(results[0].content.contains("package test;"));
    assert_eq!(results[0].fingerprint.len(), 64);
}

#[test]
fn same_package_merge_orders_by_name() {
    let mut a = proto3("foo");
    a.message_type = vec![Message {
        name: "User".to_string(),
        field: vec![field("name", 1, Label::Optional, FieldType::TypeString)],
        ..Default::default()
    }];
    let mut b = proto3("foo");
    b.message_type = vec![Message {
        name: "Profile".to_string(),
        field: vec![field("age", 1, Label::Optional, FieldType::TypeInt32)],
        ..Default::default()
    }];
    let results = merge_by_package(vec![a, b]).unwrap();
    let c = &results[0].content;
    let p = c.find("message Profile").unwrap();
    let u = c.find("message User").unwrap();
    assert!(p < u);
}

#[test]
fn duplicate_error_names_files() {
    let mut a = proto3("test");
    a.message_type = vec![Message { name: "User".to_string(), ..Default::default() }];
    let mut b = proto3("test");
    b.message_type = vec![Message { name: "User".to_string(), ..Default::default() }];
    match merge_by_package(vec![a, b]) {
        Err(MergeError::DuplicateSymbol { kind, name, first_file, second_file }) => {
            assert_eq!(kind, SymbolKind::Message);
            assert_eq!(name, "User");
            assert_eq!(first_file, 0);
            assert_eq!(second_file, 1);
        },
        _ => panic!("expected a duplicate symbol error"),
    }
}

#[test]
fn duplicate_enum_and_service_errors() {
    let mut a = proto3("p");
    a.enum_type = vec![EnumType { name: "E".to_string(), ..Default::default() }];
    let mut b = proto3("p");
    b.enum_type = vec![EnumType { name: "E".to_string(), ..Default::default() }];
    let e = merge_by_package(vec![a, b]).unwrap_err();
    assert_eq!(e.message(), "Duplicate enum 'E' found in files #0 and #1");
    let mut c = proto3("p");
    c.service = vec![Service { name: "S".to_string(), ..Default::default() }, Service { name: "S".to_string(), ..Default::default() }];
    let e = merge_by_package(vec![c]).unwrap_err();
    assert_eq!(e.message(), "Duplicate service 'S' found in files #0 and #0");
}

#[test]
fn syntax_conflict_lists_versions() {
    let mut a = proto3("test");
    a.syntax = Some("proto2".to_string());
    let b = proto3("test");
    match merge_by_package(vec![a, b]) {
        Err(e) => {
            assert_eq!(
                e.message(),
                "Syntax version conflict: found {\"proto2\", \"proto3\"}. All files in the same package must use the same syntax version."
            );
        },
        Ok(_) => panic!("expected a syntax conflict"),
    }
}

#[test]
fn order_independent_content() {
    let make = |names: &[&str]| {
        let mut f = proto3("test");
        f.message_type = names.iter().map(|n| Message { name: n.to_string(), ..Default::default() }).collect();
        f
    };
    let r1 = merge_by_package(vec![make(&["B", "A"])]).unwrap();
    let r2 = merge_by_package(vec![make(&["A", "B"])]).unwrap();
    assert_eq!(r1[0].content, r2[0].content);
    assert_eq!(r1[0].fingerprint, r2[0].fingerprint);
    assert_eq!(r1[0].content, "syntax = \"proto3\";\n\npackage test;\n\nmessage A {\n}\n\nmessage B {\n}\n\n");
}

#[test]
fn map_field_round_trip() {
    let mut f = proto3("pkg");
    let entry = Message {
        name: "MEntry".to_string(),
        field: vec![
            field("key", 1, Label::Optional, FieldType::TypeString),
            field("value", 2, Label::Optional, FieldType::TypeInt32),
        ],
        options: Some(MessageOptions { map_entry: Some(true), ..Default::default() }),
        ..Default::default()
    };
    f.message_type = vec![Message {
        name: "Msg".to_string(),
        field: vec![typed("m", 1, Label::Repeated, FieldType::TypeMessage, ".pkg.Msg.MEntry")],
        nested_type: vec![entry],
        ..Default::default()
    }];
    let text = descriptor_to_proto(&f);
    assert_eq!(text.matches("map<string, int32> m = 1;").count(), 1);
    assert!(!text.contains("MEntry"));
    assert_eq!(text, "syntax = \"proto3\";\n\npackage pkg;\n\nmessage Msg {\n  map<string, int32> m = 1;\n}\n\n");
}

fn color_file() -> FileDescriptor {
    let mut f = proto3("pkg");
    f.syntax = Some("proto2".to_string());
    f.enum_type = vec![EnumType {
        name: "Color".to_string(),
        value: vec![
            EnumValue { name: "RED".to_string(), number: 0, deprecated: None },
            EnumValue { name: "GREEN".to_string(), number: 1, deprecated: None },
            EnumValue { name: "BLUE".to_string(), number: 2, deprecated: None },
        ],
        ..Default::default()
    }];
    let mut c = typed("c", 1, Label::Optional, FieldType::TypeEnum, ".pkg.Color");
    c.default_value = Some("2".to_string());
    f.message_type = vec![Message { name: "M".to_string(), field: vec![c], ..Default::default() }];
    f
}

#[test]
fn enum_default_resolves_to_symbol() {
    let text = descriptor_to_proto(&color_file());
    assert!(text.contains("optional pkg.Color c = 1 [default = BLUE];"));
}

#[test]
fn enum_default_unresolved_keeps_text() {
    let mut f = color_file();
    f.message_type[0].field[0].default_value = Some("7".to_string());
    let text = descriptor_to_proto(&f);
    assert!(text.contains("[default = 7]"));
}

#[test]
fn enum_number_lookup() {
    let f = color_file();
    assert_eq!(enum_number_to_name(&f, ".pkg.Color", 1).unwrap(), "GREEN");
    assert!(enum_number_to_name(&f, ".pkg.Color", 5).is_none());
    assert!(enum_number_to_name(&f, ".pkg.Shade", 1).is_none());
}

#[test]
fn parse_decimal_defaults() {
    assert_eq!(parse_int("2"), Some(2));
    assert_eq!(parse_int("-17"), Some(-17));
    assert_eq!(parse_int("+5"), Some(5));
    assert_eq!(parse_int("2147483648"), None);
    assert_eq!(parse_int("-2147483648"), Some(i32::MIN));
    assert_eq!(parse_int("BLUE"), None);
    assert_eq!(parse_int(""), None);
    assert_eq!(parse_int("-"), None);
}

#[test]
fn reserved_ranges_and_names() {
    let mut f = proto3("p");
    f.message_type = vec![Message {
        name: "R".to_string(),
        reserved_range: vec![
            NumberRange { start: 2, end: 3 },
            NumberRange { start: 5, end: 9 },
            NumberRange { start: 100, end: 536870912 },
        ],
        reserved_name: vec!["a".to_string(), "b".to_string()],
        extension_range: vec![NumberRange { start: 10, end: 11 }, NumberRange { start: 20, end: 30 }],
        ..Default::default()
    }];
    f.enum_type = vec![EnumType {
        name: "E".to_string(),
        value: vec![EnumValue { name: "Z".to_string(), number: 0, deprecated: None }],
        reserved_range: vec![NumberRange { start: 2, end: 2 }, NumberRange { start: 5, end: 9 }, NumberRange { start: 10, end: 536870911 }],
        ..Default::default()
    }];
    let text = descriptor_to_proto(&f);
    assert!(text.contains("  reserved 2, 5 to 8, 100 to max;\n"));
    assert!(text.contains("  reserved \"a\", \"b\";\n"));
    assert!(text.contains("  extensions 10;\n  extensions 20 to 29;\n"));
    assert!(text.contains("  reserved 2, 5 to 9, 10 to max;\n"));
}

#[test]
fn negative_and_large_numbers() {
    let mut f = proto3("p");
    f.enum_type = vec![EnumType {
        name: "E".to_string(),
        value: vec![
            EnumValue { name: "MAXV".to_string(), number: 2147483647, deprecated: None },
            EnumValue { name: "MINV".to_string(), number: -2147483648, deprecated: None },
        ],
        ..Default::default()
    }];
    let text = descriptor_to_proto(&f);
    assert!(text.contains("enum E {\n  MINV = -2147483648;\n  MAXV = 2147483647;\n}\n"));
}

#[test]
fn fields_and_values_sorted_by_number() {
    let mut f = proto3("p");
    f.message_type = vec![Message {
        name: "M".to_string(),
        field: vec![
            field("c", 3, Label::Optional, FieldType::TypeInt64),
            field("a", 1, Label::Repeated, FieldType::TypeBytes),
            field("b", 2, Label::Optional, FieldType::TypeBool),
        ],
        ..Default::default()
    }];
    f.enum_type = vec![EnumType {
        name: "E".to_string(),
        value: vec![
            EnumValue { name: "TWO".to_string(), number: 2, deprecated: Some(true) },
            EnumValue { name: "ZERO".to_string(), number: 0, deprecated: None },
        ],
        allow_alias: Some(true),
        ..Default::default()
    }];
    let text = descriptor_to_proto(&f);
    assert!(text.contains("message M {\n  repeated bytes a = 1;\n  bool b = 2;\n  int64 c = 3;\n}\n"));
    assert!(text.contains("enum E {\n  option allow_alias = true;\n  ZERO = 0;\n  TWO = 2 [deprecated = true];\n}\n"));
}

#[test]
fn oneofs_and_proto3_optional() {
    let mut f = proto3("p");
    let mut x = field("x", 2, Label::Optional, FieldType::TypeString);
    x.oneof_index = Some(0);
    let mut y = field("y", 1, Label::Optional, FieldType::TypeInt32);
    y.oneof_index = Some(0);
    let mut z = field("z", 3, Label::Optional, FieldType::TypeInt32);
    z.oneof_index = Some(1);
    z.proto3_optional = Some(true);
    f.message_type = vec![Message {
        name: "M".to_string(),
        field: vec![x, y, z],
        oneof_decl: vec![Oneof { name: "choice".to_string() }, Oneof { name: "_z".to_string() }],
        ..Default::default()
    }];
    let text = descriptor_to_proto(&f);
    assert!(text.contains("message M {\n  optional int32 z = 3;\n  oneof choice {\n    int32 y = 1;\n    string x = 2;\n  }\n}\n"));
}

#[test]
fn proto2_groups_and_labels() {
    let mut f = proto3("p");
    f.syntax = None;
    let g = Message {
        name: "Result".to_string(),
        field: vec![field("url", 1, Label::Required, FieldType::TypeString)],
        ..Default::default()
    };
    let mut opts = FieldOptions::default();
    opts.packed = Some(false);
    opts.deprecated = Some(true);
    let mut nums = field("nums", 2, Label::Repeated, FieldType::TypeInt32);
    nums.options = Some(opts);
    f.message_type = vec![Message {
        name: "Search".to_string(),
        field: vec![typed("result", 1, Label::Repeated, FieldType::TypeGroup, ".p.Search.Result"), nums],
        nested_type: vec![g],
        ..Default::default()
    }];
    let text = descriptor_to_proto(&f);
    assert!(text.starts_with("syntax = \"proto2\";\n\npackage p;\n\n"));
    assert!(text.contains(
        "message Search {\n  repeated group Result = 1 {\n    required string url = 1;\n  }\n  repeated int32 nums = 2 [packed = false, deprecated = true];\n}\n"
    ));
    assert!(!text.contains("message Result"));
}

#[test]
fn imports_options_services_extensions() {
    let mut f = proto3("p");
    f.dependency = vec!["z.proto".to_string(), "b.proto".to_string(), "a.proto".to_string(), "w.proto".to_string()];
    f.public_dependency = vec![1];
    f.weak_dependency = vec![3];
    f.options = Some(FileOptions {
        java_package: Some("com.ex".to_string()),
        go_package: Some("ex/p".to_string()),
        optimize_for: Some(OptimizeMode::CodeSize),
        cc_enable_arenas: Some(true),
        ..Default::default()
    });
    f.service = vec![Service {
        name: "Svc".to_string(),
        method: vec![
            Method {
                name: "Watch".to_string(),
                input_type: Some(".p.Req".to_string()),
                output_type: Some(".p.Resp".to_string()),
                client_streaming: false,
                server_streaming: true,
                deprecated: None,
            },
            Method {
                name: "Get".to_string(),
                input_type: Some(".p.Req".to_string()),
                output_type: Some(".p.Resp".to_string()),
                client_streaming: false,
                server_streaming: false,
                deprecated: Some(true),
            },
        ],
        deprecated: None,
    }];
    let mut e1 = field("b", 101, Label::Optional, FieldType::TypeInt32);
    e1.extendee = Some(".p.Base".to_string());
    let mut e2 = field("a", 100, Label::Optional, FieldType::TypeInt32);
    e2.extendee = Some(".p.Base".to_string());
    f.extension = vec![e1, e2];
    let text = descriptor_to_proto(&f);
    let expected = "syntax = \"proto3\";\n\npackage p;\n\n\
import \"a.proto\";\nimport \"z.proto\";\nimport public \"b.proto\";\nimport weak \"w.proto\";\n\n\
option cc_enable_arenas = true;\noption go_package = \"ex/p\";\noption java_package = \"com.ex\";\noption optimize_for = CODE_SIZE;\n\n\
service Svc {\n  rpc Get(p.Req) returns (p.Resp) {\n    option deprecated = true;\n  }\n  rpc Watch(p.Req) returns (stream p.Resp);\n}\n\n\
extend p.Base {\n  int32 a = 100;\n  int32 b = 101;\n}\n";
    assert_eq!(text, expected);
}

#[test]
fn generator_without_sorting() {
    let mut f = proto3("p");
    f.message_type = vec![
        Message { name: "B".to_string(), ..Default::default() },
        Message { name: "A".to_string(), ..Default::default() },
    ];
    let mut g = TextGenerator::new(TextGeneratorOptions { indent_size: 4, sort_messages: false, sort_enums: true, sort_services: true });
    let text = g.format_file(&f);
    assert!(text.contains("message B {\n}\n\nmessage A {\n}\n"));
    let mut d = TextGenerator::with_default();
    assert!(d.format_file(&f).contains("message A {\n}\n\nmessage B {\n}\n"));
}

#[test]
fn string_and_byte_escapes() {
    assert_eq!(escape_string("a\"b\\c\nd\re\tf"), "a\\\"b\\\\c\\nd\\re\\tf");
    assert_eq!(escape_string("héllo"), "héllo");
    assert_eq!(escape_bytes("a\u{1}é\""), "a\\001\\303\\251\\\"");
    let mut f = proto3("p");
    let mut s = field("s", 1, Label::Optional, FieldType::TypeString);
    s.default_value = Some("q\"".to_string());
    let mut b = field("b", 2, Label::Optional, FieldType::TypeBytes);
    b.default_value = Some("\u{7f}".to_string());
    let mut d = field("d", 3, Label::Optional, FieldType::TypeDouble);
    d.default_value = Some("-Infinity".to_string());
    f.message_type = vec![Message { name: "M".to_string(), field: vec![s, b, d], ..Default::default() }];
    let text = descriptor_to_proto(&f);
    assert!(text.contains("string s = 1 [default = \"q\\\"\"];"));
    assert!(text.contains("bytes b = 2 [default = \"\\177\"];"));
    assert!(text.contains("double d = 3 [default = -inf];"));
}

#[test]
fn float_defaults_normalised() {
    assert_eq!(normalize_float_default("Infinity"), "inf");
    assert_eq!(normalize_float_default("+Inf"), "inf");
    assert_eq!(normalize_float_default("-Inf"), "-inf");
    assert_eq!(normalize_float_default("NaN"), "nan");
    assert_eq!(normalize_float_default("1.5"), "1.5");
}

#[test]
fn last_type_name_component() {
    assert_eq!(last_component_of(".a.b.Entry"), "Entry");
    assert_eq!(last_component_of("Plain"), "Plain");
}

#[test]
fn fingerprint_is_sha256_hex() {
    assert_eq!(fingerprint(""), "e3b0c44298fc1c149afbf4c8996fb92427ae41e4649b934ca495991b7852b855");
    assert_eq!(fingerprint("abc"), "ba7816bf8f01cfea414140de5dae2223b00361a396177a9cb410ff61f20015ad");
}

#[test]
fn option_conflict_warnings() {
    let mut a = proto3("p");
    a.options = Some(FileOptions { java_package: Some("x".to_string()), ..Default::default() });
    let mut b = proto3("p");
    b.options = Some(FileOptions { java_package: Some("y".to_string()), go_package: Some("g".to_string()), ..Default::default() });
    let results = merge_by_package(vec![a, b]).unwrap();
    assert_eq!(
        results[0].warnings,
        vec![
            "File #1: java_package option conflict (using first occurrence)".to_string(),
            "File #1: go_package option conflict (using first occurrence)".to_string(),
        ]
    );
    assert!(results[0].content.contains("option java_package = \"x\";"));
}

#[test]
fn merged_imports_dedup_and_marks() {
    let mut a = proto3("p");
    a.dependency = vec!["b.proto".to_string(), "a.proto".to_string()];
    a.public_dependency = vec![0];
    let mut b = proto3("p");
    b.dependency = vec!["a.proto".to_string(), "c.proto".to_string()];
    b.weak_dependency = vec![1];
    let results = merge_by_package(vec![a, b]).unwrap();
    assert!(results[0].content.contains("import \"a.proto\";\nimport public \"b.proto\";\nimport weak \"c.proto\";\n\n"));
}

#[test]
fn import_stub_paths() {
    let text = "syntax = \"proto3\";\nimport \"a/b.proto\";\r\n  import public \"c.proto\";\nimport weak \"d.proto\";\nimport \"google/protobuf/any.proto\";\n// import nothing\nimport \"e.proto\"";
    assert_eq!(
        stub_import_paths(text),
        vec!["a/b.proto".to_string(), "c.proto".to_string(), "d.proto".to_string(), "e.proto".to_string()]
    );
    assert_eq!(stub_import_paths(""), Vec::<String>::new());
}

#[test]
fn trimming() {
    assert_eq!(trim_text("  \t x y \u{3000}\n", false), "x y");
    assert_eq!(trim_text("\"p.proto\";", true), "p.proto");
    assert_eq!(trim_text("   ", false), "");
}

#[test]
fn proto2_oneof_members_have_no_label() {
    let mut f = proto3("p");
    f.syntax = Some("proto2".to_string());
    let mut a = field("a", 1, Label::Optional, FieldType::TypeInt32);
    a.oneof_index = Some(0);
    let b = field("b", 2, Label::Optional, FieldType::TypeInt32);
    f.message_type = vec![Message {
        name: "M".to_string(),
        field: vec![a, b],
        oneof_decl: vec![Oneof { name: "o".to_string() }],
        ..Default::default()
    }];
    let text = descriptor_to_proto(&f);
    assert!(text.contains("message M {\n  optional int32 b = 2;\n  oneof o {\n    int32 a = 1;\n  }\n}\n"));
}

#[test]
fn empty_syntax_line_still_printed() {
    let mut f = proto3("p");
    f.syntax = Some(String::new());
    let text = descriptor_to_proto(&f);
    assert_eq!(text, "syntax = \"\";\n\npackage p;\n\n");
}

#[test]
fn conflict_warning_without_first_options() {
    let a = proto3("p");
    let mut b = proto3("p");
    b.options = Some(FileOptions { go_package: Some("g".to_string()), ..Default::default() });
    let results = merge_by_package(vec![a, b]).unwrap();
    assert_eq!(results[0].warnings, vec!["File #1: go_package option conflict (using first occurrence)".to_string()]);
    let mut warnings = Vec::new();
    assert!(merge_file_options(&vec![], &mut warnings).is_none());
    assert!(warnings.is_empty());
}

#[test]
fn first_repeat_is_reported() {
    let named = |names: &[&str]| {
        let mut f = proto3("p");
        f.message_type = names.iter().map(|n| Message { name: n.to_string(), ..Default::default() }).collect();
        f
    };
    let e = merge_by_package(vec![named(&["X"]), named(&["Y"]), named(&["Y", "X"])]).unwrap_err();
    assert_eq!(e.message(), "Duplicate message 'Y' found in files #1 and #2");
}

#[test]
fn first_failing_package_reported() {
    let mut a = proto3("b");
    a.syntax = Some("proto2".to_string());
    let b = proto3("b");
    let mut c = proto3("a");
    c.message_type = vec![Message { name: "M".to_string(), ..Default::default() }, Message { name: "M".to_string(), ..Default::default() }];
    let e = merge_by_package(vec![a, b, c]).unwrap_err();
    assert_eq!(e.message(), "Duplicate message 'M' found in files #0 and #0");
}

#[test]
fn extensions_order_independent() {
    let ext = |name: &str, number: i32, extendee: &str| {
        let mut e = field(name, number, Label::Optional, FieldType::TypeInt32);
        e.extendee = Some(extendee.to_string());
        e
    };
    let mut a = proto3("p");
    a.extension = vec![ext("x", 5, ".p.B"), ext("y", 3, ".p.A")];
    let mut b = proto3("p");
    b.extension = vec![ext("z", 4, ".p.A")];
    let mut c = proto3("p");
    c.extension = vec![ext("z", 4, ".p.A")];
    let mut d = proto3("p");
    d.extension = vec![ext("x", 5, ".p.B"), ext("y", 3, ".p.A")];
    let r1 = merge_by_package(vec![a, b]).unwrap();
    let r2 = merge_by_package(vec![c, d]).unwrap();
    assert_eq!(r1[0].content, r2[0].content);
    assert!(r1[0].content.ends_with("extend p.A {\n  int32 y = 3;\n  int32 z = 4;\n}\nextend p.B {\n  int32 x = 5;\n}\n"));
}
