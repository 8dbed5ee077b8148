//! Plain-value model of a parsed schema file.
use vstd::prelude::*;

verus! {

/// Cardinality of a field.
#[derive(Clone, Copy, Debug, PartialEq, Eq, Structural)]
pub enum Label {
    Optional,
    Required,
    Repeated,
}

/// Wire type of a field.
#[derive(Clone, Copy, Debug, PartialEq, Eq, Structural)]
pub enum FieldType {
    TypeDouble,
    TypeFloat,
    TypeInt64,
    TypeUint64,
    TypeInt32,
    TypeFixed64,
    TypeFixed32,
    TypeBool,
    TypeString,
    TypeGroup,
    TypeMessage,
    TypeBytes,
    TypeUint32,
    TypeEnum,
    TypeSfixed32,
    TypeSfixed64,
    TypeSint32,
    TypeSint64,
}

/// The `ctype` field option.
#[derive(Clone, Copy, Debug, PartialEq, Eq, Structural)]
pub enum CType {
    CtypeString,
    Cord,
    StringPiece,
}

/// The `jstype` field option.
#[derive(Clone, Copy, Debug, PartialEq, Eq, Structural)]
pub enum JsType {
    JsNormal,
    JsString,
    JsNumber,
}

/// The `optimize_for` file option.
#[derive(Clone, Copy, Debug, PartialEq, Eq, Structural)]
pub enum OptimizeMode {
    Speed,
    CodeSize,
    LiteRuntime,
}

/// Recognised options of a field.
#[derive(Clone, Debug, PartialEq, Eq, Default)]
pub struct FieldOptions {
    pub packed: Option<bool>,
    pub deprecated: Option<bool>,
    pub lazy: Option<bool>,
    pub weak: Option<bool>,
    pub ctype: Option<CType>,
    pub jstype: Option<JsType>,
}

/// A field, or an extension when `extendee` is set.
#[derive(Clone, Debug, PartialEq, Eq, Default)]
pub struct Field {
    pub name: String,
    pub number: i32,
    pub label: Option<Label>,
    pub field_type: Option<FieldType>,
    pub type_ref: Option<String>,
    pub extendee: Option<String>,
    pub default_value: Option<String>,
    pub oneof_index: Option<i32>,
    pub proto3_optional: Option<bool>,
    pub options: Option<FieldOptions>,
}

/// A number range; half-open for messages, inclusive for enums.
#[derive(Clone, Copy, Debug, PartialEq, Eq, Default)]
pub struct NumberRange {
    pub start: i32,
    pub end: i32,
}

/// A oneof group declared by a message.
#[derive(Clone, Debug, PartialEq, Eq, Default)]
pub struct Oneof {
    pub name: String,
}

/// Recognised options of a message.
#[derive(Clone, Debug, PartialEq, Eq, Default)]
pub struct MessageOptions {
    pub message_set_wire_format: Option<bool>,
    pub no_standard_descriptor_accessor: Option<bool>,
    pub deprecated: Option<bool>,
    pub map_entry: Option<bool>,
}

/// A message type.
#[derive(Debug, Default)]
pub struct Message {
    pub name: String,
    pub field: Vec<Field>,
    pub nested_type: Vec<Message>,
    pub enum_type: Vec<EnumType>,
    pub extension: Vec<Field>,
    pub oneof_decl: Vec<Oneof>,
    pub extension_range: Vec<NumberRange>,
    pub reserved_range: Vec<NumberRange>,
    pub reserved_name: Vec<String>,
    pub options: Option<MessageOptions>,
}

/// A value of an enum type.
#[derive(Clone, Debug, PartialEq, Eq, Default)]
pub struct EnumValue {
    pub name: String,
    pub number: i32,
    pub deprecated: Option<bool>,
}

/// An enum type.
#[derive(Clone, Debug, PartialEq, Eq, Default)]
pub struct EnumType {
    pub name: String,
    pub value: Vec<EnumValue>,
    pub reserved_range: Vec<NumberRange>,
    pub reserved_name: Vec<String>,
    pub allow_alias: Option<bool>,
    pub deprecated: Option<bool>,
}

/// A method of a service.
#[derive(Clone, Debug, PartialEq, Eq, Default)]
pub struct Method {
    pub name: String,
    pub input_type: Option<String>,
    pub output_type: Option<String>,
    pub client_streaming: bool,
    pub server_streaming: bool,
    pub deprecated: Option<bool>,
}

/// A service.
#[derive(Clone, Debug, PartialEq, Eq, Default)]
pub struct Service {
    pub name: String,
    pub method: Vec<Method>,
    pub deprecated: Option<bool>,
}

/// Recognised file options.
#[derive(Clone, Debug, PartialEq, Eq, Default)]
pub struct FileOptions {
    pub java_package: Option<String>,
    pub java_outer_classname: Option<String>,
    pub java_multiple_files: Option<bool>,
    pub java_string_check_utf8: Option<bool>,
    pub go_package: Option<String>,
    pub optimize_for: Option<OptimizeMode>,
    pub cc_enable_arenas: Option<bool>,
    pub cc_generic_services: Option<bool>,
    pub java_generic_services: Option<bool>,
    pub py_generic_services: Option<bool>,
    pub objc_class_prefix: Option<String>,
    pub csharp_namespace: Option<String>,
    pub swift_prefix: Option<String>,
    pub php_class_prefix: Option<String>,
    pub php_namespace: Option<String>,
    pub php_metadata_namespace: Option<String>,
    pub ruby_package: Option<String>,
}

/// A parsed schema file.
#[derive(Debug, Default)]
pub struct FileDescriptor {
    pub syntax: Option<String>,
    pub package: Option<String>,
    pub dependency: Vec<String>,
    pub public_dependency: Vec<i32>,
    pub weak_dependency: Vec<i32>,
    pub message_type: Vec<Message>,
    pub enum_type: Vec<EnumType>,
    pub service: Vec<Service>,
    pub extension: Vec<Field>,
    pub options: Option<FileOptions>,
}

} // verus!
