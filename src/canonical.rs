//! The canonical schema text of a descriptor, stated as spec functions.
use vstd::prelude::*;
use vstd::utf8::encode_utf8;
use crate::descriptor::{
    CType, EnumType, EnumValue, Field, FieldType, FileDescriptor, FileOptions, JsType, Label, Message,
    Method, NumberRange, OptimizeMode, Service,
};
use crate::order::stable_sort;
use crate::text_gen::TextGeneratorOptions;
use crate::text::{
    escaped, escaped_bytes, float_default_text, int_text, last_component, split_dots, strip_dots,
    text_lt,
};

verus! {

/// Largest field number; an end at it prints as `max`.
pub const MAX_FIELD_NUMBER: i32 = 536870911;

/// A line feed.
pub open spec fn nl() -> Seq<char> {
    seq!['\n']
}

/// `n` spaces.
pub open spec fn spaces(n: nat) -> Seq<char> {
    Seq::new(n, |i: int| ' ')
}

/// `"true"` or `"false"`.
pub open spec fn bool_text(b: bool) -> Seq<char> {
    if b { "true"@ } else { "false"@ }
}

/// Whether an optional flag is set to true.
pub open spec fn is_true(b: Option<bool>) -> bool {
    b == Some(true)
}

/// Texts joined by `", "`.
pub open spec fn join(s: Seq<Seq<char>>) -> Seq<char>
    decreases s.len(),
{
    if s.len() == 0 {
        Seq::empty()
    } else if s.len() == 1 {
        s[0]
    } else {
        join(s.drop_last()) + ", "@ + s.last()
    }
}

/// Concatenation of texts.
pub open spec fn concat(s: Seq<Seq<char>>) -> Seq<char>
    decreases s.len(),
{
    if s.len() == 0 {
        Seq::empty()
    } else {
        concat(s.drop_last()) + s.last()
    }
}

/// `Some(x)` as the one-element sequence, `None` as the empty one.
pub open spec fn opt_line(o: Option<Seq<char>>) -> Seq<Seq<char>> {
    match o {
        Some(x) => seq![x],
        None => Seq::empty(),
    }
}

/// Name order on items that carry a name.
pub open spec fn name_lt<T: Named>() -> spec_fn(T, T) -> bool {
    |a: T, b: T| text_lt(a.name_view(), b.name_view())
}

/// Items that carry a name.
pub trait Named {
    spec fn name_view(&self) -> Seq<char>;

    fn name_str(&self) -> (r: &str)
        ensures
            r@ == self.name_view();
}

impl Named for Message {
    open spec fn name_view(&self) -> Seq<char> {
        self.name@
    }

    fn name_str(&self) -> (r: &str) {
        self.name.as_str()
    }
}

impl Named for EnumType {
    open spec fn name_view(&self) -> Seq<char> {
        self.name@
    }

    fn name_str(&self) -> (r: &str) {
        self.name.as_str()
    }
}

impl Named for Service {
    open spec fn name_view(&self) -> Seq<char> {
        self.name@
    }

    fn name_str(&self) -> (r: &str) {
        self.name.as_str()
    }
}

impl Named for Field {
    open spec fn name_view(&self) -> Seq<char> {
        self.name@
    }

    fn name_str(&self) -> (r: &str) {
        self.name.as_str()
    }
}

impl Named for Method {
    open spec fn name_view(&self) -> Seq<char> {
        self.name@
    }

    fn name_str(&self) -> (r: &str) {
        self.name.as_str()
    }
}

/// Field order by number.
pub open spec fn field_number_lt() -> spec_fn(Field, Field) -> bool {
    |a: Field, b: Field| a.number < b.number
}

/// Enum value order by number.
pub open spec fn value_number_lt() -> spec_fn(EnumValue, EnumValue) -> bool {
    |a: EnumValue, b: EnumValue| a.number < b.number
}

// ---------- numbers in text ----------

/// Numeric value of a run of decimal digits.
pub open spec fn digits_value(s: Seq<char>) -> int
    decreases s.len(),
{
    if s.len() == 0 {
        0
    } else {
        digits_value(s.drop_last()) * 10 + (s.last() as u32 - '0' as u32)
    }
}

/// Whether `s` holds only decimal digits.
pub open spec fn all_digits(s: Seq<char>) -> bool {
    forall|i: int| 0 <= i < s.len() ==> '0' as u32 <= #[trigger] (s[i] as u32) <= '9' as u32
}

/// The 32-bit integer that `s` spells in decimal, with an optional sign,
/// as `str::parse::<i32>` reads it.
pub open spec fn parse_i32(s: Seq<char>) -> Option<int> {
    let neg = s.len() > 0 && s[0] == '-';
    let body = if s.len() > 0 && (s[0] == '-' || s[0] == '+') { s.drop_first() } else { s };
    let v = if neg { -digits_value(body) } else { digits_value(body) };
    if body.len() == 0 || !all_digits(body) || v < i32::MIN || v > i32::MAX {
        None
    } else {
        Some(v)
    }
}

// ---------- enum default resolution ----------

/// Index of the first item of `s` named `name`.
pub open spec fn find_named<T: Named>(s: Seq<T>, name: Seq<char>) -> Option<int>
    decreases s.len(),
{
    if s.len() == 0 {
        None
    } else if s[0].name_view() == name {
        Some(0)
    } else {
        match find_named(s.drop_first(), name) {
            Some(i) => Some(i + 1),
            None => None,
        }
    }
}

/// Name of the first value of `e` numbered `number`.
pub open spec fn value_name(values: Seq<EnumValue>, number: int) -> Option<Seq<char>>
    decreases values.len(),
{
    if values.len() == 0 {
        None
    } else if values[0].number == number {
        Some(values[0].name@)
    } else {
        value_name(values.drop_first(), number)
    }
}

/// The value name of `number` in the enum named `name` among `enums`;
/// `None` when no enum has that name or it has no such value.
pub open spec fn enum_lookup(enums: Seq<EnumType>, name: Seq<char>, number: int) -> Option<Seq<char>> {
    match find_named(enums, name) {
        Some(i) => value_name(enums[i].value@, number),
        None => None,
    }
}

/// Walk of the remaining components `comps[idx..]` through the messages
/// `msgs`, inside the message `cur` when there is one.
pub open spec fn resolve_walk(
    file: FileDescriptor,
    msgs: Seq<Message>,
    cur: Option<Seq<EnumType>>,
    comps: Seq<Seq<char>>,
    idx: int,
    number: int,
) -> Option<Seq<char>>
    decreases comps.len() - idx,
{
    if idx >= comps.len() || idx < 0 {
        None
    } else if idx == comps.len() - 1 {
        let name = comps[idx];
        let in_cur = match cur {
            Some(es) => find_named(es, name),
            None => None,
        };
        if in_cur is Some {
            enum_lookup(cur->0, name, number)
        } else {
            enum_lookup(file.enum_type@, name, number)
        }
    } else {
        match find_named(msgs, comps[idx]) {
            Some(i) => resolve_walk(
                file,
                msgs[i].nested_type@,
                Some(msgs[i].enum_type@),
                comps,
                idx + 1,
                number,
            ),
            None => None,
        }
    }
}

/// Number of components of the file's package; 0 when it has none.
pub open spec fn package_len(file: FileDescriptor) -> int {
    match file.package {
        Some(p) => if p@.len() == 0 { 0 } else { split_dots(p@).len() as int },
        None => 0,
    }
}

/// The symbol of `number` in the enum that the fully qualified `full_name`
/// names, looked up in `file`: the package's components are skipped, the
/// rest is walked through the messages to an enum.
pub open spec fn resolve_enum_value(file: FileDescriptor, full_name: Seq<char>, number: int) -> Option<Seq<char>> {
    let comps = split_dots(strip_dots(full_name));
    let k = package_len(file);
    if k > comps.len() {
        None
    } else if k < comps.len() && find_named(file.enum_type@, comps[k]) is Some {
        if k == comps.len() - 1 {
            enum_lookup(file.enum_type@, comps[k], number)
        } else {
            None
        }
    } else {
        resolve_walk(file, file.message_type@, None, comps, k, number)
    }
}

// ---------- fields ----------

/// Name of a scalar type; `TypeGroup`, `TypeMessage` and `TypeEnum` have the
/// placeholders `group`, `message` and `enum`.
pub open spec fn type_text(t: FieldType) -> Seq<char> {
    match t {
        FieldType::TypeDouble => "double"@,
        FieldType::TypeFloat => "float"@,
        FieldType::TypeInt64 => "int64"@,
        FieldType::TypeUint64 => "uint64"@,
        FieldType::TypeInt32 => "int32"@,
        FieldType::TypeFixed64 => "fixed64"@,
        FieldType::TypeFixed32 => "fixed32"@,
        FieldType::TypeBool => "bool"@,
        FieldType::TypeString => "string"@,
        FieldType::TypeGroup => "group"@,
        FieldType::TypeMessage => "message"@,
        FieldType::TypeBytes => "bytes"@,
        FieldType::TypeUint32 => "uint32"@,
        FieldType::TypeEnum => "enum"@,
        FieldType::TypeSfixed32 => "sfixed32"@,
        FieldType::TypeSfixed64 => "sfixed64"@,
        FieldType::TypeSint32 => "sint32"@,
        FieldType::TypeSint64 => "sint64"@,
    }
}

/// Whether a type is written by its referenced type name.
pub open spec fn is_named_type(t: FieldType) -> bool {
    t == FieldType::TypeMessage || t == FieldType::TypeEnum
}

/// The label prefix of a field line; none for a member of a oneof.
pub open spec fn label_text(f: Field, proto2: bool, member: bool) -> Seq<char> {
    if member {
        Seq::empty()
    } else {
        match f.label {
        Some(Label::Repeated) => "repeated "@,
        Some(Label::Required) => if proto2 { "required "@ } else { Seq::empty() },
        Some(Label::Optional) => if proto2 || is_true(f.proto3_optional) { "optional "@ } else { Seq::empty() },
        None => Seq::empty(),
        }
    }
}

/// Symbolic `ctype` value.
pub open spec fn ctype_text(c: CType) -> Seq<char> {
    match c {
        CType::CtypeString => "STRING"@,
        CType::Cord => "CORD"@,
        CType::StringPiece => "STRING_PIECE"@,
    }
}

/// Symbolic `jstype` value.
pub open spec fn jstype_text(j: JsType) -> Seq<char> {
    match j {
        JsType::JsNormal => "JS_NORMAL"@,
        JsType::JsString => "JS_STRING"@,
        JsType::JsNumber => "JS_NUMBER"@,
    }
}

/// The printed value of an enum default: the symbol when the text is a
/// number that resolves, else the text as given.
pub open spec fn enum_default_text(f: Field, file: FileDescriptor, v: Seq<char>) -> Seq<char> {
    match parse_i32(v) {
        Some(n) => match f.type_ref {
            Some(t) => match resolve_enum_value(file, t@, n) {
                Some(name) => name,
                None => v,
            },
            None => v,
        },
        None => v,
    }
}

/// The `default = ...` option of a field, when it has a default and a type.
pub open spec fn default_option(f: Field, file: FileDescriptor) -> Option<Seq<char>> {
    match (f.default_value, f.field_type) {
        (Some(v), Some(t)) => Some(
            if t == FieldType::TypeString {
                "default = \""@ + escaped(v@) + "\""@
            } else if t == FieldType::TypeBytes {
                "default = \""@ + escaped_bytes(encode_utf8(v@)) + "\""@
            } else if t == FieldType::TypeEnum {
                "default = "@ + enum_default_text(f, file, v@)
            } else if t == FieldType::TypeFloat || t == FieldType::TypeDouble {
                "default = "@ + float_default_text(v@)
            } else {
                "default = "@ + v@
            },
        ),
        _ => None,
    }
}

/// The options of a field in their fixed order; the default is shown
/// whether or not the field carries other options.
pub open spec fn field_option_items(f: Field, file: FileDescriptor) -> Seq<Seq<char>> {
    (match f.options {
        None => Seq::empty(),
        Some(o) => opt_line(
            match o.packed {
                Some(b) => Some("packed = "@ + bool_text(b)),
                None => None,
            },
        ) + opt_line(if is_true(o.deprecated) { Some("deprecated = true"@) } else { None })
            + opt_line(if is_true(o.lazy) { Some("lazy = true"@) } else { None })
            + opt_line(if is_true(o.weak) { Some("weak = true"@) } else { None })
            + opt_line(
            match o.ctype {
                Some(c) => Some("ctype = "@ + ctype_text(c)),
                None => None,
            },
        ) + opt_line(
            match o.jstype {
                Some(j) => Some("jstype = "@ + jstype_text(j)),
                None => None,
            },
        ),
    }) + opt_line(default_option(f, file))
}

/// The ` [...]` option block of a field; empty when it has no option.
pub open spec fn field_options_text(f: Field, file: FileDescriptor) -> Seq<char> {
    let items = field_option_items(f, file);
    if items.len() == 0 {
        Seq::empty()
    } else {
        " ["@ + join(items) + "]"@
    }
}

/// Whether a message is a synthetic map entry.
pub open spec fn is_map_entry(m: Message) -> bool {
    match m.options {
        Some(o) => is_true(o.map_entry),
        None => false,
    }
}

/// How a key or value type of a map is written; `None` when a named type
/// has no type name or the type is missing.
pub open spec fn map_part_text(f: Field) -> Option<Seq<char>> {
    match f.field_type {
        Some(t) => if is_named_type(t) {
            match f.type_ref {
                Some(n) => Some(strip_dots(n@)),
                None => None,
            }
        } else {
            Some(type_text(t))
        },
        None => None,
    }
}

/// The key and value types of a map field, whose entry message is looked
/// up by the last component of its type name among `ctx`, the nested
/// messages of the enclosing message.
pub open spec fn map_info(f: Field, ctx: Seq<Message>) -> Option<(Seq<char>, Seq<char>)> {
    if f.label == Some(Label::Repeated) && f.field_type == Some(FieldType::TypeMessage) && f.type_ref is Some {
        match find_named(ctx, last_component(f.type_ref->0@)) {
            Some(i) => {
                let e = ctx[i];
                if is_map_entry(e) && e.field@.len() == 2 {
                    match (find_named(e.field@, "key"@), find_named(e.field@, "value"@)) {
                        (Some(k), Some(v)) => match (map_part_text(e.field@[k]), map_part_text(e.field@[v])) {
                            (Some(kt), Some(vt)) => Some((kt, vt)),
                            _ => None,
                        },
                        _ => None,
                    }
                } else {
                    None
                }
            },
            None => None,
        }
    } else {
        None
    }
}

/// Name written after `group`: the last component of the type name, or the
/// field name when there is none.
pub open spec fn group_name(f: Field) -> Seq<char> {
    match f.type_ref {
        Some(t) => last_component(t@),
        None => f.name@,
    }
}

/// The ` = <number><options>` tail of a field line.
pub open spec fn number_part(f: Field, file: FileDescriptor) -> Seq<char> {
    " = "@ + int_text(f.number as int) + field_options_text(f, file)
}

/// The type prefix of a plain field line.
pub open spec fn type_prefix(f: Field) -> Seq<char> {
    match f.field_type {
        Some(t) => if is_named_type(t) {
            match f.type_ref {
                Some(n) => strip_dots(n@) + " "@,
                None => Seq::empty(),
            }
        } else {
            type_text(t) + " "@
        },
        None => Seq::empty(),
    }
}

/// A map field line.
pub open spec fn map_field_text(f: Field, k: Seq<char>, v: Seq<char>, file: FileDescriptor, ind: Seq<char>) -> Seq<char> {
    ind + "map<"@ + k + ", "@ + v + "> "@ + f.name@ + number_part(f, file) + ";"@ + nl()
}

/// A plain field line.
pub open spec fn plain_field_text(f: Field, proto2: bool, member: bool, file: FileDescriptor, ind: Seq<char>) -> Seq<char> {
    ind + label_text(f, proto2, member) + type_prefix(f) + f.name@ + number_part(f, file) + ";"@ + nl()
}

/// The header line of a group field.
pub open spec fn group_head_text(f: Field, proto2: bool, member: bool, file: FileDescriptor, ind: Seq<char>) -> Seq<char> {
    ind + label_text(f, proto2, member) + "group "@ + group_name(f) + number_part(f, file) + " {"@ + nl()
}

/// A field rendered at indentation `ind`: a map field, a group with its
/// body, or a plain field. `ctx` holds the nested messages of the
/// enclosing message, where map entries and group bodies are found; a
/// group's own fields are rendered with the group's nested messages.
/// `member` marks the members of a oneof, which carry no label.
pub open spec fn field_text(
    f: Field,
    ctx: Seq<Message>,
    proto2: bool,
    member: bool,
    file: FileDescriptor,
    ind: Seq<char>,
    unit: nat,
) -> Seq<char>
    decreases ctx, 0nat,
{
    match map_info(f, ctx) {
        Some((k, v)) => map_field_text(f, k, v, file, ind),
        None => if f.field_type == Some(FieldType::TypeGroup) {
            let body = match f.type_ref {
                Some(t) => match find_named(ctx, last_component(t@)) {
                    Some(i) => if 0 <= i < ctx.len() {
                        fields_text(ctx[i].field@, ctx[i].nested_type@, proto2, false, file, ind + spaces(unit), unit)
                    } else {
                        Seq::empty()
                    },
                    None => Seq::empty(),
                },
                None => Seq::empty(),
            };
            group_head_text(f, proto2, member, file, ind) + body + ind + "}"@ + nl()
        } else {
            plain_field_text(f, proto2, member, file, ind)
        },
    }
}

/// Fields rendered one after the other.
pub open spec fn fields_text(
    fs: Seq<Field>,
    ctx: Seq<Message>,
    proto2: bool,
    member: bool,
    file: FileDescriptor,
    ind: Seq<char>,
    unit: nat,
) -> Seq<char>
    decreases ctx, fs.len(),
{
    if fs.len() == 0 {
        Seq::empty()
    } else {
        fields_text(fs.drop_last(), ctx, proto2, member, file, ind, unit) + field_text(
            fs.last(),
            ctx,
            proto2,
            member,
            file,
            ind,
            unit,
        )
    }
}

// ---------- ranges and reserved ----------

/// A half-open range `[start, end)` as written: `start`, `start to max`
/// or `start to end-1`.
pub open spec fn half_open_text(r: NumberRange) -> Seq<char> {
    if r.start + 1 == r.end {
        int_text(r.start as int)
    } else if r.end - 1 == MAX_FIELD_NUMBER {
        int_text(r.start as int) + " to max"@
    } else {
        int_text(r.start as int) + " to "@ + int_text(r.end - 1)
    }
}

/// An inclusive range `[start, end]` as written: `start`, `start to max`
/// or `start to end`.
pub open spec fn inclusive_text(r: NumberRange) -> Seq<char> {
    if r.start == r.end {
        int_text(r.start as int)
    } else if r.end == MAX_FIELD_NUMBER {
        int_text(r.start as int) + " to max"@
    } else {
        int_text(r.start as int) + " to "@ + int_text(r.end as int)
    }
}

/// Reserved names in quotes.
pub open spec fn quoted(s: Seq<String>) -> Seq<Seq<char>> {
    Seq::new(s.len(), |i: int| "\""@ + s[i]@ + "\""@)
}

/// A `reserved` line over the given items; empty when there is none.
pub open spec fn reserved_line(items: Seq<Seq<char>>, ind: Seq<char>) -> Seq<char> {
    if items.len() == 0 {
        Seq::empty()
    } else {
        ind + "reserved "@ + join(items) + ";"@ + nl()
    }
}

/// Reserved ranges and names of a message.
pub open spec fn message_reserved_text(m: Message, ind: Seq<char>) -> Seq<char> {
    reserved_line(Seq::new(m.reserved_range@.len(), |i: int| half_open_text(m.reserved_range@[i])), ind)
        + reserved_line(quoted(m.reserved_name@), ind)
}

/// Reserved ranges and names of an enum.
pub open spec fn enum_reserved_text(e: EnumType, ind: Seq<char>) -> Seq<char> {
    reserved_line(Seq::new(e.reserved_range@.len(), |i: int| inclusive_text(e.reserved_range@[i])), ind)
        + reserved_line(quoted(e.reserved_name@), ind)
}

/// Extension ranges of a message, one line each.
pub open spec fn extension_ranges_text(rs: Seq<NumberRange>, ind: Seq<char>) -> Seq<char> {
    concat(Seq::new(rs.len(), |i: int| ind + "extensions "@ + half_open_text(rs[i]) + ";"@ + nl()))
}

// ---------- enums ----------

/// An option line `option <name> = true;` when the flag is set.
pub open spec fn flag_line(flag: Option<bool>, name: Seq<char>, ind: Seq<char>) -> Seq<char> {
    if is_true(flag) {
        ind + "option "@ + name + " = true;"@ + nl()
    } else {
        Seq::empty()
    }
}

/// An enum value line.
pub open spec fn enum_value_text(v: EnumValue, ind: Seq<char>) -> Seq<char> {
    ind + v.name@ + " = "@ + int_text(v.number as int) + (if is_true(v.deprecated) {
        " [deprecated = true]"@
    } else {
        Seq::empty()
    }) + ";"@ + nl()
}

/// Enum value lines in the given order.
pub open spec fn values_text(vs: Seq<EnumValue>, ind: Seq<char>) -> Seq<char> {
    concat(Seq::new(vs.len(), |i: int| enum_value_text(vs[i], ind)))
}

/// The opening line of an enum and its option lines.
pub open spec fn enum_head_text(e: EnumType, ind: Seq<char>, inner: Seq<char>) -> Seq<char> {
    ind + "enum "@ + e.name@ + " {"@ + nl() + flag_line(e.allow_alias, "allow_alias"@, inner) + flag_line(
        e.deprecated,
        "deprecated"@,
        inner,
    )
}

/// An enum: options, values by ascending number, reserved ranges and names.
pub open spec fn enum_text(e: EnumType, ind: Seq<char>, unit: nat) -> Seq<char> {
    let inner = ind + spaces(unit);
    enum_head_text(e, ind, inner) + values_text(stable_sort(e.value@, value_number_lt()), inner)
        + enum_reserved_text(e, inner) + ind + "}"@ + nl()
}

/// Enums in the given order.
pub open spec fn enums_text(es: Seq<EnumType>, ind: Seq<char>, unit: nat) -> Seq<char> {
    concat(Seq::new(es.len(), |i: int| enum_text(es[i], ind, unit)))
}

// ---------- services ----------

/// A type name of a method with its optional `stream ` marker.
pub open spec fn method_type_text(streaming: bool, t: Option<String>) -> Seq<char> {
    (if streaming { "stream "@ } else { Seq::empty() }) + match t {
        Some(s) => strip_dots(s@),
        None => Seq::empty(),
    }
}

/// The end of a method line: an option block when it is deprecated, which
/// takes the place of the `;`, else the `;`.
pub open spec fn method_end_text(m: Method, ind: Seq<char>, unit: nat) -> Seq<char> {
    if is_true(m.deprecated) {
        " {"@ + nl() + ind + spaces(unit) + "option deprecated = true;"@ + nl() + ind + "}"@ + nl()
    } else {
        ";"@ + nl()
    }
}

/// A method line.
pub open spec fn method_text(m: Method, ind: Seq<char>, unit: nat) -> Seq<char> {
    ind + "rpc "@ + m.name@ + "("@ + method_type_text(m.client_streaming, m.input_type) + ")"@
        + " returns ("@ + method_type_text(m.server_streaming, m.output_type) + ")"@ + method_end_text(m, ind, unit)
}

/// A service: its deprecation option and its methods by ascending name.
pub open spec fn service_text(s: Service, ind: Seq<char>, unit: nat) -> Seq<char> {
    let inner = ind + spaces(unit);
    let methods = stable_sort(s.method@, name_lt::<Method>());
    ind + "service "@ + s.name@ + " {"@ + nl() + flag_line(s.deprecated, "deprecated"@, inner) + concat(
        Seq::new(methods.len(), |i: int| method_text(methods[i], inner, unit)),
    ) + ind + "}"@ + nl()
}


// ---------- messages ----------

/// Whether a group field of `fs` names a nested message called `name`.
pub open spec fn group_owned(fs: Seq<Field>, name: Seq<char>) -> bool {
    exists|i: int|
        0 <= i < fs.len() && (#[trigger] fs[i]).field_type == Some(FieldType::TypeGroup) && fs[i].type_ref is Some
            && last_component(fs[i].type_ref->0@) == name
}

/// A field outside any oneof, or a proto3 optional field.
pub open spec fn is_regular(f: Field) -> bool {
    f.oneof_index is None || is_true(f.proto3_optional)
}

/// A member of the `k`-th oneof, other than a proto3 optional field.
pub open spec fn in_oneof(f: Field, k: int) -> bool {
    f.oneof_index is Some && f.oneof_index->0 == k && !is_true(f.proto3_optional)
}

/// Regular fields (`None`) or members of the `k`-th oneof (`Some(k)`).
pub open spec fn member_pred(k: Option<int>) -> spec_fn(Field) -> bool {
    |f: Field|
        match k {
            Some(j) => in_oneof(f, j),
            None => is_regular(f),
        }
}

/// The regular fields of a message by ascending number.
pub open spec fn regular_fields(m: Message) -> Seq<Field> {
    stable_sort(m.field@.filter(member_pred(None)), field_number_lt())
}

/// The members of the `k`-th oneof by ascending number.
pub open spec fn oneof_members(m: Message, k: int) -> Seq<Field> {
    stable_sort(m.field@.filter(member_pred(Some(k))), field_number_lt())
}

/// The `k`-th oneof block; empty when it has no member.
pub open spec fn oneof_text(m: Message, k: int, proto2: bool, file: FileDescriptor, ind: Seq<char>, unit: nat) -> Seq<char> {
    let fs = oneof_members(m, k);
    if fs.len() == 0 {
        Seq::empty()
    } else {
        ind + "oneof "@ + m.oneof_decl@[k].name@ + " {"@ + nl() + fields_text(
            fs,
            m.nested_type@,
            proto2,
            true,
            file,
            ind + spaces(unit),
            unit,
        ) + ind + "}"@ + nl()
    }
}

/// All oneof blocks of a message in declaration order.
pub open spec fn oneofs_text(m: Message, proto2: bool, file: FileDescriptor, ind: Seq<char>, unit: nat) -> Seq<char> {
    concat(Seq::new(m.oneof_decl@.len(), |k: int| oneof_text(m, k, proto2, file, ind, unit)))
}

/// The recognised option lines of a message.
pub open spec fn message_options_text(m: Message, ind: Seq<char>) -> Seq<char> {
    match m.options {
        Some(o) => flag_line(o.message_set_wire_format, "message_set_wire_format"@, ind) + flag_line(
            o.no_standard_descriptor_accessor,
            "no_standard_descriptor_accessor"@,
            ind,
        ) + flag_line(o.deprecated, "deprecated"@, ind),
        None => Seq::empty(),
    }
}

/// The opening line of a message, its option lines and nested enums.
pub open spec fn message_head_text(m: Message, ind: Seq<char>, inner: Seq<char>, unit: nat) -> Seq<char> {
    ind + "message "@ + m.name@ + " {"@ + nl() + message_options_text(m, inner) + enums_text(m.enum_type@, inner, unit)
}

/// The extensions, extension ranges and reserved lines of a message, and
/// its closing brace.
pub open spec fn message_tail_text(
    m: Message,
    proto2: bool,
    file: FileDescriptor,
    ind: Seq<char>,
    inner: Seq<char>,
    unit: nat,
) -> Seq<char> {
    fields_text(m.extension@, Seq::empty(), proto2, false, file, inner, unit) + extension_ranges_text(
        m.extension_range@,
        inner,
    ) + message_reserved_text(m, inner) + ind + "}"@ + nl()
}

/// A message block; a map entry renders as nothing.
pub open spec fn message_text(m: Message, proto2: bool, file: FileDescriptor, ind: Seq<char>, unit: nat) -> Seq<char>
    decreases m,
{
    if is_map_entry(m) {
        Seq::empty()
    } else {
        let inner = ind + spaces(unit);
        message_head_text(m, ind, inner, unit) + nested_text(m.nested_type@, m.field@, proto2, file, inner, unit)
            + fields_text(regular_fields(m), m.nested_type@, proto2, false, file, inner, unit) + oneofs_text(
            m,
            proto2,
            file,
            inner,
            unit,
        ) + message_tail_text(m, proto2, file, ind, inner, unit)
    }
}

/// Nested messages in order, leaving out those that a group field of the
/// enclosing message (with fields `owner`) stands for.
pub open spec fn nested_text(
    ms: Seq<Message>,
    owner: Seq<Field>,
    proto2: bool,
    file: FileDescriptor,
    ind: Seq<char>,
    unit: nat,
) -> Seq<char>
    decreases ms,
{
    if ms.len() == 0 {
        Seq::empty()
    } else {
        nested_text(ms.drop_last(), owner, proto2, file, ind, unit) + if group_owned(owner, ms.last().name@) {
            Seq::empty()
        } else {
            message_text(ms.last(), proto2, file, ind, unit)
        }
    }
}

// ---------- file ----------

/// The syntax of a file; `proto2` when absent.
pub open spec fn syntax_of(file: FileDescriptor) -> Seq<char> {
    match file.syntax {
        Some(s) => s@,
        None => "proto2"@,
    }
}

/// The syntax and package lines, each followed by a blank line.
pub open spec fn header_text(file: FileDescriptor) -> Seq<char> {
    "syntax = \""@ + syntax_of(file) + "\";"@ + nl() + nl() + match file.package {
        Some(p) => if p@.len() > 0 {
            "package "@ + p@ + ";"@ + nl() + nl()
        } else {
            Seq::empty()
        },
        None => Seq::empty(),
    }
}

/// Whether the `i`-th import is marked public.
pub open spec fn is_public_dep(file: FileDescriptor, i: int) -> bool {
    exists|j: int| 0 <= j < file.public_dependency@.len() && file.public_dependency@[j] == i
}

/// Whether the `i`-th import is marked weak.
pub open spec fn is_weak_dep(file: FileDescriptor, i: int) -> bool {
    exists|j: int| 0 <= j < file.weak_dependency@.len() && file.weak_dependency@[j] == i
}

/// Kind rank of an import: 0 plain, 1 public, 2 weak.
pub open spec fn import_rank(file: FileDescriptor, i: int) -> int {
    if is_public_dep(file, i) { 1 } else if is_weak_dep(file, i) { 2 } else { 0 }
}

/// Import order: by kind rank, then by path (on the indices of imports).
pub open spec fn import_lt(file: FileDescriptor) -> spec_fn(usize, usize) -> bool {
    |a: usize, b: usize|
        a < file.dependency@.len() && b < file.dependency@.len() && (import_rank(file, a as int)
            < import_rank(file, b as int) || (import_rank(file, a as int) == import_rank(file, b as int)
            && text_lt(file.dependency@[a as int]@, file.dependency@[b as int]@)))
}

/// The import indices in emission order.
pub open spec fn import_order(file: FileDescriptor) -> Seq<usize> {
    stable_sort(Seq::new(file.dependency@.len(), |i: int| i as usize), import_lt(file))
}

/// The import line of the `i`-th import.
pub open spec fn import_line(file: FileDescriptor, i: int) -> Seq<char> {
    let path = file.dependency@[i]@;
    if is_public_dep(file, i) {
        "import public \""@ + path + "\";"@ + nl()
    } else if is_weak_dep(file, i) {
        "import weak \""@ + path + "\";"@ + nl()
    } else {
        "import \""@ + path + "\";"@ + nl()
    }
}

/// The import block, followed by a blank line.
pub open spec fn imports_text(file: FileDescriptor) -> Seq<char> {
    if file.dependency@.len() == 0 && file.public_dependency@.len() == 0 && file.weak_dependency@.len() == 0 {
        Seq::empty()
    } else {
        let order = import_order(file);
        concat(Seq::new(order.len(), |k: int| import_line(file, order[k] as int))) + nl()
    }
}

/// A string-valued file option line, when set.
pub open spec fn string_option(v: Option<String>, name: Seq<char>) -> Seq<Seq<char>> {
    match v {
        Some(s) => seq!["option "@ + name + " = \""@ + escaped(s@) + "\";"@],
        None => Seq::empty(),
    }
}

/// A boolean file option line, when set.
pub open spec fn bool_option(v: Option<bool>, name: Seq<char>) -> Seq<Seq<char>> {
    match v {
        Some(b) => seq!["option "@ + name + " = "@ + bool_text(b) + ";"@],
        None => Seq::empty(),
    }
}

/// Symbolic `optimize_for` value.
pub open spec fn optimize_text(o: OptimizeMode) -> Seq<char> {
    match o {
        OptimizeMode::Speed => "SPEED"@,
        OptimizeMode::CodeSize => "CODE_SIZE"@,
        OptimizeMode::LiteRuntime => "LITE_RUNTIME"@,
    }
}

/// The recognised file option lines, before sorting.
pub open spec fn file_option_lines(o: FileOptions) -> Seq<Seq<char>> {
    string_option(o.java_package, "java_package"@)
        + string_option(o.java_outer_classname, "java_outer_classname"@)
        + bool_option(o.java_multiple_files, "java_multiple_files"@)
        + bool_option(o.java_string_check_utf8, "java_string_check_utf8"@)
        + string_option(o.go_package, "go_package"@)
        + match o.optimize_for {
            Some(m) => seq!["option "@ + "optimize_for"@ + " = "@ + optimize_text(m) + ";"@],
            None => Seq::empty(),
        }
        + bool_option(o.cc_enable_arenas, "cc_enable_arenas"@)
        + bool_option(o.cc_generic_services, "cc_generic_services"@)
        + bool_option(o.java_generic_services, "java_generic_services"@)
        + bool_option(o.py_generic_services, "py_generic_services"@)
        + string_option(o.objc_class_prefix, "objc_class_prefix"@)
        + string_option(o.csharp_namespace, "csharp_namespace"@)
        + string_option(o.swift_prefix, "swift_prefix"@)
        + string_option(o.php_class_prefix, "php_class_prefix"@)
        + string_option(o.php_namespace, "php_namespace"@)
        + string_option(o.php_metadata_namespace, "php_metadata_namespace"@)
        + string_option(o.ruby_package, "ruby_package"@)
}

/// Order on texts.
pub open spec fn seq_lt() -> spec_fn(Seq<char>, Seq<char>) -> bool {
    |a: Seq<char>, b: Seq<char>| text_lt(a, b)
}

/// Lines each followed by a line feed.
pub open spec fn lines_text(ls: Seq<Seq<char>>) -> Seq<char> {
    concat(Seq::new(ls.len(), |i: int| ls[i] + nl()))
}

/// The sorted file option lines, followed by a blank line when any.
pub open spec fn file_options_text(file: FileDescriptor) -> Seq<char> {
    match file.options {
        Some(o) => {
            let ls = stable_sort(file_option_lines(o), seq_lt());
            lines_text(ls) + if ls.len() > 0 { nl() } else { Seq::empty() }
        },
        None => Seq::empty(),
    }
}

/// The extendee of an extension; empty when absent.
pub open spec fn extendee_key(f: Field) -> Seq<char> {
    match f.extendee {
        Some(e) => e@,
        None => Seq::empty(),
    }
}

/// Extension order: by extendee, then by number.
pub open spec fn extension_lt() -> spec_fn(Field, Field) -> bool {
    |a: Field, b: Field|
        text_lt(extendee_key(a), extendee_key(b)) || (extendee_key(a) == extendee_key(b) && a.number
            < b.number)
}

/// The `i`-th extension of the sorted list `s` with the `extend` header
/// that opens its extendee's block and the brace that closes it.
pub open spec fn extension_piece(s: Seq<Field>, i: int, proto2: bool, file: FileDescriptor, unit: nat) -> Seq<char> {
    let key = extendee_key(s[i]);
    (if i == 0 || extendee_key(s[i - 1]) != key {
        "extend "@ + strip_dots(key) + " {"@ + nl()
    } else {
        Seq::empty()
    }) + field_text(s[i], Seq::empty(), proto2, false, file, spaces(unit), unit) + (if i == s.len() - 1
        || extendee_key(s[i + 1]) != key {
        "}"@ + nl()
    } else {
        Seq::empty()
    })
}

/// File-level extensions, one `extend` block per extendee in ascending
/// order, fields by ascending number.
pub open spec fn extensions_text(file: FileDescriptor, proto2: bool, unit: nat) -> Seq<char> {
    let s = stable_sort(file.extension@, extension_lt());
    concat(Seq::new(s.len(), |i: int| extension_piece(s, i, proto2, file, unit)))
}

/// Top-level messages in emission order.
pub open spec fn message_order(file: FileDescriptor, o: TextGeneratorOptions) -> Seq<Message> {
    if o.sort_messages { stable_sort(file.message_type@, name_lt::<Message>()) } else { file.message_type@ }
}

/// Top-level enums in emission order.
pub open spec fn enum_order(file: FileDescriptor, o: TextGeneratorOptions) -> Seq<EnumType> {
    if o.sort_enums { stable_sort(file.enum_type@, name_lt::<EnumType>()) } else { file.enum_type@ }
}

/// Services in emission order.
pub open spec fn service_order(file: FileDescriptor, o: TextGeneratorOptions) -> Seq<Service> {
    if o.sort_services { stable_sort(file.service@, name_lt::<Service>()) } else { file.service@ }
}

/// The canonical text of a file.
pub open spec fn file_text(file: FileDescriptor, o: TextGeneratorOptions) -> Seq<char> {
    let proto2 = syntax_of(file) == "proto2"@;
    let unit = o.indent_size as nat;
    let ms = message_order(file, o);
    let es = enum_order(file, o);
    let ss = service_order(file, o);
    header_text(file) + imports_text(file) + file_options_text(file) + concat(
        Seq::new(ms.len(), |i: int| message_text(ms[i], proto2, file, Seq::empty(), unit) + nl()),
    ) + concat(Seq::new(es.len(), |i: int| enum_text(es[i], Seq::empty(), unit) + nl())) + concat(
        Seq::new(ss.len(), |i: int| service_text(ss[i], Seq::empty(), unit) + nl()),
    ) + extensions_text(file, proto2, unit)
}

} // verus!
