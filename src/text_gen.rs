//! Rendering a descriptor as canonical schema text.
use vstd::prelude::*;
use vstd::string::*;
use vstd::utf8::encode_utf8;
use crate::canonical::{
    extendee_key, extension_lt, extension_piece, extensions_text, syntax_of, header_text, file_text,
    string_option, bool_option, optimize_text, file_option_lines, seq_lt, lines_text, file_options_text,
    import_rank, import_lt, import_line, imports_text, import_order,
    method_text, method_type_text, method_end_text, service_text, name_lt,
    all_digits, bool_text, concat, default_option, digits_value, enum_default_text, enum_lookup,
    enum_head_text, enum_text, enum_value_text, values_text, field_number_lt, field_option_items, field_options_text, field_text,
    fields_text, find_named, flag_line, group_head_text, group_name, group_owned, half_open_text,
    inclusive_text, is_map_entry, is_named_type, is_true, join, label_text, map_field_text, map_info,
    map_part_text, member_pred, nl, number_part, opt_line, package_len, parse_i32, plain_field_text,
    quoted, reserved_line, enums_text, message_head_text, message_options_text, extension_ranges_text, message_tail_text, oneofs_text, oneof_text, message_text, nested_text, resolve_enum_value, resolve_walk, spaces, type_prefix, type_text,
    value_name, value_number_lt, Named, MAX_FIELD_NUMBER,
};
use crate::descriptor::{
    CType, EnumType, EnumValue, Field, FieldType, FileDescriptor, JsType, Label, Message, Method,
    FileOptions, NumberRange, OptimizeMode, Service,
};
use crate::order::{derefs, lemma_sort_contains, lemma_sort_derefs, lemma_sort_map, sort_with, stable_sort};
use crate::text::{
    escape_bytes, format_type_name, int_text, last_component, last_component_of, nat_text, push_char,
    push_escaped, push_int, push_nat, push_str, push_type_name, split_on_dots, str_eq, str_lt, views,
};

verus! {

/// Configuration of the text generator.
#[derive(Clone, Copy, Debug, PartialEq, Eq)]
pub struct TextGeneratorOptions {
    /// Spaces per nesting level.
    pub indent_size: usize,
    /// Emit top-level messages by ascending name.
    pub sort_messages: bool,
    /// Emit top-level enums by ascending name.
    pub sort_enums: bool,
    /// Emit services by ascending name.
    pub sort_services: bool,
}

impl Default for TextGeneratorOptions {
    fn default() -> (r: Self)
        ensures
            r.indent_size == 2,
            r.sort_messages,
            r.sort_enums,
            r.sort_services,
    {
        TextGeneratorOptions { indent_size: 2, sort_messages: true, sort_enums: true, sort_services: true }
    }
}

/// The text of an optional string.
pub open spec fn opt_view(o: Option<String>) -> Option<Seq<char>> {
    match o {
        Some(s) => Some(s@),
        None => None,
    }
}

fn push_spaces(out: &mut String, n: usize)
    ensures
        final(out)@ == old(out)@ + spaces(n as nat),
{
    let ghost start = out@;
    let mut i: usize = 0;
    while i < n
        invariant
            i <= n,
            out@ == start + spaces(i as nat),
        decreases n - i,
    {
        push_char(out, ' ');
        i = i + 1;
        assert(out@ =~= start + spaces(i as nat));
    }
}

fn indent_more(ind: &str, unit: usize) -> (r: String)
    ensures
        r@ == ind@ + spaces(unit as nat),
{
    let mut r = String::new();
    push_str(&mut r, ind);
    push_spaces(&mut r, unit);
    assert(r@ =~= ind@ + spaces(unit as nat));
    r
}

fn push_bool(out: &mut String, b: bool)
    ensures
        final(out)@ == old(out)@ + bool_text(b),
{
    if b {
        push_str(out, "true");
    } else {
        push_str(out, "false");
    }
}

fn push_line_end(out: &mut String)
    ensures
        final(out)@ == old(out)@ + ";"@ + nl(),
{
    push_str(out, ";");
    push_char(out, '\n');
    assert(final(out)@ =~= old(out)@ + ";"@ + nl());
}

fn push_close(out: &mut String, ind: &str)
    ensures
        final(out)@ == old(out)@ + ind@ + "}"@ + nl(),
{
    push_str(out, ind);
    push_str(out, "}");
    push_char(out, '\n');
    assert(final(out)@ =~= old(out)@ + ind@ + "}"@ + nl());
}

/// Appends `items` joined by `", "`.
fn push_join(out: &mut String, items: &Vec<String>)
    ensures
        final(out)@ == old(out)@ + join(views(items@)),
{
    let ghost start = out@;
    let mut i: usize = 0;
    while i < items.len()
        invariant
            i <= items@.len(),
            out@ == start + join(views(items@).take(i as int)),
        decreases items@.len() - i,
    {
        let ghost t = views(items@).take(i as int + 1);
        assert(t.drop_last() =~= views(items@).take(i as int));
        if i > 0 {
            push_str(out, ", ");
        }
        push_str(out, items[i].as_str());
        i = i + 1;
        proof {
            if i == 1 {
                assert(views(items@).take(0) =~= Seq::<Seq<char>>::empty());
            }
        }
        assert(out@ =~= start + join(views(items@).take(i as int)));
    }
    assert(views(items@).take(i as int) =~= views(items@));
}

fn push_opt(items: &mut Vec<String>, x: Option<String>)
    ensures
        views(final(items)@) == views(old(items)@) + opt_line(opt_view(x)),
{
    match x {
        Some(s) => {
            items.push(s);
        },
        None => {},
    }
    assert(views(final(items)@) =~= views(old(items)@) + opt_line(opt_view(x)));
}

/// Index of the first item of `s` named `name`.
fn find_named_in<T: Named>(s: &Vec<T>, name: &str) -> (r: Option<usize>)
    ensures
        r is Some <==> find_named(s@, name@) is Some,
        r is Some ==> r->0 as int == find_named(s@, name@)->0 && r->0 < s@.len(),
{
    let mut i: usize = 0;
    assert(s@.skip(0) =~= s@);
    while i < s.len()
        invariant
            i <= s@.len(),
            find_named(s@, name@) == match find_named(s@.skip(i as int), name@) {
                Some(j) => Some(j + i),
                None => None::<int>,
            },
        decreases s@.len() - i,
    {
        assert(s@.skip(i as int)[0] == s@[i as int]);
        if str_eq(s[i].name_str(), name) {
            return Some(i);
        }
        assert(s@.skip(i as int).drop_first() =~= s@.skip(i as int + 1));
        i = i + 1;
    }
    None
}

/// Name of the first value numbered `number`.
fn value_name_of(values: &Vec<EnumValue>, number: i32) -> (r: Option<&String>)
    ensures
        match value_name(values@, number as int) {
            Some(n) => r is Some && r->0@ == n,
            None => r is None,
        },
{
    let mut i: usize = 0;
    assert(values@.skip(0) =~= values@);
    while i < values.len()
        invariant
            i <= values@.len(),
            value_name(values@, number as int) == value_name(values@.skip(i as int), number as int),
        decreases values@.len() - i,
    {
        assert(values@.skip(i as int)[0] == values@[i as int]);
        if values[i].number == number {
            return Some(&values[i].name);
        }
        assert(values@.skip(i as int).drop_first() =~= values@.skip(i as int + 1));
        i = i + 1;
    }
    None
}

fn enum_lookup_in<'a>(enums: &'a Vec<EnumType>, name: &str, number: i32) -> (r: Option<&'a String>)
    ensures
        match enum_lookup(enums@, name@, number as int) {
            Some(n) => r is Some && r->0@ == n,
            None => r is None,
        },
{
    match find_named_in(enums, name) {
        Some(i) => value_name_of(&enums[i].value, number),
        None => None,
    }
}

/// The symbol of `number` in the enum that the fully qualified `full_name`
/// names within `file`.
pub fn enum_number_to_name<'a>(file: &'a FileDescriptor, full_name: &str, number: i32) -> (r: Option<&'a String>)
    ensures
        match resolve_enum_value(*file, full_name@, number as int) {
            Some(n) => r is Some && r->0@ == n,
            None => r is None,
        },
{
    let stripped = format_type_name(full_name);
    let comps = split_on_dots(stripped.as_str());
    let ghost cv = views(comps@);
    let k: usize = match &file.package {
        Some(p) => if p.as_str().unicode_len() == 0 {
            0
        } else {
            let parts = split_on_dots(p.as_str());
            assert(views(parts@).len() == parts@.len());
            parts.len()
        },
        None => 0,
    };
    assert(cv.len() == comps@.len());
    if k > comps.len() {
        return None;
    }
    if k < comps.len() {
        match find_named_in(&file.enum_type, comps[k].as_str()) {
            Some(e) => {
                if k == comps.len() - 1 {
                    return value_name_of(&file.enum_type[e].value, number);
                } else {
                    return None;
                }
            },
            None => {},
        }
    }
    let mut idx: usize = k;
    let mut msgs: &Vec<Message> = &file.message_type;
    let mut cur: Option<&Vec<EnumType>> = None;
    while idx < comps.len()
        invariant
            cv == views(comps@),
            k <= idx <= comps@.len(),
            resolve_enum_value(*file, full_name@, number as int) == resolve_walk(
                *file,
                msgs@,
                match cur {
                    Some(c) => Some(c@),
                    None => None,
                },
                cv,
                idx as int,
                number as int,
            ),
        decreases comps@.len() - idx,
    {
        let name = comps[idx].as_str();
        if idx == comps.len() - 1 {
            match cur {
                Some(es) => match find_named_in(es, name) {
                    Some(e) => {
                        return value_name_of(&es[e].value, number);
                    },
                    None => {},
                },
                None => {},
            }
            return enum_lookup_in(&file.enum_type, name, number);
        }
        match find_named_in(msgs, name) {
            Some(i) => {
                cur = Some(&msgs[i].enum_type);
                msgs = &msgs[i].nested_type;
                idx = idx + 1;
            },
            None => {
                return None;
            },
        }
    }
    None
}


proof fn lemma_digits_nonneg(s: Seq<char>)
    requires
        all_digits(s),
    ensures
        digits_value(s) >= 0,
    decreases s.len(),
{
    if s.len() > 0 {
        assert(all_digits(s.drop_last())) by {
            assert forall|i: int| 0 <= i < s.drop_last().len() implies '0' as u32 <= #[trigger] (
            s.drop_last()[i] as u32) <= '9' as u32 by {
                assert(s.drop_last()[i] == s[i]);
            }
        }
        lemma_digits_nonneg(s.drop_last());
        assert(s[s.len() - 1] as u32 >= '0' as u32);
    }
}

proof fn lemma_digits_prefix(s: Seq<char>, k: int)
    requires
        all_digits(s),
        0 <= k <= s.len(),
    ensures
        digits_value(s.take(k)) <= digits_value(s),
    decreases s.len(),
{
    if k < s.len() {
        let d = s.drop_last();
        assert(all_digits(d)) by {
            assert forall|i: int| 0 <= i < d.len() implies '0' as u32 <= #[trigger] (d[i] as u32) <= '9' as u32 by {
                assert(d[i] == s[i]);
            }
        }
        lemma_digits_prefix(d, k);
        assert(d.take(k) =~= s.take(k));
        lemma_digits_nonneg(d);
        assert(s[s.len() - 1] as u32 >= '0' as u32);
        assert(digits_value(s) == digits_value(d) * 10 + (s.last() as u32 - '0' as u32));
        assert(digits_value(d) * 10 >= digits_value(d)) by (nonlinear_arith)
            requires
                digits_value(d) >= 0,
        ;
    } else {
        assert(s.take(k) =~= s);
    }
}

/// The 32-bit integer that `s` spells in decimal, as `str::parse` reads it.
pub fn parse_int(s: &str) -> (r: Option<i32>)
    ensures
        match parse_i32(s@) {
            Some(v) => r == Some(v as i32),
            None => r is None,
        },
{
    let n = s.unicode_len();
    let mut i: usize = 0;
    let mut neg = false;
    if n > 0 {
        let c = s.get_char(0);
        if c == '-' {
            neg = true;
            i = 1;
        } else if c == '+' {
            i = 1;
        }
    }
    let ghost body = if s@.len() > 0 && (s@[0] == '-' || s@[0] == '+') { s@.drop_first() } else { s@ };
    assert(body =~= s@.skip(i as int));
    if i == n {
        return None;
    }
    let mut acc: i64 = 0;
    let mut j: usize = i;
    assert(s@.subrange(i as int, i as int) =~= Seq::<char>::empty());
    while j < n
        invariant
            n == s@.len(),
            i <= j <= n,
            i < n,
            body =~= s@.skip(i as int),
            body == (if s@.len() > 0 && (s@[0] == '-' || s@[0] == '+') { s@.drop_first() } else { s@ }),
            neg == (s@.len() > 0 && s@[0] == '-'),
            acc == digits_value(s@.subrange(i as int, j as int)),
            all_digits(s@.subrange(i as int, j as int)),
            0 <= acc <= 2147483648,
        decreases n - j,
    {
        let c = s.get_char(j);
        let ghost pre = s@.subrange(i as int, j as int);
        let ghost nxt = s@.subrange(i as int, j as int + 1);
        assert(nxt.drop_last() =~= pre);
        assert(nxt == body.take(j - i + 1));
        if !((c as u32) >= 48 && (c as u32) <= 57) {
            assert(body[j - i] == c);
            assert(!('0' as u32 <= (body[j - i] as u32) <= '9' as u32));
            assert(!all_digits(body));
            return None;
        }
        assert(all_digits(nxt)) by {
            assert forall|q: int| 0 <= q < nxt.len() implies '0' as u32 <= #[trigger] (nxt[q] as u32) <= '9' as u32 by {
                if q < pre.len() {
                    assert(nxt[q] == pre[q]);
                }
            }
        }
        acc = acc * 10 + ((c as u32) - 48) as i64;
        assert(acc == digits_value(nxt));
        if acc > 2147483648 {
            proof {
                if all_digits(body) {
                    lemma_digits_prefix(body, j - i + 1);
                }
            }
            return None;
        }
        j = j + 1;
    }
    assert(s@.subrange(i as int, n as int) =~= body);
    if neg {
        Some((-acc) as i32)
    } else if acc > 2147483647 {
        None
    } else {
        Some(acc as i32)
    }
}

/// Appends the printed value of an enum default.
fn push_enum_default(out: &mut String, f: &Field, file: &FileDescriptor, v: &str)
    ensures
        final(out)@ == old(out)@ + enum_default_text(*f, *file, v@),
{
    match parse_int(v) {
        Some(n) => match &f.type_ref {
            Some(t) => match enum_number_to_name(file, t.as_str(), n) {
                Some(name) => push_str(out, name.as_str()),
                None => push_str(out, v),
            },
            None => push_str(out, v),
        },
        None => push_str(out, v),
    }
}

fn default_option_of(f: &Field, file: &FileDescriptor) -> (r: Option<String>)
    ensures
        opt_view(r) == default_option(*f, *file),
{
    match (&f.default_value, f.field_type) {
        (Some(v), Some(t)) => {
            let mut s = String::new();
            if t == FieldType::TypeString {
                push_str(&mut s, "default = \"");
                push_escaped(&mut s, v.as_str());
                push_str(&mut s, "\"");
            } else if t == FieldType::TypeBytes {
                push_str(&mut s, "default = \"");
                let e = escape_bytes(v.as_str());
                push_str(&mut s, e.as_str());
                push_str(&mut s, "\"");
            } else if t == FieldType::TypeEnum {
                push_str(&mut s, "default = ");
                push_enum_default(&mut s, f, file, v.as_str());
            } else if t == FieldType::TypeFloat || t == FieldType::TypeDouble {
                push_str(&mut s, "default = ");
                push_str(&mut s, crate::text::normalize_float_default(v.as_str()));
            } else {
                push_str(&mut s, "default = ");
                push_str(&mut s, v.as_str());
            }
            assert(opt_view(Some(s)) =~= default_option(*f, *file));
            Some(s)
        },
        _ => None,
    }
}

fn text_with(prefix: &str, value: &str) -> (r: String)
    ensures
        r@ == prefix@ + value@,
{
    let mut s = String::new();
    push_str(&mut s, prefix);
    push_str(&mut s, value);
    assert(s@ =~= prefix@ + value@);
    s
}

fn bool_with(prefix: &str, b: bool) -> (r: String)
    ensures
        r@ == prefix@ + bool_text(b),
{
    let mut s = String::new();
    push_str(&mut s, prefix);
    push_bool(&mut s, b);
    assert(s@ =~= prefix@ + bool_text(b));
    s
}

fn flag_item(flag: Option<bool>, text: &str) -> (r: Option<String>)
    ensures
        opt_view(r) == (if is_true(flag) { Some(text@) } else { None::<Seq<char>> }),
{
    if flag == Some(true) {
        Some(text.to_owned())
    } else {
        None
    }
}

fn ctype_str(c: CType) -> (r: &'static str)
    ensures
        r@ == crate::canonical::ctype_text(c),
{
    match c {
        CType::CtypeString => "STRING",
        CType::Cord => "CORD",
        CType::StringPiece => "STRING_PIECE",
    }
}

fn jstype_str(j: JsType) -> (r: &'static str)
    ensures
        r@ == crate::canonical::jstype_text(j),
{
    match j {
        JsType::JsNormal => "JS_NORMAL",
        JsType::JsString => "JS_STRING",
        JsType::JsNumber => "JS_NUMBER",
    }
}

/// The options of a field in their fixed order.
fn field_option_list(f: &Field, file: &FileDescriptor) -> (r: Vec<String>)
    ensures
        views(r@) == field_option_items(*f, *file),
{
    let mut items: Vec<String> = Vec::new();
    match &f.options {
        None => {},
        Some(o) => {
            push_opt(
                &mut items,
                match o.packed {
                    Some(b) => Some(bool_with("packed = ", b)),
                    None => None,
                },
            );
            push_opt(&mut items, flag_item(o.deprecated, "deprecated = true"));
            push_opt(&mut items, flag_item(o.lazy, "lazy = true"));
            push_opt(&mut items, flag_item(o.weak, "weak = true"));
            push_opt(
                &mut items,
                match o.ctype {
                    Some(c) => Some(text_with("ctype = ", ctype_str(c))),
                    None => None,
                },
            );
            push_opt(
                &mut items,
                match o.jstype {
                    Some(j) => Some(text_with("jstype = ", jstype_str(j))),
                    None => None,
                },
            );
        },
    }
    push_opt(&mut items, default_option_of(f, file));
    assert(views(items@) =~= field_option_items(*f, *file));
    items
}

fn push_field_options(out: &mut String, f: &Field, file: &FileDescriptor)
    ensures
        final(out)@ == old(out)@ + field_options_text(*f, *file),
{
    let items = field_option_list(f, file);
    if items.len() > 0 {
        push_str(out, " [");
        push_join(out, &items);
        push_str(out, "]");
    }
    assert(final(out)@ =~= old(out)@ + field_options_text(*f, *file));
}

/// Name of a field type, as the scalar table gives it.
pub fn field_type_to_string(t: FieldType) -> (r: &'static str)
    ensures
        r@ == type_text(t),
{
    match t {
        FieldType::TypeDouble => "double",
        FieldType::TypeFloat => "float",
        FieldType::TypeInt64 => "int64",
        FieldType::TypeUint64 => "uint64",
        FieldType::TypeInt32 => "int32",
        FieldType::TypeFixed64 => "fixed64",
        FieldType::TypeFixed32 => "fixed32",
        FieldType::TypeBool => "bool",
        FieldType::TypeString => "string",
        FieldType::TypeGroup => "group",
        FieldType::TypeMessage => "message",
        FieldType::TypeBytes => "bytes",
        FieldType::TypeUint32 => "uint32",
        FieldType::TypeEnum => "enum",
        FieldType::TypeSfixed32 => "sfixed32",
        FieldType::TypeSfixed64 => "sfixed64",
        FieldType::TypeSint32 => "sint32",
        FieldType::TypeSint64 => "sint64",
    }
}

fn map_part(f: &Field) -> (r: Option<String>)
    ensures
        opt_view(r) == map_part_text(*f),
{
    match f.field_type {
        Some(t) => if t == FieldType::TypeMessage || t == FieldType::TypeEnum {
            match &f.type_ref {
                Some(n) => Some(format_type_name(n.as_str())),
                None => None,
            }
        } else {
            Some(field_type_to_string(t).to_owned())
        },
        None => None,
    }
}

/// Key and value type texts of a map field.
struct MapTypes {
    key: String,
    value: String,
}

/// The key and value types of a map field whose entry message is among
/// `ctx`.
fn map_field_info(f: &Field, ctx: &Vec<Message>) -> (r: Option<MapTypes>)
    ensures
        match map_info(*f, ctx@) {
            Some((k, v)) => r is Some && r->0.key@ == k && r->0.value@ == v,
            None => r is None,
        },
{
    if f.label != Some(Label::Repeated) || f.field_type != Some(FieldType::TypeMessage) {
        return None;
    }
    let t = match &f.type_ref {
        Some(t) => t,
        None => {
            return None;
        },
    };
    let i = match find_named_in(ctx, last_component_of(t.as_str())) {
        Some(i) => i,
        None => {
            return None;
        },
    };
    let e = &ctx[i];
    let entry = match &e.options {
        Some(o) => o.map_entry == Some(true),
        None => false,
    };
    if !entry || e.field.len() != 2 {
        return None;
    }
    let k = match find_named_in(&e.field, "key") {
        Some(k) => k,
        None => {
            return None;
        },
    };
    let v = match find_named_in(&e.field, "value") {
        Some(v) => v,
        None => {
            return None;
        },
    };
    match (map_part(&e.field[k]), map_part(&e.field[v])) {
        (Some(kt), Some(vt)) => Some(MapTypes { key: kt, value: vt }),
        _ => None,
    }
}


fn push_label(out: &mut String, f: &Field, proto2: bool, member: bool)
    ensures
        final(out)@ == old(out)@ + label_text(*f, proto2, member),
{
    if member {
        assert(final(out)@ =~= old(out)@ + label_text(*f, proto2, member));
        return;
    }
    match f.label {
        Some(Label::Repeated) => push_str(out, "repeated "),
        Some(Label::Required) => if proto2 {
            push_str(out, "required ");
        },
        Some(Label::Optional) => if proto2 || f.proto3_optional == Some(true) {
            push_str(out, "optional ");
        },
        None => {},
    }
    assert(final(out)@ =~= old(out)@ + label_text(*f, proto2, member));
}

fn push_number_part(out: &mut String, f: &Field, file: &FileDescriptor)
    ensures
        final(out)@ == old(out)@ + number_part(*f, *file),
{
    push_str(out, " = ");
    push_int(out, f.number);
    push_field_options(out, f, file);
    assert(final(out)@ =~= old(out)@ + number_part(*f, *file));
}

fn push_type_prefix(out: &mut String, f: &Field)
    ensures
        final(out)@ == old(out)@ + type_prefix(*f),
{
    match f.field_type {
        Some(t) => if t == FieldType::TypeMessage || t == FieldType::TypeEnum {
            match &f.type_ref {
                Some(n) => {
                    push_type_name(out, n.as_str());
                    push_str(out, " ");
                },
                None => {},
            }
        } else {
            push_str(out, field_type_to_string(t));
            push_str(out, " ");
        },
        None => {},
    }
    assert(final(out)@ =~= old(out)@ + type_prefix(*f));
}

/// References to the elements of `v`, in order.
fn refs_of<T>(v: &Vec<T>) -> (r: Vec<&T>)
    ensures
        derefs(r@) == v@,
{
    let mut r: Vec<&T> = Vec::new();
    let mut i: usize = 0;
    while i < v.len()
        invariant
            i <= v@.len(),
            derefs(r@) == v@.take(i as int),
            r@.len() == i,
        decreases v@.len() - i,
    {
        let x: &T = &v[i];
        assert(*x == v@[i as int]);
        r.push(x);
        assert(*r@[i as int] == v@[i as int]);
        i = i + 1;
        assert(derefs(r@) =~= v@.take(i as int));
    }
    assert(v@.take(i as int) =~= v@);
    r
}

fn write_map_field(out: &mut String, f: &Field, mt: &MapTypes, file: &FileDescriptor, ind: &str)
    ensures
        final(out)@ == old(out)@ + map_field_text(*f, mt.key@, mt.value@, *file, ind@),
{
    let ghost start = out@;
    push_str(out, ind);
    push_str(out, "map<");
    push_str(out, mt.key.as_str());
    push_str(out, ", ");
    push_str(out, mt.value.as_str());
    push_str(out, "> ");
    push_str(out, f.name.as_str());
    push_number_part(out, f, file);
    push_line_end(out);
    assert(out@ =~= start + map_field_text(*f, mt.key@, mt.value@, *file, ind@));
}

fn write_plain_field(out: &mut String, f: &Field, proto2: bool, member: bool, file: &FileDescriptor, ind: &str)
    ensures
        final(out)@ == old(out)@ + plain_field_text(*f, proto2, member, *file, ind@),
{
    let ghost start = out@;
    push_str(out, ind);
    push_label(out, f, proto2, member);
    push_type_prefix(out, f);
    push_str(out, f.name.as_str());
    push_number_part(out, f, file);
    push_line_end(out);
    assert(out@ =~= start + plain_field_text(*f, proto2, member, *file, ind@));
}

fn write_group_head(out: &mut String, f: &Field, proto2: bool, member: bool, file: &FileDescriptor, ind: &str)
    ensures
        final(out)@ == old(out)@ + group_head_text(*f, proto2, member, *file, ind@),
{
    let ghost start = out@;
    push_str(out, ind);
    push_label(out, f, proto2, member);
    push_str(out, "group ");
    match &f.type_ref {
        Some(t) => push_str(out, last_component_of(t.as_str())),
        None => push_str(out, f.name.as_str()),
    }
    push_number_part(out, f, file);
    push_str(out, " {");
    push_char(out, '\n');
    assert(out@ =~= start + group_head_text(*f, proto2, member, *file, ind@));
}

/// Appends one field at indentation `ind`.
#[verifier::spinoff_prover]
#[verifier::rlimit(40)]
fn write_field(
    out: &mut String,
    f: &Field,
    ctx: &Vec<Message>,
    proto2: bool,
    member: bool,
    file: &FileDescriptor,
    ind: &str,
    unit: usize,
)
    ensures
        final(out)@ == old(out)@ + field_text(*f, ctx@, proto2, member, *file, ind@, unit as nat),
    decreases ctx@, 0nat,
{
    let ghost start = out@;
    match map_field_info(f, ctx) {
        Some(mt) => {
            write_map_field(out, f, &mt, file, ind);
        },
        None => {
            if f.field_type == Some(FieldType::TypeGroup) {
                write_group_head(out, f, proto2, member, file, ind);
                match &f.type_ref {
                    Some(t) => match find_named_in(ctx, last_component_of(t.as_str())) {
                        Some(i) => {
                            let g = &ctx[i];
                            let inner = indent_more(ind, unit);
                            let members = refs_of(&g.field);
                            assert(decreases_to!(ctx@ => ctx@[i as int].nested_type@));
                            write_fields(out, &members, &g.nested_type, proto2, false, file, inner.as_str(), unit);
                        },
                        None => {},
                    },
                    None => {},
                }
                push_close(out, ind);
                assert(out@ =~= start + field_text(*f, ctx@, proto2, member, *file, ind@, unit as nat));
            } else {
                write_plain_field(out, f, proto2, member, file, ind);
            }
        },
    }
}

/// Appends fields one after the other.
fn write_fields(
    out: &mut String,
    fs: &Vec<&Field>,
    ctx: &Vec<Message>,
    proto2: bool,
    member: bool,
    file: &FileDescriptor,
    ind: &str,
    unit: usize,
)
    ensures
        final(out)@ == old(out)@ + fields_text(derefs(fs@), ctx@, proto2, member, *file, ind@, unit as nat),
    decreases ctx@, fs@.len(),
{
    let ghost start = out@;
    let ghost all = derefs(fs@);
    let mut i: usize = 0;
    assert(all.take(0) =~= Seq::<Field>::empty());
    while i < fs.len()
        invariant
            i <= fs@.len(),
            all == derefs(fs@),
            out@ == start + fields_text(all.take(i as int), ctx@, proto2, member, *file, ind@, unit as nat),
        decreases fs@.len() - i,
    {
        write_field(out, fs[i], ctx, proto2, member, file, ind, unit);
        proof {
            let t = all.take(i as int + 1);
            assert(t.drop_last() =~= all.take(i as int));
            assert(t.last() == *fs@[i as int]);
        }
        i = i + 1;
    }
    assert(all.take(i as int) =~= all);
}


spec fn field_before_spec(a: &Field, b: &Field) -> bool {
    field_number_lt()(*a, *b)
}

spec fn value_before_spec(a: &EnumValue, b: &EnumValue) -> bool {
    value_number_lt()(*a, *b)
}

fn field_before(a: &Field, b: &Field) -> (c: bool)
    ensures
        c == field_number_lt()(*a, *b),
{
    a.number < b.number
}

fn value_before(a: &EnumValue, b: &EnumValue) -> (c: bool)
    ensures
        c == value_number_lt()(*a, *b),
{
    a.number < b.number
}

/// The fields of `fs` that `member_pred(k)` selects, by ascending number.
fn select_fields<'a>(fs: &'a Vec<Field>, k: Option<usize>) -> (r: Vec<&'a Field>)
    ensures
        derefs(r@) == stable_sort(
            fs@.filter(
                member_pred(
                    match k {
                        Some(j) => Some(j as int),
                        None => None,
                    },
                ),
            ),
            field_number_lt(),
        ),
{
    let ghost kk = match k {
        Some(j) => Some(j as int),
        None => None::<int>,
    };
    let ghost pred = member_pred(kk);
    let mut sel: Vec<&'a Field> = Vec::new();
    let mut i: usize = 0;
    assert(fs@.take(0) =~= Seq::<Field>::empty());
    reveal_with_fuel(Seq::filter, 1);
    while i < fs.len()
        invariant
            i <= fs@.len(),
            pred == member_pred(kk),
            kk == match k {
                Some(j) => Some(j as int),
                None => None::<int>,
            },
            derefs(sel@) == fs@.take(i as int).filter(pred),
        decreases fs@.len() - i,
    {
        let f = &fs[i];
        let chosen = match k {
            Some(j) => match f.oneof_index {
                Some(x) => x >= 0 && (x as usize) == j && f.proto3_optional != Some(true),
                None => false,
            },
            None => f.oneof_index.is_none() || f.proto3_optional == Some(true),
        };
        assert(chosen == pred(*f));
        proof {
            fs@.take(i as int).lemma_filter_push(*f, pred);
            assert(fs@.take(i as int + 1) =~= fs@.take(i as int).push(*f));
        }
        if chosen {
            sel.push(f);
            assert(derefs(sel@) =~= fs@.take(i as int + 1).filter(pred));
        }
        i = i + 1;
    }
    assert(fs@.take(i as int) =~= fs@);
    let ghost lt = field_number_lt();
    let r = sort_with(
        sel,
        &(|a: &&Field, b: &&Field| -> (c: bool)
            ensures
                c == field_before_spec(*a, *b),
            { field_before(*a, *b) }),
        Ghost(|a: &Field, b: &Field| lt(*a, *b)),
    );
    proof {
        lemma_sort_derefs(sel@, lt);
    }
    r
}

/// Whether a group field of `fs` names a nested message called `name`.
fn is_group_owned(fs: &Vec<Field>, name: &str) -> (r: bool)
    ensures
        r == group_owned(fs@, name@),
{
    let mut i: usize = 0;
    while i < fs.len()
        invariant
            i <= fs@.len(),
            forall|j: int|
                0 <= j < i ==> !((#[trigger] fs@[j]).field_type == Some(FieldType::TypeGroup) && fs@[j].type_ref is Some
                    && last_component(fs@[j].type_ref->0@) == name@),
        decreases fs@.len() - i,
    {
        let f = &fs[i];
        if f.field_type == Some(FieldType::TypeGroup) {
            match &f.type_ref {
                Some(t) => {
                    if str_eq(last_component_of(t.as_str()), name) {
                        assert(fs@[i as int] == *f);
                        return true;
                    }
                },
                None => {},
            }
        }
        i = i + 1;
    }
    false
}

fn write_flag_line(out: &mut String, flag: Option<bool>, name: &str, ind: &str)
    ensures
        final(out)@ == old(out)@ + flag_line(flag, name@, ind@),
{
    if flag == Some(true) {
        push_str(out, ind);
        push_str(out, "option ");
        push_str(out, name);
        push_str(out, " = true;");
        push_char(out, '\n');
    }
    assert(final(out)@ =~= old(out)@ + flag_line(flag, name@, ind@));
}

fn push_half_open(out: &mut String, r: NumberRange)
    ensures
        final(out)@ == old(out)@ + half_open_text(r),
{
    let start = r.start as i64;
    let end = r.end as i64;
    push_int(out, r.start);
    if start + 1 == end {
    } else if end - 1 == MAX_FIELD_NUMBER as i64 {
        push_str(out, " to max");
    } else {
        push_str(out, " to ");
        let e = (end - 1) as i64;
        if e >= i32::MIN as i64 {
            push_int(out, e as i32);
        } else {
            push_char(out, '-');
            push_nat(out, 2147483649);
        }
    }
    proof {
        if r.end as int - 1 < i32::MIN as int {
            assert(int_text(r.end - 1) =~= seq!['-'] + nat_text(2147483649));
        }
    }
    assert(final(out)@ =~= old(out)@ + half_open_text(r));
}

fn push_inclusive(out: &mut String, r: NumberRange)
    ensures
        final(out)@ == old(out)@ + inclusive_text(r),
{
    push_int(out, r.start);
    if r.start == r.end {
    } else if r.end == MAX_FIELD_NUMBER {
        push_str(out, " to max");
    } else {
        push_str(out, " to ");
        push_int(out, r.end);
    }
    assert(final(out)@ =~= old(out)@ + inclusive_text(r));
}

fn range_items(rs: &Vec<NumberRange>, inclusive: bool) -> (r: Vec<String>)
    ensures
        views(r@) == (if inclusive {
            Seq::new(rs@.len(), |i: int| inclusive_text(rs@[i]))
        } else {
            Seq::new(rs@.len(), |i: int| half_open_text(rs@[i]))
        }),
{
    let mut items: Vec<String> = Vec::new();
    let mut i: usize = 0;
    while i < rs.len()
        invariant
            i <= rs@.len(),
            items@.len() == i,
            forall|q: int|
                0 <= q < i ==> #[trigger] items@[q]@ == (if inclusive {
                    inclusive_text(rs@[q])
                } else {
                    half_open_text(rs@[q])
                }),
        decreases rs@.len() - i,
    {
        let mut s = String::new();
        if inclusive {
            push_inclusive(&mut s, rs[i]);
            assert(s@ =~= inclusive_text(rs@[i as int]));
        } else {
            push_half_open(&mut s, rs[i]);
            assert(s@ =~= half_open_text(rs@[i as int]));
        }
        items.push(s);
        i = i + 1;
    }
    if inclusive {
        assert(views(items@) =~= Seq::new(rs@.len(), |i: int| inclusive_text(rs@[i])));
    } else {
        assert(views(items@) =~= Seq::new(rs@.len(), |i: int| half_open_text(rs@[i])));
    }
    items
}

fn quoted_items(names: &Vec<String>) -> (r: Vec<String>)
    ensures
        views(r@) == quoted(names@),
{
    let mut items: Vec<String> = Vec::new();
    let mut i: usize = 0;
    while i < names.len()
        invariant
            i <= names@.len(),
            items@.len() == i,
            forall|q: int| 0 <= q < i ==> #[trigger] items@[q]@ == "\""@ + names@[q]@ + "\""@,
        decreases names@.len() - i,
    {
        let mut s = String::new();
        push_str(&mut s, "\"");
        push_str(&mut s, names[i].as_str());
        push_str(&mut s, "\"");
        assert(s@ =~= "\""@ + names@[i as int]@ + "\""@);
        items.push(s);
        i = i + 1;
    }
    assert(views(items@) =~= quoted(names@));
    items
}

fn write_reserved_line(out: &mut String, items: &Vec<String>, ind: &str)
    ensures
        final(out)@ == old(out)@ + reserved_line(views(items@), ind@),
{
    if items.len() > 0 {
        push_str(out, ind);
        push_str(out, "reserved ");
        push_join(out, items);
        push_line_end(out);
    }
    assert(final(out)@ =~= old(out)@ + reserved_line(views(items@), ind@));
}

fn write_enum_value(out: &mut String, v: &EnumValue, ind: &str)
    ensures
        final(out)@ == old(out)@ + enum_value_text(*v, ind@),
{
    push_str(out, ind);
    push_str(out, v.name.as_str());
    push_str(out, " = ");
    push_int(out, v.number);
    if v.deprecated == Some(true) {
        push_str(out, " [deprecated = true]");
    }
    push_line_end(out);
    assert(final(out)@ =~= old(out)@ + enum_value_text(*v, ind@));
}

fn write_values(out: &mut String, values: &Vec<&EnumValue>, ind: &str)
    ensures
        final(out)@ == old(out)@ + values_text(derefs(values@), ind@),
{
    let ghost start = out@;
    let ghost vs = derefs(values@);
    let mut i: usize = 0;
    assert(Seq::new(0, |q: int| enum_value_text(vs[q], ind@)) =~= Seq::<Seq<char>>::empty());
    while i < values.len()
        invariant
            i <= values@.len(),
            vs == derefs(values@),
            out@ == start + concat(Seq::new(i as nat, |q: int| enum_value_text(vs[q], ind@))),
        decreases values@.len() - i,
    {
        write_enum_value(out, values[i], ind);
        proof {
            let t = Seq::new((i + 1) as nat, |q: int| enum_value_text(vs[q], ind@));
            assert(t.drop_last() =~= Seq::new(i as nat, |q: int| enum_value_text(vs[q], ind@)));
        }
        i = i + 1;
    }
}

fn write_enum_head(out: &mut String, e: &EnumType, ind: &str, inner: &str)
    ensures
        final(out)@ == old(out)@ + enum_head_text(*e, ind@, inner@),
{
    let ghost start = out@;
    push_str(out, ind);
    push_str(out, "enum ");
    push_str(out, e.name.as_str());
    push_str(out, " {");
    push_char(out, '\n');
    write_flag_line(out, e.allow_alias, "allow_alias", inner);
    write_flag_line(out, e.deprecated, "deprecated", inner);
    assert(out@ =~= start + enum_head_text(*e, ind@, inner@));
}

/// Appends one enum at indentation `ind`.
fn write_enum(out: &mut String, e: &EnumType, ind: &str, unit: usize)
    ensures
        final(out)@ == old(out)@ + enum_text(*e, ind@, unit as nat),
{
    let ghost start = out@;
    let inner = indent_more(ind, unit);
    write_enum_head(out, e, ind, inner.as_str());
    let ghost lt = value_number_lt();
    let refs = refs_of(&e.value);
    let ghost refs_view = refs@;
    let values = sort_with(
        refs,
        &(|a: &&EnumValue, b: &&EnumValue| -> (c: bool)
            ensures
                c == value_before_spec(*a, *b),
            { value_before(*a, *b) }),
        Ghost(|a: &EnumValue, b: &EnumValue| lt(*a, *b)),
    );
    proof {
        lemma_sort_derefs(refs_view, lt);
    }
    write_values(out, &values, inner.as_str());
    let ranges = range_items(&e.reserved_range, true);
    write_reserved_line(out, &ranges, inner.as_str());
    let names = quoted_items(&e.reserved_name);
    write_reserved_line(out, &names, inner.as_str());
    push_close(out, ind);
    assert(out@ =~= start + enum_text(*e, ind@, unit as nat));
}


fn write_enums(out: &mut String, es: &Vec<EnumType>, ind: &str, unit: usize)
    ensures
        final(out)@ == old(out)@ + enums_text(es@, ind@, unit as nat),
{
    let ghost start = out@;
    let mut i: usize = 0;
    assert(Seq::new(0, |q: int| enum_text(es@[q], ind@, unit as nat)) =~= Seq::<Seq<char>>::empty());
    while i < es.len()
        invariant
            i <= es@.len(),
            out@ == start + concat(Seq::new(i as nat, |q: int| enum_text(es@[q], ind@, unit as nat))),
        decreases es@.len() - i,
    {
        write_enum(out, &es[i], ind, unit);
        proof {
            let t = Seq::new((i + 1) as nat, |q: int| enum_text(es@[q], ind@, unit as nat));
            assert(t.drop_last() =~= Seq::new(i as nat, |q: int| enum_text(es@[q], ind@, unit as nat)));
        }
        i = i + 1;
    }
    assert(Seq::new(i as nat, |q: int| enum_text(es@[q], ind@, unit as nat)) =~= Seq::new(
        es@.len(),
        |q: int| enum_text(es@[q], ind@, unit as nat),
    ));
}

fn write_message_head(out: &mut String, m: &Message, ind: &str, inner: &str, unit: usize)
    ensures
        final(out)@ == old(out)@ + message_head_text(*m, ind@, inner@, unit as nat),
{
    let ghost start = out@;
    push_str(out, ind);
    push_str(out, "message ");
    push_str(out, m.name.as_str());
    push_str(out, " {");
    push_char(out, '\n');
    let ghost mid = out@;
    match &m.options {
        Some(o) => {
            write_flag_line(out, o.message_set_wire_format, "message_set_wire_format", inner);
            write_flag_line(out, o.no_standard_descriptor_accessor, "no_standard_descriptor_accessor", inner);
            write_flag_line(out, o.deprecated, "deprecated", inner);
        },
        None => {},
    }
    assert(out@ =~= mid + message_options_text(*m, inner@));
    write_enums(out, &m.enum_type, inner, unit);
    assert(out@ =~= start + message_head_text(*m, ind@, inner@, unit as nat));
}

fn write_extension_ranges(out: &mut String, rs: &Vec<NumberRange>, ind: &str)
    ensures
        final(out)@ == old(out)@ + extension_ranges_text(rs@, ind@),
{
    let ghost start = out@;
    let ghost f = |q: int| ind@ + "extensions "@ + half_open_text(rs@[q]) + ";"@ + nl();
    let mut i: usize = 0;
    assert(Seq::new(0, f) =~= Seq::<Seq<char>>::empty());
    while i < rs.len()
        invariant
            i <= rs@.len(),
            f == (|q: int| ind@ + "extensions "@ + half_open_text(rs@[q]) + ";"@ + nl()),
            out@ == start + concat(Seq::new(i as nat, f)),
        decreases rs@.len() - i,
    {
        let ghost before = out@;
        push_str(out, ind);
        push_str(out, "extensions ");
        push_half_open(out, rs[i]);
        push_line_end(out);
        proof {
            let t = Seq::new((i + 1) as nat, f);
            assert(t.drop_last() =~= Seq::new(i as nat, f));
            assert(out@ =~= before + f(i as int));
        }
        i = i + 1;
    }
    assert(Seq::new(i as nat, f) =~= Seq::new(rs@.len(), f));
}

fn write_message_tail(
    out: &mut String,
    m: &Message,
    proto2: bool,
    file: &FileDescriptor,
    ind: &str,
    inner: &str,
    unit: usize,
)
    ensures
        final(out)@ == old(out)@ + message_tail_text(*m, proto2, *file, ind@, inner@, unit as nat),
{
    let ghost start = out@;
    let no_ctx: Vec<Message> = Vec::new();
    let exts = refs_of(&m.extension);
    write_fields(out, &exts, &no_ctx, proto2, false, file, inner, unit);
    assert(no_ctx@ =~= Seq::<Message>::empty());
    write_extension_ranges(out, &m.extension_range, inner);
    let ranges = range_items(&m.reserved_range, false);
    write_reserved_line(out, &ranges, inner);
    let names = quoted_items(&m.reserved_name);
    write_reserved_line(out, &names, inner);
    push_close(out, ind);
    assert(out@ =~= start + message_tail_text(*m, proto2, *file, ind@, inner@, unit as nat));
}

fn write_oneofs(out: &mut String, m: &Message, proto2: bool, file: &FileDescriptor, ind: &str, unit: usize)
    ensures
        final(out)@ == old(out)@ + oneofs_text(*m, proto2, *file, ind@, unit as nat),
{
    let ghost start = out@;
    let ghost f = |k: int| oneof_text(*m, k, proto2, *file, ind@, unit as nat);
    let inner = indent_more(ind, unit);
    let mut k: usize = 0;
    assert(Seq::new(0, f) =~= Seq::<Seq<char>>::empty());
    while k < m.oneof_decl.len()
        invariant
            k <= m.oneof_decl@.len(),
            inner@ == ind@ + spaces(unit as nat),
            f == (|k: int| oneof_text(*m, k, proto2, *file, ind@, unit as nat)),
            out@ == start + concat(Seq::new(k as nat, f)),
        decreases m.oneof_decl@.len() - k,
    {
        let ghost before = out@;
        let members = select_fields(&m.field, Some(k));
        if members.len() > 0 {
            push_str(out, ind);
            push_str(out, "oneof ");
            push_str(out, m.oneof_decl[k].name.as_str());
            push_str(out, " {");
            push_char(out, '\n');
            write_fields(out, &members, &m.nested_type, proto2, true, file, inner.as_str(), unit);
            push_close(out, ind);
        }
        proof {
            let t = Seq::new((k + 1) as nat, f);
            assert(t.drop_last() =~= Seq::new(k as nat, f));
            assert(out@ =~= before + f(k as int));
        }
        k = k + 1;
    }
    assert(Seq::new(k as nat, f) =~= Seq::new(m.oneof_decl@.len(), f));
}

/// Appends one message at indentation `ind`; a map entry adds nothing.
#[verifier::spinoff_prover]
#[verifier::rlimit(40)]
fn write_message(out: &mut String, m: &Message, proto2: bool, file: &FileDescriptor, ind: &str, unit: usize)
    ensures
        final(out)@ == old(out)@ + message_text(*m, proto2, *file, ind@, unit as nat),
        is_map_entry(*m) ==> final(out)@ == old(out)@,
    decreases *m,
{
    let entry = match &m.options {
        Some(o) => o.map_entry == Some(true),
        None => false,
    };
    if entry {
        assert(final(out)@ =~= old(out)@ + message_text(*m, proto2, *file, ind@, unit as nat));
        return;
    }
    let ghost start = out@;
    let inner = indent_more(ind, unit);
    write_message_head(out, m, ind, inner.as_str(), unit);
    write_nested(out, &m.nested_type, &m.field, proto2, file, inner.as_str(), unit);
    let regular = select_fields(&m.field, None);
    write_fields(out, &regular, &m.nested_type, proto2, false, file, inner.as_str(), unit);
    write_oneofs(out, m, proto2, file, inner.as_str(), unit);
    write_message_tail(out, m, proto2, file, ind, inner.as_str(), unit);
    assert(out@ =~= start + message_text(*m, proto2, *file, ind@, unit as nat));
}

/// Appends nested messages in order, leaving out those that a group field
/// of `owner` stands for.
#[verifier::spinoff_prover]
#[verifier::rlimit(60)]
fn write_nested(
    out: &mut String,
    ms: &Vec<Message>,
    owner: &Vec<Field>,
    proto2: bool,
    file: &FileDescriptor,
    ind: &str,
    unit: usize,
)
    ensures
        final(out)@ == old(out)@ + nested_text(ms@, owner@, proto2, *file, ind@, unit as nat),
    decreases ms@,
{
    let ghost start = out@;
    let mut i: usize = 0;
    assert(ms@.take(0) =~= Seq::<Message>::empty());
    while i < ms.len()
        invariant
            i <= ms@.len(),
            out@ == start + nested_text(ms@.take(i as int), owner@, proto2, *file, ind@, unit as nat),
        decreases ms@.len() - i,
    {
        let m = &ms[i];
        if !is_group_owned(owner, m.name.as_str()) {
            assert(decreases_to!(ms@ => ms@[i as int]));
            write_message(out, m, proto2, file, ind, unit);
        }
        proof {
            let t = ms@.take(i as int + 1);
            assert(t.drop_last() =~= ms@.take(i as int));
            assert(t.last() == ms@[i as int]);
        }
        i = i + 1;
    }
    assert(ms@.take(i as int) =~= ms@);
}


fn push_method_type(out: &mut String, streaming: bool, t: &Option<String>)
    ensures
        final(out)@ == old(out)@ + method_type_text(streaming, *t),
{
    if streaming {
        push_str(out, "stream ");
    }
    match t {
        Some(n) => push_type_name(out, n.as_str()),
        None => {},
    }
    assert(final(out)@ =~= old(out)@ + method_type_text(streaming, *t));
}

fn push_method_end(out: &mut String, m: &Method, ind: &str, unit: usize)
    ensures
        final(out)@ == old(out)@ + method_end_text(*m, ind@, unit as nat),
{
    if m.deprecated == Some(true) {
        push_str(out, " {");
        push_char(out, '\n');
        push_str(out, ind);
        push_spaces(out, unit);
        push_str(out, "option deprecated = true;");
        push_char(out, '\n');
        push_str(out, ind);
        push_str(out, "}");
        push_char(out, '\n');
    } else {
        push_str(out, ";");
        push_char(out, '\n');
    }
    assert(final(out)@ =~= old(out)@ + method_end_text(*m, ind@, unit as nat));
}

fn write_method(out: &mut String, m: &Method, ind: &str, unit: usize)
    ensures
        final(out)@ == old(out)@ + method_text(*m, ind@, unit as nat),
{
    let ghost start = out@;
    push_str(out, ind);
    push_str(out, "rpc ");
    push_str(out, m.name.as_str());
    push_str(out, "(");
    push_method_type(out, m.client_streaming, &m.input_type);
    push_str(out, ")");
    push_str(out, " returns (");
    push_method_type(out, m.server_streaming, &m.output_type);
    push_str(out, ")");
    push_method_end(out, m, ind, unit);
    assert(out@ =~= start + method_text(*m, ind@, unit as nat));
}

spec fn method_before_spec(a: &Method, b: &Method) -> bool {
    name_lt::<Method>()(*a, *b)
}

fn method_before(a: &Method, b: &Method) -> (c: bool)
    ensures
        c == method_before_spec(a, b),
{
    str_lt(a.name.as_str(), b.name.as_str())
}

fn write_service_head(out: &mut String, s: &Service, ind: &str, inner: &str)
    ensures
        final(out)@ == old(out)@ + ind@ + "service "@ + s.name@ + " {"@ + nl() + flag_line(s.deprecated, "deprecated"@, inner@),
{
    let ghost start = out@;
    push_str(out, ind);
    push_str(out, "service ");
    push_str(out, s.name.as_str());
    push_str(out, " {");
    push_char(out, '\n');
    write_flag_line(out, s.deprecated, "deprecated", inner);
    assert(out@ =~= start + ind@ + "service "@ + s.name@ + " {"@ + nl() + flag_line(s.deprecated, "deprecated"@, inner@));
}

/// Appends one service at indentation `ind`.
fn write_service(out: &mut String, s: &Service, ind: &str, unit: usize)
    ensures
        final(out)@ == old(out)@ + service_text(*s, ind@, unit as nat),
{
    let ghost start = out@;
    let inner = indent_more(ind, unit);
    write_service_head(out, s, ind, inner.as_str());
    let ghost lt = name_lt::<Method>();
    let refs = refs_of(&s.method);
    let ghost refs_view = refs@;
    let methods = sort_with(
        refs,
        &(|a: &&Method, b: &&Method| -> (c: bool)
            ensures
                c == method_before_spec(*a, *b),
            { method_before(*a, *b) }),
        Ghost(|a: &Method, b: &Method| lt(*a, *b)),
    );
    let ghost sorted = stable_sort(s.method@, lt);
    proof {
        lemma_sort_derefs(refs_view, lt);
    }
    let ghost f = |q: int| method_text(sorted[q], inner@, unit as nat);
    let ghost mid = out@;
    let mut i: usize = 0;
    assert(Seq::new(0, f) =~= Seq::<Seq<char>>::empty());
    while i < methods.len()
        invariant
            i <= methods@.len(),
            derefs(methods@) == sorted,
            f == (|q: int| method_text(sorted[q], inner@, unit as nat)),
            out@ == mid + concat(Seq::new(i as nat, f)),
        decreases methods@.len() - i,
    {
        write_method(out, methods[i], inner.as_str(), unit);
        proof {
            let t = Seq::new((i + 1) as nat, f);
            assert(t.drop_last() =~= Seq::new(i as nat, f));
            assert(*methods@[i as int] == sorted[i as int]);
        }
        i = i + 1;
    }
    assert(Seq::new(i as nat, f) =~= Seq::new(sorted.len(), f));
    push_close(out, ind);
    assert(out@ =~= start + service_text(*s, ind@, unit as nat));
}


/// Whether some entry of `idxs` equals `i`.
fn is_marked(idxs: &Vec<i32>, i: usize) -> (r: bool)
    ensures
        r == exists|j: int| 0 <= j < idxs@.len() && idxs@[j] == i as int,
{
    let mut j: usize = 0;
    while j < idxs.len()
        invariant
            j <= idxs@.len(),
            forall|q: int| 0 <= q < j ==> idxs@[q] != i as int,
        decreases idxs@.len() - j,
    {
        if idxs[j] >= 0 && idxs[j] as usize == i {
            return true;
        }
        j = j + 1;
    }
    false
}

fn import_rank_of(file: &FileDescriptor, i: usize) -> (r: u8)
    ensures
        r as int == import_rank(*file, i as int),
{
    if is_marked(&file.public_dependency, i) {
        1
    } else if is_marked(&file.weak_dependency, i) {
        2
    } else {
        0
    }
}

spec fn import_before_spec(file: FileDescriptor, a: &usize, b: &usize) -> bool {
    import_lt(file)(*a, *b)
}

fn import_before(file: &FileDescriptor, a: usize, b: usize) -> (c: bool)
    ensures
        c == import_lt(*file)(a, b),
{
    let n = file.dependency.len();
    if a >= n || b >= n {
        return false;
    }
    let ra = import_rank_of(file, a);
    let rb = import_rank_of(file, b);
    ra < rb || (ra == rb && str_lt(file.dependency[a].as_str(), file.dependency[b].as_str()))
}

fn write_import_line(out: &mut String, file: &FileDescriptor, i: usize)
    requires
        i < old(out)@.len() + file.dependency@.len(),
        i < file.dependency@.len(),
    ensures
        final(out)@ == old(out)@ + import_line(*file, i as int),
{
    let path = file.dependency[i].as_str();
    if is_marked(&file.public_dependency, i) {
        push_str(out, "import public \"");
    } else if is_marked(&file.weak_dependency, i) {
        push_str(out, "import weak \"");
    } else {
        push_str(out, "import \"");
    }
    push_str(out, path);
    push_str(out, "\";");
    push_char(out, '\n');
    assert(final(out)@ =~= old(out)@ + import_line(*file, i as int));
}

fn write_imports(out: &mut String, file: &FileDescriptor)
    ensures
        final(out)@ == old(out)@ + imports_text(*file),
{
    if file.dependency.len() == 0 && file.public_dependency.len() == 0 && file.weak_dependency.len() == 0 {
        assert(final(out)@ =~= old(out)@ + imports_text(*file));
        return;
    }
    let ghost start = out@;
    let n = file.dependency.len();
    let mut idx: Vec<usize> = Vec::new();
    let mut i: usize = 0;
    while i < n
        invariant
            i <= n,
            n == file.dependency@.len(),
            idx@ =~= Seq::new(i as nat, |q: int| q as usize),
        decreases n - i,
    {
        idx.push(i);
        i = i + 1;
    }
    let ghost lt = import_lt(*file);
    let order = sort_with(
        idx,
        &(|a: &usize, b: &usize| -> (c: bool)
            ensures
                c == import_before_spec(*file, a, b),
            { import_before(file, *a, *b) }),
        Ghost(lt),
    );
    assert(order@ == import_order(*file));
    assert forall|q: int| 0 <= q < order@.len() implies order@[q] < n by {
        let s0 = Seq::new(n as nat, |q: int| q as usize);
        lemma_sort_contains(s0, lt, q);
        let j = choose|j: int| 0 <= j < s0.len() && s0[j] == order@[q];
    }
    let ghost f = |k: int| import_line(*file, order@[k] as int);
    let mut k: usize = 0;
    assert(Seq::new(0, f) =~= Seq::<Seq<char>>::empty());
    while k < order.len()
        invariant
            k <= order@.len(),
            n == file.dependency@.len(),
            order@ == import_order(*file),
            forall|q: int| 0 <= q < order@.len() ==> order@[q] < n,
            f == (|k: int| import_line(*file, order@[k] as int)),
            out@ == start + concat(Seq::new(k as nat, f)),
        decreases order@.len() - k,
    {
        write_import_line(out, file, order[k]);
        proof {
            let t = Seq::new((k + 1) as nat, f);
            assert(t.drop_last() =~= Seq::new(k as nat, f));
        }
        k = k + 1;
    }
    assert(Seq::new(k as nat, f) =~= Seq::new(order@.len(), f));
    push_char(out, '\n');
    assert(out@ =~= start + imports_text(*file));
}


fn string_option_line(v: &Option<String>, name: &str) -> (r: Option<String>)
    ensures
        opt_line(opt_view(r)) == string_option(*v, name@),
{
    match v {
        Some(x) => {
            let mut s = String::new();
            push_str(&mut s, "option ");
            push_str(&mut s, name);
            push_str(&mut s, " = \"");
            push_escaped(&mut s, x.as_str());
            push_str(&mut s, "\";");
            assert(opt_line(opt_view(Some(s))) =~= string_option(*v, name@));
            Some(s)
        },
        None => None,
    }
}

fn bool_option_line(v: Option<bool>, name: &str) -> (r: Option<String>)
    ensures
        opt_line(opt_view(r)) == bool_option(v, name@),
{
    match v {
        Some(b) => {
            let mut s = String::new();
            push_str(&mut s, "option ");
            push_str(&mut s, name);
            push_str(&mut s, " = ");
            push_bool(&mut s, b);
            push_str(&mut s, ";");
            assert(opt_line(opt_view(Some(s))) =~= bool_option(v, name@));
            Some(s)
        },
        None => None,
    }
}

fn optimize_option_line(v: Option<OptimizeMode>) -> (r: Option<String>)
    ensures
        opt_line(opt_view(r)) == match v {
            Some(m) => seq!["option "@ + "optimize_for"@ + " = "@ + optimize_text(m) + ";"@],
            None => Seq::<Seq<char>>::empty(),
        },
{
    match v {
        Some(m) => {
            let mut s = String::new();
            push_str(&mut s, "option ");
            push_str(&mut s, "optimize_for");
            push_str(&mut s, " = ");
            match m {
                OptimizeMode::Speed => push_str(&mut s, "SPEED"),
                OptimizeMode::CodeSize => push_str(&mut s, "CODE_SIZE"),
                OptimizeMode::LiteRuntime => push_str(&mut s, "LITE_RUNTIME"),
            }
            push_str(&mut s, ";");
            assert(s@ =~= "option "@ + "optimize_for"@ + " = "@ + optimize_text(m) + ";"@);
            assert(opt_line(opt_view(Some(s))) =~= seq![s@]);
            Some(s)
        },
        None => None,
    }
}

/// The recognised file option lines, before sorting.
fn file_option_list(o: &FileOptions) -> (r: Vec<String>)
    ensures
        views(r@) == file_option_lines(*o),
{
    let mut ls: Vec<String> = Vec::new();
    push_opt(&mut ls, string_option_line(&o.java_package, "java_package"));
    push_opt(&mut ls, string_option_line(&o.java_outer_classname, "java_outer_classname"));
    push_opt(&mut ls, bool_option_line(o.java_multiple_files, "java_multiple_files"));
    push_opt(&mut ls, bool_option_line(o.java_string_check_utf8, "java_string_check_utf8"));
    push_opt(&mut ls, string_option_line(&o.go_package, "go_package"));
    push_opt(&mut ls, optimize_option_line(o.optimize_for));
    push_opt(&mut ls, bool_option_line(o.cc_enable_arenas, "cc_enable_arenas"));
    push_opt(&mut ls, bool_option_line(o.cc_generic_services, "cc_generic_services"));
    push_opt(&mut ls, bool_option_line(o.java_generic_services, "java_generic_services"));
    push_opt(&mut ls, bool_option_line(o.py_generic_services, "py_generic_services"));
    push_opt(&mut ls, string_option_line(&o.objc_class_prefix, "objc_class_prefix"));
    push_opt(&mut ls, string_option_line(&o.csharp_namespace, "csharp_namespace"));
    push_opt(&mut ls, string_option_line(&o.swift_prefix, "swift_prefix"));
    push_opt(&mut ls, string_option_line(&o.php_class_prefix, "php_class_prefix"));
    push_opt(&mut ls, string_option_line(&o.php_namespace, "php_namespace"));
    push_opt(&mut ls, string_option_line(&o.php_metadata_namespace, "php_metadata_namespace"));
    push_opt(&mut ls, string_option_line(&o.ruby_package, "ruby_package"));
    assert(views(ls@) =~= file_option_lines(*o));
    ls
}

spec fn line_before_spec(a: &String, b: &String) -> bool {
    seq_lt()(a@, b@)
}

fn line_before(a: &String, b: &String) -> (c: bool)
    ensures
        c == line_before_spec(a, b),
{
    str_lt(a.as_str(), b.as_str())
}

fn write_lines(out: &mut String, ls: &Vec<String>)
    ensures
        final(out)@ == old(out)@ + lines_text(views(ls@)),
{
    let ghost start = out@;
    let ghost v = views(ls@);
    let ghost f = |i: int| v[i] + nl();
    let mut i: usize = 0;
    assert(Seq::new(0, f) =~= Seq::<Seq<char>>::empty());
    while i < ls.len()
        invariant
            i <= ls@.len(),
            v == views(ls@),
            f == (|i: int| v[i] + nl()),
            out@ == start + concat(Seq::new(i as nat, f)),
        decreases ls@.len() - i,
    {
        let ghost before = out@;
        push_str(out, ls[i].as_str());
        push_char(out, '\n');
        proof {
            let t = Seq::new((i + 1) as nat, f);
            assert(t.drop_last() =~= Seq::new(i as nat, f));
            assert(out@ =~= before + f(i as int));
        }
        i = i + 1;
    }
    assert(Seq::new(i as nat, f) =~= Seq::new(v.len(), f));
}

fn write_file_options(out: &mut String, file: &FileDescriptor)
    ensures
        final(out)@ == old(out)@ + file_options_text(*file),
{
    match &file.options {
        Some(o) => {
            let ls = file_option_list(o);
            let ghost raw = ls@;
            let ghost lt = |a: String, b: String| seq_lt()(a@, b@);
            let sorted = sort_with(
                ls,
                &(|a: &String, b: &String| -> (c: bool)
                    ensures
                        c == line_before_spec(a, b),
                    { line_before(a, b) }),
                Ghost(lt),
            );
            proof {
                let f = |x: String| x@;
                lemma_sort_map(raw, f, lt, seq_lt());
                assert(views(raw) =~= raw.map_values(f));
                assert(views(sorted@) =~= sorted@.map_values(f));
            }
            write_lines(out, &sorted);
            if sorted.len() > 0 {
                push_char(out, '\n');
            }
            assert(final(out)@ =~= old(out)@ + file_options_text(*file));
        },
        None => {
            assert(final(out)@ =~= old(out)@ + file_options_text(*file));
        },
    }
}


fn empty_str() -> (r: &'static str)
    ensures
        r@ == Seq::<char>::empty(),
{
    proof {
        reveal_strlit("");
    }
    ""
}

fn spaces_string(n: usize) -> (r: String)
    ensures
        r@ == spaces(n as nat),
{
    let mut r = String::new();
    push_spaces(&mut r, n);
    assert(r@ =~= spaces(n as nat));
    r
}

fn extendee_of(f: &Field) -> (r: &str)
    ensures
        r@ == extendee_key(*f),
{
    match &f.extendee {
        Some(e) => e.as_str(),
        None => empty_str(),
    }
}

spec fn extension_before_spec(a: &Field, b: &Field) -> bool {
    extension_lt()(*a, *b)
}

fn extension_before(a: &Field, b: &Field) -> (c: bool)
    ensures
        c == extension_before_spec(a, b),
{
    let ka = extendee_of(a);
    let kb = extendee_of(b);
    str_lt(ka, kb) || (str_eq(ka, kb) && a.number < b.number)
}

#[verifier::spinoff_prover]
#[verifier::rlimit(60)]
fn write_extension_piece(
    out: &mut String,
    fs: &Vec<&Field>,
    i: usize,
    no_ctx: &Vec<Message>,
    proto2: bool,
    file: &FileDescriptor,
    ind: &str,
    unit: usize,
)
    requires
        i < fs@.len(),
        no_ctx@ == Seq::<Message>::empty(),
        ind@ == spaces(unit as nat),
    ensures
        final(out)@ == old(out)@ + extension_piece(derefs(fs@), i as int, proto2, *file, unit as nat),
{
    let ghost start = out@;
    let ghost s = derefs(fs@);
    let f = fs[i];
    let key = extendee_of(f);
    if i == 0 || !str_eq(extendee_of(fs[i - 1]), key) {
        push_str(out, "extend ");
        push_type_name(out, key);
        push_str(out, " {");
        push_char(out, '\n');
    }
    write_field(out, f, no_ctx, proto2, false, file, ind, unit);
    if i == fs.len() - 1 || !str_eq(extendee_of(fs[i + 1]), key) {
        push_str(out, "}");
        push_char(out, '\n');
    }
    assert(out@ =~= start + extension_piece(s, i as int, proto2, *file, unit as nat));
}

fn write_extensions(out: &mut String, file: &FileDescriptor, proto2: bool, unit: usize)
    ensures
        final(out)@ == old(out)@ + extensions_text(*file, proto2, unit as nat),
{
    let ghost start = out@;
    let ghost lt = extension_lt();
    let refs = refs_of(&file.extension);
    let ghost refs_view = refs@;
    let sorted = sort_with(
        refs,
        &(|a: &&Field, b: &&Field| -> (c: bool)
            ensures
                c == extension_before_spec(*a, *b),
            { extension_before(*a, *b) }),
        Ghost(|a: &Field, b: &Field| lt(*a, *b)),
    );
    proof {
        lemma_sort_derefs(refs_view, lt);
    }
    let ghost s = derefs(sorted@);
    let ghost f = |i: int| extension_piece(s, i, proto2, *file, unit as nat);
    let ind = spaces_string(unit);
    let no_ctx: Vec<Message> = Vec::new();
    let mut i: usize = 0;
    assert(Seq::new(0, f) =~= Seq::<Seq<char>>::empty());
    while i < sorted.len()
        invariant
            i <= sorted@.len(),
            s == derefs(sorted@),
            no_ctx@ == Seq::<Message>::empty(),
            ind@ == spaces(unit as nat),
            f == (|i: int| extension_piece(s, i, proto2, *file, unit as nat)),
            out@ == start + concat(Seq::new(i as nat, f)),
        decreases sorted@.len() - i,
    {
        write_extension_piece(out, &sorted, i, &no_ctx, proto2, file, ind.as_str(), unit);
        proof {
            let t = Seq::new((i + 1) as nat, f);
            assert(t.drop_last() =~= Seq::new(i as nat, f));
        }
        i = i + 1;
    }
    assert(Seq::new(i as nat, f) =~= Seq::new(s.len(), f));
}

pub(crate) fn syntax_str(file: &FileDescriptor) -> (r: &str)
    ensures
        r@ == syntax_of(*file),
{
    match &file.syntax {
        Some(s) => s.as_str(),
        None => "proto2",
    }
}

fn write_header(out: &mut String, file: &FileDescriptor)
    ensures
        final(out)@ == old(out)@ + header_text(*file),
{
    let syn = syntax_str(file);
    push_str(out, "syntax = \"");
    push_str(out, syn);
    push_str(out, "\";");
    push_char(out, '\n');
    push_char(out, '\n');
    match &file.package {
        Some(p) => if p.as_str().unicode_len() > 0 {
            push_str(out, "package ");
            push_str(out, p.as_str());
            push_str(out, ";");
            push_char(out, '\n');
            push_char(out, '\n');
        },
        None => {},
    }
    assert(final(out)@ =~= old(out)@ + header_text(*file));
}

spec fn named_before_spec<T: Named>(a: &T, b: &T) -> bool {
    name_lt::<T>()(*a, *b)
}

fn named_before<T: Named>(a: &T, b: &T) -> (c: bool)
    ensures
        c == named_before_spec(a, b),
{
    str_lt(a.name_str(), b.name_str())
}

/// References to the items of `v`, by ascending name when `sort` is set.
fn order_by_name<T: Named>(v: &Vec<T>, sort: bool) -> (r: Vec<&T>)
    ensures
        derefs(r@) == if sort { stable_sort(v@, name_lt::<T>()) } else { v@ },
{
    let refs = refs_of(v);
    if !sort {
        return refs;
    }
    let ghost lt = name_lt::<T>();
    let ghost refs_view = refs@;
    let sorted = sort_with(
        refs,
        &(|a: &&T, b: &&T| -> (c: bool)
            ensures
                c == named_before_spec(*a, *b),
            { named_before(*a, *b) }),
        Ghost(|a: &T, b: &T| lt(*a, *b)),
    );
    proof {
        lemma_sort_derefs(refs_view, lt);
    }
    sorted
}

#[verifier::spinoff_prover]
#[verifier::rlimit(60)]
fn write_top_messages(out: &mut String, ms: &Vec<&Message>, proto2: bool, file: &FileDescriptor, unit: usize)
    ensures
        final(out)@ == old(out)@ + concat(
            Seq::new(ms@.len(), |i: int| message_text(derefs(ms@)[i], proto2, *file, Seq::empty(), unit as nat) + nl()),
        ),
{
    let ghost start = out@;
    let ghost v = derefs(ms@);
    let ghost f = |i: int| message_text(v[i], proto2, *file, Seq::empty(), unit as nat) + nl();
    let ind = empty_str();
    let mut i: usize = 0;
    assert(Seq::new(0, f) =~= Seq::<Seq<char>>::empty());
    while i < ms.len()
        invariant
            i <= ms@.len(),
            v == derefs(ms@),
            ind@ == Seq::<char>::empty(),
            f == (|i: int| message_text(v[i], proto2, *file, Seq::empty(), unit as nat) + nl()),
            out@ == start + concat(Seq::new(i as nat, f)),
        decreases ms@.len() - i,
    {
        let ghost before = out@;
        write_message(out, ms[i], proto2, file, ind, unit);
        push_char(out, '\n');
        proof {
            let t = Seq::new((i + 1) as nat, f);
            assert(t.drop_last() =~= Seq::new(i as nat, f));
            assert(out@ =~= before + f(i as int));
        }
        i = i + 1;
    }
    assert(Seq::new(i as nat, f) =~= Seq::new(ms@.len(), f));
}

fn write_top_enums(out: &mut String, es: &Vec<&EnumType>, unit: usize)
    ensures
        final(out)@ == old(out)@ + concat(
            Seq::new(es@.len(), |i: int| enum_text(derefs(es@)[i], Seq::empty(), unit as nat) + nl()),
        ),
{
    let ghost start = out@;
    let ghost v = derefs(es@);
    let ghost f = |i: int| enum_text(v[i], Seq::empty(), unit as nat) + nl();
    let ind = empty_str();
    let mut i: usize = 0;
    assert(Seq::new(0, f) =~= Seq::<Seq<char>>::empty());
    while i < es.len()
        invariant
            i <= es@.len(),
            v == derefs(es@),
            ind@ == Seq::<char>::empty(),
            f == (|i: int| enum_text(v[i], Seq::empty(), unit as nat) + nl()),
            out@ == start + concat(Seq::new(i as nat, f)),
        decreases es@.len() - i,
    {
        let ghost before = out@;
        write_enum(out, es[i], ind, unit);
        push_char(out, '\n');
        proof {
            let t = Seq::new((i + 1) as nat, f);
            assert(t.drop_last() =~= Seq::new(i as nat, f));
            assert(out@ =~= before + f(i as int));
        }
        i = i + 1;
    }
    assert(Seq::new(i as nat, f) =~= Seq::new(es@.len(), f));
}

fn write_top_services(out: &mut String, ss: &Vec<&Service>, unit: usize)
    ensures
        final(out)@ == old(out)@ + concat(
            Seq::new(ss@.len(), |i: int| service_text(derefs(ss@)[i], Seq::empty(), unit as nat) + nl()),
        ),
{
    let ghost start = out@;
    let ghost v = derefs(ss@);
    let ghost f = |i: int| service_text(v[i], Seq::empty(), unit as nat) + nl();
    let ind = empty_str();
    let mut i: usize = 0;
    assert(Seq::new(0, f) =~= Seq::<Seq<char>>::empty());
    while i < ss.len()
        invariant
            i <= ss@.len(),
            v == derefs(ss@),
            ind@ == Seq::<char>::empty(),
            f == (|i: int| service_text(v[i], Seq::empty(), unit as nat) + nl()),
            out@ == start + concat(Seq::new(i as nat, f)),
        decreases ss@.len() - i,
    {
        let ghost before = out@;
        write_service(out, ss[i], ind, unit);
        push_char(out, '\n');
        proof {
            let t = Seq::new((i + 1) as nat, f);
            assert(t.drop_last() =~= Seq::new(i as nat, f));
            assert(out@ =~= before + f(i as int));
        }
        i = i + 1;
    }
    assert(Seq::new(i as nat, f) =~= Seq::new(ss@.len(), f));
}

/// The canonical text of `file` under the options `o`.
pub fn render_file(file: &FileDescriptor, o: TextGeneratorOptions) -> (r: String)
    ensures
        r@ == file_text(*file, o),
{
    let mut out = String::new();
    let unit = o.indent_size;
    let proto2 = str_eq(syntax_str(file), "proto2");
    write_header(&mut out, file);
    write_imports(&mut out, file);
    write_file_options(&mut out, file);
    let ms = order_by_name(&file.message_type, o.sort_messages);
    write_top_messages(&mut out, &ms, proto2, file, unit);
    let es = order_by_name(&file.enum_type, o.sort_enums);
    write_top_enums(&mut out, &es, unit);
    let ss = order_by_name(&file.service, o.sort_services);
    write_top_services(&mut out, &ss, unit);
    write_extensions(&mut out, file, proto2, unit);
    assert(out@ =~= file_text(*file, o));
    out
}

/// Renders descriptors as canonical schema text.
pub struct TextGenerator {
    options: TextGeneratorOptions,
    output: String,
}

impl TextGenerator {
    /// The options this generator renders with.
    pub closed spec fn spec_options(&self) -> TextGeneratorOptions {
        self.options
    }

    /// A generator with the given options.
    pub fn new(options: TextGeneratorOptions) -> (r: Self)
        ensures
            r.spec_options() == options,
    {
        TextGenerator { options, output: String::new() }
    }

    /// A generator with the default options.
    pub fn with_default() -> (r: Self)
        ensures
            r.spec_options().indent_size == 2,
            r.spec_options().sort_messages,
            r.spec_options().sort_enums,
            r.spec_options().sort_services,
    {
        Self::new(TextGeneratorOptions::default())
    }

    /// The canonical text of `file`.
    pub fn format_file(&mut self, file: &FileDescriptor) -> (r: String)
        ensures
            r@ == file_text(*file, old(self).spec_options()),
            final(self).spec_options() == old(self).spec_options(),
    {
        let text = render_file(file, self.options);
        self.output = text.clone();
        text
    }
}

/// The canonical text of `file` with the default options.
pub fn descriptor_to_proto(file: &FileDescriptor) -> (r: String)
    ensures
        r@ == file_text(*file, default_options()),
{
    let mut g = TextGenerator::with_default();
    g.format_file(file)
}

/// The default generator options: two-space indentation, everything sorted.
pub open spec fn default_options() -> TextGeneratorOptions {
    TextGeneratorOptions { indent_size: 2, sort_messages: true, sort_enums: true, sort_services: true }
}

} // verus!
