//! Properties of the canonical text and of merging, proved over the spec
//! functions that the executable code is verified against.
use vstd::prelude::*;
use crate::canonical::{
    default_option, enum_default_text, field_number_lt, half_open_text, inclusive_text, is_map_entry, message_text,
    name_lt, nested_text, group_owned, parse_i32, resolve_enum_value, value_number_lt, Named, MAX_FIELD_NUMBER,
};
use crate::descriptor::{EnumValue, Field, FieldType, FileDescriptor, Message, NumberRange};
use crate::canonical::syntax_of;
use crate::merge::{
    all_extensions, merged_extension_lt, all_enums, all_messages, all_services, file_marks, flat, has_text, imports_path, marked, merged_from, merges, names_distinct,
    same_syntax,
};
use crate::text::views;
use crate::text_gen::opt_view;
use crate::order::{insert_sorted, lemma_sort_multiset, stable_sort};
use crate::text::{int_text, lemma_text_lt_irreflexive, lemma_text_lt_total, lemma_text_lt_transitive, text_lt};

verus! {

broadcast use vstd::seq_lib::to_multiset_contains, vstd::seq_lib::to_multiset_remove, vstd::seq_lib::to_multiset_len;

/// Items never out of order: no later item comes strictly before an
/// earlier one.
pub open spec fn sorted_by<T>(s: Seq<T>, lt: spec_fn(T, T) -> bool) -> bool {
    forall|i: int, j: int| 0 <= i < j < s.len() ==> !lt(#[trigger] s[j], #[trigger] s[i])
}

/// A strict order: irreflexive and transitive.
pub open spec fn strict_order<T>(lt: spec_fn(T, T) -> bool) -> bool {
    &&& forall|a: T| !#[trigger] lt(a, a)
    &&& forall|a: T, b: T, c: T| #[trigger] lt(a, b) && #[trigger] lt(b, c) ==> lt(a, c)
}

proof fn lemma_insert_keeps_sorted<T>(s: Seq<T>, x: T, lt: spec_fn(T, T) -> bool)
    requires
        strict_order(lt),
        sorted_by(s, lt),
    ensures
        sorted_by(insert_sorted(s, x, lt), lt),
    decreases s.len(),
{
    let r = insert_sorted(s, x, lt);
    if s.len() == 0 {
    } else if lt(x, s[0]) {
        assert forall|i: int, j: int| 0 <= i < j < r.len() implies !lt(#[trigger] r[j], #[trigger] r[i]) by {
            if i == 0 {
                if j == 1 {
                    if lt(s[0], x) {
                        assert(lt(x, x));
                    }
                } else {
                    if lt(s[j - 1], x) {
                        assert(lt(s[j - 1], s[0]));
                    }
                }
            } else {
                assert(r[i] == s[i - 1] && r[j] == s[j - 1]);
            }
        }
    } else {
        let rest = s.drop_first();
        assert(sorted_by(rest, lt)) by {
            assert forall|i: int, j: int| 0 <= i < j < rest.len() implies !lt(#[trigger] rest[j], #[trigger] rest[i]) by {
                assert(rest[i] == s[i + 1] && rest[j] == s[j + 1]);
            }
        }
        lemma_insert_keeps_sorted(rest, x, lt);
        let t = insert_sorted(rest, x, lt);
        crate::order::lemma_insert_sorted_multiset(rest, x, lt);
        assert forall|i: int, j: int| 0 <= i < j < r.len() implies !lt(#[trigger] r[j], #[trigger] r[i]) by {
            if i == 0 {
                let y = t[j - 1];
                assert(r[j] == y);
                assert(t.contains(y));
                assert(t.to_multiset().count(y) > 0);
                if y != x {
                    assert(rest.to_multiset().count(y) > 0);
                    assert(rest.contains(y));
                    let k = choose|k: int| 0 <= k < rest.len() && rest[k] == y;
                    assert(s[k + 1] == y);
                }
            } else {
                assert(r[i] == t[i - 1] && r[j] == t[j - 1]);
            }
        }
    }
}

/// Sorting by a strict order leaves no item out of order.
pub proof fn lemma_sort_sorted<T>(s: Seq<T>, lt: spec_fn(T, T) -> bool)
    requires
        strict_order(lt),
    ensures
        sorted_by(stable_sort(s, lt), lt),
    decreases s.len(),
{
    if s.len() > 0 {
        lemma_sort_sorted(s.drop_last(), lt);
        lemma_insert_keeps_sorted(stable_sort(s.drop_last(), lt), s.last(), lt);
    }
}

/// Name order is a strict order.
pub proof fn lemma_name_order<T: Named>()
    ensures
        strict_order(name_lt::<T>()),
{
    let lt = name_lt::<T>();
    assert forall|a: T| !#[trigger] lt(a, a) by {
        lemma_text_lt_irreflexive(a.name_view());
    }
    assert forall|a: T, b: T, c: T| #[trigger] lt(a, b) && #[trigger] lt(b, c) implies lt(a, c) by {
        lemma_text_lt_transitive(a.name_view(), b.name_view(), c.name_view());
    }
}

/// Sorted by name: names ascend, equal names allowed.
pub proof fn lemma_names_ascend<T: Named>(s: Seq<T>)
    ensures
        forall|i: int, j: int|
            0 <= i < j < stable_sort(s, name_lt::<T>()).len() ==> !text_lt(
                #[trigger] stable_sort(s, name_lt::<T>())[j].name_view(),
                #[trigger] stable_sort(s, name_lt::<T>())[i].name_view(),
            ),
{
    lemma_name_order::<T>();
    lemma_sort_sorted(s, name_lt::<T>());
    let r = stable_sort(s, name_lt::<T>());
    assert forall|i: int, j: int| 0 <= i < j < r.len() implies !text_lt(#[trigger] r[j].name_view(), #[trigger] r[i].name_view()) by {
        assert(!name_lt::<T>()(r[j], r[i]));
    }
}

/// Fields sorted by number have ascending numbers.
pub proof fn lemma_field_numbers_ascend(fs: Seq<Field>)
    ensures
        forall|i: int, j: int|
            0 <= i < j < stable_sort(fs, field_number_lt()).len() ==> (#[trigger] stable_sort(fs, field_number_lt())[i]).number
                <= (#[trigger] stable_sort(fs, field_number_lt())[j]).number,
{
    let lt = field_number_lt();
    assert(strict_order(lt));
    lemma_sort_sorted(fs, lt);
    let r = stable_sort(fs, lt);
    assert forall|i: int, j: int| 0 <= i < j < r.len() implies (#[trigger] r[i]).number <= (#[trigger] r[j]).number by {
        assert(!lt(r[j], r[i]));
    }
}

/// Enum values sorted by number have ascending numbers.
pub proof fn lemma_value_numbers_ascend(vs: Seq<EnumValue>)
    ensures
        forall|i: int, j: int|
            0 <= i < j < stable_sort(vs, value_number_lt()).len() ==> (#[trigger] stable_sort(vs, value_number_lt())[i]).number
                <= (#[trigger] stable_sort(vs, value_number_lt())[j]).number,
{
    let lt = value_number_lt();
    assert(strict_order(lt));
    lemma_sort_sorted(vs, lt);
    let r = stable_sort(vs, lt);
    assert forall|i: int, j: int| 0 <= i < j < r.len() implies (#[trigger] r[i]).number <= (#[trigger] r[j]).number by {
        assert(!lt(r[j], r[i]));
    }
}

/// A synthetic map entry message renders as nothing.
pub proof fn lemma_map_entry_hidden(m: Message, proto2: bool, file: FileDescriptor, ind: Seq<char>, unit: nat)
    requires
        is_map_entry(m),
    ensures
        message_text(m, proto2, file, ind, unit) == Seq::<char>::empty(),
{
}

/// Nested messages that a group field stands for render as nothing: the
/// nested block is that of the other nested messages alone.
pub proof fn lemma_group_messages_hidden(
    ms: Seq<Message>,
    owner: Seq<Field>,
    proto2: bool,
    file: FileDescriptor,
    ind: Seq<char>,
    unit: nat,
)
    ensures
        nested_text(ms, owner, proto2, file, ind, unit) == nested_text(
            ms.filter(|m: Message| !group_owned(owner, m.name@)),
            owner,
            proto2,
            file,
            ind,
            unit,
        ),
    decreases ms.len(),
{
    let p = |m: Message| !group_owned(owner, m.name@);
    if ms.len() > 0 {
        lemma_group_messages_hidden(ms.drop_last(), owner, proto2, file, ind, unit);
        assert(ms =~= ms.drop_last().push(ms.last()));
        ms.drop_last().lemma_filter_push(ms.last(), p);
        let f = ms.drop_last().filter(p);
        if p(ms.last()) {
            assert(f.push(ms.last()).drop_last() =~= f);
        }
    } else {
        reveal(Seq::filter);
    }
}

/// A message reserved range `[start, end)` prints as `start` when it holds
/// one number, else as `start to end-1`, with `max` for the largest number.
pub proof fn lemma_message_reserved_range(r: NumberRange)
    requires
        r.start < r.end,
    ensures
        r.end == r.start + 1 ==> half_open_text(r) == int_text(r.start as int),
        r.end > r.start + 1 && r.end - 1 == MAX_FIELD_NUMBER ==> half_open_text(r) == int_text(r.start as int) + " to max"@,
        r.end > r.start + 1 && r.end - 1 != MAX_FIELD_NUMBER ==> half_open_text(r) == int_text(r.start as int) + " to "@
            + int_text(r.end - 1),
{
}

/// An enum reserved range `[start, end]` prints as `start` when it holds
/// one number, else as `start to end`, with `max` for the largest number.
pub proof fn lemma_enum_reserved_range(r: NumberRange)
    requires
        r.start <= r.end,
    ensures
        r.end == r.start ==> inclusive_text(r) == int_text(r.start as int),
        r.end > r.start && r.end == MAX_FIELD_NUMBER ==> inclusive_text(r) == int_text(r.start as int) + " to max"@,
        r.end > r.start && r.end != MAX_FIELD_NUMBER ==> inclusive_text(r) == int_text(r.start as int) + " to "@
            + int_text(r.end as int),
{
}

/// A numeric enum default that resolves is printed as the symbol.
pub proof fn lemma_enum_default_symbol(f: Field, file: FileDescriptor, symbol: Seq<char>)
    requires
        f.field_type == Some(FieldType::TypeEnum),
        f.default_value is Some,
        f.type_ref is Some,
        parse_i32(f.default_value->0@) is Some,
        resolve_enum_value(file, f.type_ref->0@, parse_i32(f.default_value->0@)->0) == Some(symbol),
    ensures
        default_option(f, file) == Some("default = "@ + symbol),
{
}


proof fn lemma_count_two<T>(s: Seq<T>, v: T) -> (r: (int, int))
    requires
        s.to_multiset().count(v) >= 2,
    ensures
        0 <= r.0 < s.len(),
        0 <= r.1 < s.len(),
        r.0 != r.1,
        s[r.0] == v,
        s[r.1] == v,
{
    assert(s.contains(v));
    let i = choose|i: int| 0 <= i < s.len() && s[i] == v;
    let t = s.remove(i);
    assert(t.to_multiset() == s.to_multiset().remove(v));
    assert(t.to_multiset().count(v) > 0);
    assert(t.contains(v));
    let k = choose|k: int| 0 <= k < t.len() && t[k] == v;
    if k < i {
        (i, k)
    } else {
        (i, k + 1)
    }
}

proof fn lemma_distinct_permuted<T: Named>(a: Seq<T>, s: Seq<T>)
    requires
        names_distinct(a),
        a.to_multiset() == s.to_multiset(),
    ensures
        names_distinct(s),
{
    assert forall|i: int, j: int| 0 <= i < j < s.len() implies #[trigger] s[i].name_view() != #[trigger] s[j].name_view() by {
        if s[i].name_view() == s[j].name_view() {
            if s[i] == s[j] {
                let t = s.remove(i);
                assert(t[j - 1] == s[j]);
                assert(t.contains(s[j]));
                assert(t.to_multiset().count(s[j]) > 0);
                assert(t.to_multiset() == s.to_multiset().remove(s[i]));
                assert(s.to_multiset().count(s[i]) >= 2);
                let (p, q) = lemma_count_two(a, s[i]);
                if p < q {
                    assert(a[p].name_view() != a[q].name_view());
                } else {
                    assert(a[q].name_view() != a[p].name_view());
                }
            } else {
                assert(s.contains(s[i]));
                assert(s.contains(s[j]));
                assert(a.to_multiset().count(s[i]) > 0);
                assert(a.to_multiset().count(s[j]) > 0);
                let p = choose|p: int| 0 <= p < a.len() && a[p] == s[i];
                let q = choose|q: int| 0 <= q < a.len() && a[q] == s[j];
                if p < q {
                    assert(a[p].name_view() != a[q].name_view());
                } else {
                    assert(a[q].name_view() != a[p].name_view());
                }
            }
        }
    }
}

proof fn lemma_sorted_unique<T: Named>(x: Seq<T>, y: Seq<T>)
    requires
        crate::merge::strictly_sorted(x),
        crate::merge::strictly_sorted(y),
        x.to_multiset() == y.to_multiset(),
    ensures
        x == y,
    decreases x.len(),
{
    assert(x.len() == x.to_multiset().len());
    assert(y.len() == y.to_multiset().len());
    if x.len() > 0 {
        assert(x.contains(x[0]));
        assert(y.to_multiset().count(x[0]) > 0);
        assert(y.contains(x[0]));
        let k = choose|k: int| 0 <= k < y.len() && y[k] == x[0];
        assert(x.to_multiset().count(y[0]) > 0);
        assert(x.contains(y[0]));
        let m = choose|m: int| 0 <= m < x.len() && x[m] == y[0];
        if k > 0 {
            assert(text_lt(y[0].name_view(), y[k].name_view()));
            if m > 0 {
                assert(text_lt(x[0].name_view(), x[m].name_view()));
                lemma_text_lt_transitive(x[0].name_view(), y[0].name_view(), x[0].name_view());
                lemma_text_lt_irreflexive(x[0].name_view());
            } else {
                lemma_text_lt_irreflexive(y[0].name_view());
            }
        }
        assert(x[0] == y[0]);
        let xr = x.drop_first();
        let yr = y.drop_first();
        assert(x.remove(0) =~= xr);
        assert(y.remove(0) =~= yr);
        assert(xr.to_multiset() == yr.to_multiset());
        assert(crate::merge::strictly_sorted(xr)) by {
            assert forall|i: int, j: int| 0 <= i < j < xr.len() implies text_lt(#[trigger] xr[i].name_view(), #[trigger] xr[j].name_view()) by {
                assert(xr[i] == x[i + 1] && xr[j] == x[j + 1]);
            }
        }
        assert(crate::merge::strictly_sorted(yr)) by {
            assert forall|i: int, j: int| 0 <= i < j < yr.len() implies text_lt(#[trigger] yr[i].name_view(), #[trigger] yr[j].name_view()) by {
                assert(yr[i] == y[i + 1] && yr[j] == y[j + 1]);
            }
        }
        lemma_sorted_unique(xr, yr);
        assert forall|i: int| 0 <= i < x.len() implies x[i] == y[i] by {
            if i > 0 {
                assert(x[i] == xr[i - 1]);
                assert(y[i] == yr[i - 1]);
            }
        }
        assert(x =~= y);
    } else {
        assert(x =~= y);
    }
}

proof fn lemma_sorted_strict<T: Named>(s: Seq<T>)
    requires
        names_distinct(s),
    ensures
        crate::merge::strictly_sorted(stable_sort(s, name_lt::<T>())),
{
    let r = stable_sort(s, name_lt::<T>());
    lemma_sort_multiset(s, name_lt::<T>());
    lemma_distinct_permuted(s, r);
    lemma_names_ascend(s);
    assert forall|i: int, j: int| 0 <= i < j < r.len() implies text_lt(#[trigger] r[i].name_view(), #[trigger] r[j].name_view()) by {
        assert(r[i].name_view() != r[j].name_view());
        lemma_text_lt_total(r[i].name_view(), r[j].name_view());
    }
}

/// Order independence: two sequences that hold the same definitions (as a
/// multiset), no two sharing a name, sort by name to the same sequence.
pub proof fn lemma_sort_order_independent<T: Named>(a: Seq<T>, b: Seq<T>)
    requires
        a.to_multiset() == b.to_multiset(),
        names_distinct(a),
    ensures
        stable_sort(a, name_lt::<T>()) == stable_sort(b, name_lt::<T>()),
{
    lemma_distinct_permuted(a, b);
    lemma_sorted_strict(a);
    lemma_sorted_strict(b);
    lemma_sort_multiset(a, name_lt::<T>());
    lemma_sort_multiset(b, name_lt::<T>());
    lemma_sorted_unique(stable_sort(a, name_lt::<T>()), stable_sort(b, name_lt::<T>()));
}


proof fn lemma_map_permuted<A, B>(s1: Seq<A>, s2: Seq<A>, g: spec_fn(A) -> B)
    requires
        s1.to_multiset() == s2.to_multiset(),
    ensures
        s1.map_values(g).to_multiset() == s2.map_values(g).to_multiset(),
    decreases s1.len(),
{
    broadcast use vstd::seq_lib::to_multiset_build;

    assert(s1.len() == s1.to_multiset().len());
    assert(s2.len() == s2.to_multiset().len());
    if s1.len() > 0 {
        let v = s1.last();
        let d1 = s1.drop_last();
        assert(s1 =~= d1.push(v));
        assert(s2.to_multiset().count(v) > 0);
        assert(s2.contains(v));
        let k = choose|k: int| 0 <= k < s2.len() && s2[k] == v;
        let d2 = s2.remove(k);
        assert(d2.to_multiset() == s2.to_multiset().remove(v));
        assert(d1.to_multiset() =~= s1.to_multiset().remove(v));
        lemma_map_permuted(d1, d2, g);
        assert(s1.map_values(g) =~= d1.map_values(g).push(g(v)));
        assert(s2.map_values(g) =~= d2.map_values(g).insert(k, g(v)));
        vstd::seq_lib::to_multiset_insert(d2.map_values(g), k, g(v));
        assert(s2.map_values(g).to_multiset() == d2.map_values(g).to_multiset().insert(g(v)));
        assert(s1.map_values(g).to_multiset() == d1.map_values(g).to_multiset().insert(g(v)));
    } else {
        assert(s2.len() == 0);
        assert(s1.map_values(g) =~= s2.map_values(g));
    }
}

proof fn lemma_flat_permuted<T>(l1: Seq<Vec<T>>, l2: Seq<Vec<T>>)
    requires
        l1.to_multiset() == l2.to_multiset(),
    ensures
        flat(l1).to_multiset() == flat(l2).to_multiset(),
    decreases l1.len(),
{
    broadcast use vstd::seq_lib::lemma_multiset_commutative, vstd::multiset::group_multiset_axioms;

    assert(l1.len() == l1.to_multiset().len());
    assert(l2.len() == l2.to_multiset().len());
    if l1.len() > 0 {
        let v = l1.last();
        let d1 = l1.drop_last();
        assert(l1 =~= d1.push(v));
        vstd::seq_lib::to_multiset_build(d1, v);
        assert(l2.to_multiset().count(v) > 0);
        assert(l2.contains(v));
        let k = choose|k: int| 0 <= k < l2.len() && l2[k] == v;
        let d2 = l2.remove(k);
        assert(d2.to_multiset() == l2.to_multiset().remove(v));
        assert(d1.to_multiset() =~= l1.to_multiset().remove(v));
        lemma_flat_permuted(d1, d2);
        crate::merge::lemma_flat_split_pub(l2, k);
        crate::merge::lemma_flat_split_pub(l2, k + 1);
        crate::merge::lemma_flat_split_pub(d2, k);
        assert(l2.take(k + 1) =~= l2.take(k).push(v));
        assert(l2.take(k + 1).drop_last() =~= l2.take(k));
        assert(d2.take(k) =~= l2.take(k));
        assert(d2.skip(k) =~= l2.skip(k + 1));
        assert(flat(l2) == flat(l2.take(k)) + v@ + flat(l2.skip(k + 1))) by {
            assert(flat(l2.take(k + 1)) == flat(l2.take(k)) + v@);
            assert(flat(l2) == flat(l2.take(k + 1)) + flat(l2.skip(k + 1)));
        }
        assert(flat(d2) == flat(l2.take(k)) + flat(l2.skip(k + 1)));
        assert(flat(l1) == flat(d1) + v@);
        assert(flat(l2).to_multiset() =~= flat(l2.take(k)).to_multiset().add(v@.to_multiset()).add(
            flat(l2.skip(k + 1)).to_multiset(),
        ));
        assert(flat(d2).to_multiset() =~= flat(l2.take(k)).to_multiset().add(flat(l2.skip(k + 1)).to_multiset()));
        assert(flat(l1).to_multiset() =~= flat(d1).to_multiset().add(v@.to_multiset()));
        assert(flat(l1).to_multiset() =~= flat(l2).to_multiset());
    } else {
        assert(l2.len() == 0);
        assert(flat(l1) =~= flat(l2));
    }
}

/// Order independence of merging: two orderings of the same files of a
/// package that merge give the same top-level messages, enums and
/// services, in the same order, and the same syntax; and the same file
/// options when all files carry the same options.
pub proof fn lemma_merge_order_independent(
    f1: Seq<FileDescriptor>,
    f2: Seq<FileDescriptor>,
    package: Seq<char>,
    m1: FileDescriptor,
    m2: FileDescriptor,
)
    requires
        f1.to_multiset() == f2.to_multiset(),
        merges(f1),
        merged_from(f1, package, m1),
        merged_from(f2, package, m2),
    ensures
        merges(f2),
        m1.message_type@ == m2.message_type@,
        m1.enum_type@ == m2.enum_type@,
        m1.service@ == m2.service@,
        m1.syntax->0@ == m2.syntax->0@,
        (forall|i: int| 0 <= i < f1.len() ==> (#[trigger] f1[i]).options == f1[0].options) ==> m1.options == m2.options,
{
    let gm = |f: FileDescriptor| f.message_type;
    let ge = |f: FileDescriptor| f.enum_type;
    let gs = |f: FileDescriptor| f.service;
    lemma_map_permuted(f1, f2, gm);
    lemma_map_permuted(f1, f2, ge);
    lemma_map_permuted(f1, f2, gs);
    assert(f1.map_values(gm) =~= Seq::new(f1.len(), |i: int| f1[i].message_type));
    assert(f2.map_values(gm) =~= Seq::new(f2.len(), |i: int| f2[i].message_type));
    assert(f1.map_values(ge) =~= Seq::new(f1.len(), |i: int| f1[i].enum_type));
    assert(f2.map_values(ge) =~= Seq::new(f2.len(), |i: int| f2[i].enum_type));
    assert(f1.map_values(gs) =~= Seq::new(f1.len(), |i: int| f1[i].service));
    assert(f2.map_values(gs) =~= Seq::new(f2.len(), |i: int| f2[i].service));
    lemma_flat_permuted(f1.map_values(gm), f2.map_values(gm));
    lemma_flat_permuted(f1.map_values(ge), f2.map_values(ge));
    lemma_flat_permuted(f1.map_values(gs), f2.map_values(gs));
    lemma_sort_order_independent(all_messages(f1), all_messages(f2));
    lemma_sort_order_independent(all_enums(f1), all_enums(f2));
    lemma_sort_order_independent(all_services(f1), all_services(f2));
    lemma_distinct_permuted(all_messages(f1), all_messages(f2));
    lemma_distinct_permuted(all_enums(f1), all_enums(f2));
    lemma_distinct_permuted(all_services(f1), all_services(f2));
    assert(f1.len() == f1.to_multiset().len());
    assert(f2.len() == f2.to_multiset().len());
    assert(same_syntax(f2)) by {
        assert forall|i: int, j: int| 0 <= i < f2.len() && 0 <= j < f2.len() implies syntax_of(#[trigger] f2[i])
            == syntax_of(#[trigger] f2[j]) by {
            assert(f2.contains(f2[i]));
            assert(f2.contains(f2[j]));
            assert(f1.to_multiset().count(f2[i]) > 0);
            assert(f1.to_multiset().count(f2[j]) > 0);
            let p = choose|p: int| 0 <= p < f1.len() && f1[p] == f2[i];
            let q = choose|q: int| 0 <= q < f1.len() && f1[q] == f2[j];
        }
    }
    if f1.len() > 0 {
        assert(f1.contains(f1[0]));
        assert(f2.to_multiset().count(f1[0]) > 0);
        let p = choose|p: int| 0 <= p < f2.len() && f2[p] == f1[0];
        assert(syntax_of(f2[p]) == syntax_of(f2[0]));
        assert(f2.contains(f2[0]));
        assert(f1.to_multiset().count(f2[0]) > 0);
        let q = choose|q: int| 0 <= q < f1.len() && f1[q] == f2[0];
        assert(f1[q].options == f2[0].options);
    }
}


proof fn lemma_sorted_texts_unique(x: Seq<String>, y: Seq<String>)
    requires
        crate::merge::strictly_sorted(x),
        crate::merge::strictly_sorted(y),
        forall|t: Seq<char>| #[trigger] has_text(x, t) <==> has_text(y, t),
    ensures
        views(x) == views(y),
    decreases x.len() + y.len(),
{
    if x.len() == 0 || y.len() == 0 {
        if x.len() > 0 {
            assert(has_text(x, x[0]@));
            assert(has_text(y, x[0]@));
        }
        if y.len() > 0 {
            assert(has_text(y, y[0]@));
            assert(has_text(x, y[0]@));
        }
        assert(views(x) =~= views(y));
    } else {
        assert(has_text(x, x[0]@));
        assert(has_text(y, y[0]@));
        assert(has_text(y, x[0]@));
        assert(has_text(x, y[0]@));
        let k = choose|k: int| 0 <= k < y.len() && #[trigger] y[k]@ == x[0]@;
        let m = choose|m: int| 0 <= m < x.len() && #[trigger] x[m]@ == y[0]@;
        if k > 0 {
            assert(text_lt(y[0].name_view(), y[k].name_view()));
            if m > 0 {
                assert(text_lt(x[0].name_view(), x[m].name_view()));
                lemma_text_lt_transitive(x[0]@, y[0]@, x[0]@);
                lemma_text_lt_irreflexive(x[0]@);
            } else {
                lemma_text_lt_irreflexive(y[0]@);
            }
        }
        assert(x[0]@ == y[0]@);
        let xr = x.drop_first();
        let yr = y.drop_first();
        assert(crate::merge::strictly_sorted(xr)) by {
            assert forall|i: int, j: int| 0 <= i < j < xr.len() implies text_lt(#[trigger] xr[i].name_view(), #[trigger] xr[j].name_view()) by {
                assert(xr[i] == x[i + 1] && xr[j] == x[j + 1]);
            }
        }
        assert(crate::merge::strictly_sorted(yr)) by {
            assert forall|i: int, j: int| 0 <= i < j < yr.len() implies text_lt(#[trigger] yr[i].name_view(), #[trigger] yr[j].name_view()) by {
                assert(yr[i] == y[i + 1] && yr[j] == y[j + 1]);
            }
        }
        assert forall|t: Seq<char>| #[trigger] has_text(xr, t) <==> has_text(yr, t) by {
            if has_text(xr, t) {
                let i = choose|i: int| 0 <= i < xr.len() && #[trigger] xr[i]@ == t;
                assert(x[i + 1]@ == t);
                assert(has_text(x, t));
                assert(has_text(y, t));
                assert(text_lt(x[0].name_view(), x[i + 1].name_view()));
                lemma_text_lt_irreflexive(t);
                let j = choose|j: int| 0 <= j < y.len() && #[trigger] y[j]@ == t;
                assert(j != 0);
                assert(yr[j - 1]@ == t);
            }
            if has_text(yr, t) {
                let i = choose|i: int| 0 <= i < yr.len() && #[trigger] yr[i]@ == t;
                assert(y[i + 1]@ == t);
                assert(has_text(y, t));
                assert(has_text(x, t));
                assert(text_lt(y[0].name_view(), y[i + 1].name_view()));
                lemma_text_lt_irreflexive(t);
                let j = choose|j: int| 0 <= j < x.len() && #[trigger] x[j]@ == t;
                assert(j != 0);
                assert(xr[j - 1]@ == t);
            }
        }
        lemma_sorted_texts_unique(xr, yr);
        assert(views(xr).len() == xr.len() && views(yr).len() == yr.len());
        assert(x.len() == y.len());
        assert forall|i: int| 0 <= i < x.len() implies views(x)[i] == views(y)[i] by {
            if i > 0 {
                assert(views(xr)[i - 1] == views(yr)[i - 1]);
                assert(x[i] == xr[i - 1] && y[i] == yr[i - 1]);
            }
        }
        assert(views(x) =~= views(y));
    }
}

proof fn lemma_marked_permuted(f1: Seq<FileDescriptor>, f2: Seq<FileDescriptor>, weak: bool, t: Seq<char>)
    requires
        f1.to_multiset() == f2.to_multiset(),
    ensures
        marked(f1, weak, t) == marked(f2, weak, t),
        imports_path(f1, t) == imports_path(f2, t),
{
    if marked(f1, weak, t) {
        let a = choose|a: int| 0 <= a < f1.len() && file_marks(#[trigger] f1[a], weak, t);
        assert(f1.contains(f1[a]));
        assert(f2.to_multiset().count(f1[a]) > 0);
        let b = choose|b: int| 0 <= b < f2.len() && f2[b] == f1[a];
        assert(file_marks(f2[b], weak, t));
    }
    if marked(f2, weak, t) {
        let a = choose|a: int| 0 <= a < f2.len() && file_marks(#[trigger] f2[a], weak, t);
        assert(f2.contains(f2[a]));
        assert(f1.to_multiset().count(f2[a]) > 0);
        let b = choose|b: int| 0 <= b < f1.len() && f1[b] == f2[a];
        assert(file_marks(f1[b], weak, t));
    }
    if imports_path(f1, t) {
        let a = choose|a: int| 0 <= a < f1.len() && has_text(#[trigger] f1[a].dependency@, t);
        assert(f1.contains(f1[a]));
        assert(f2.to_multiset().count(f1[a]) > 0);
        let b = choose|b: int| 0 <= b < f2.len() && f2[b] == f1[a];
        assert(has_text(f2[b].dependency@, t));
    }
    if imports_path(f2, t) {
        let a = choose|a: int| 0 <= a < f2.len() && has_text(#[trigger] f2[a].dependency@, t);
        assert(f2.contains(f2[a]));
        assert(f1.to_multiset().count(f2[a]) > 0);
        let b = choose|b: int| 0 <= b < f1.len() && f1[b] == f2[a];
        assert(has_text(f1[b].dependency@, t));
    }
}

/// Whether the index `i` occurs in `x`.
pub open spec fn holds_index(x: Seq<i32>, i: int) -> bool {
    exists|a: int| 0 <= a < x.len() && #[trigger] x[a] == i
}

proof fn lemma_indices_unique(x: Seq<i32>, y: Seq<i32>, bound: int)
    requires
        forall|a: int, b: int| 0 <= a < b < x.len() ==> x[a] < x[b],
        forall|a: int, b: int| 0 <= a < b < y.len() ==> y[a] < y[b],
        forall|a: int| 0 <= a < x.len() ==> 0 <= #[trigger] x[a] < bound,
        forall|a: int| 0 <= a < y.len() ==> 0 <= #[trigger] y[a] < bound,
        forall|i: int| 0 <= i < bound && i <= i32::MAX ==> (#[trigger] holds_index(x, i) <==> holds_index(y, i)),
    ensures
        x == y,
    decreases x.len() + y.len(),
{
    if x.len() == 0 || y.len() == 0 {
        if x.len() > 0 {
            assert(holds_index(x, x[0] as int));
            assert(holds_index(y, x[0] as int));
        }
        if y.len() > 0 {
            assert(holds_index(y, y[0] as int));
            assert(holds_index(x, y[0] as int));
        }
        assert(x =~= y);
    } else {
        let i = x[0] as int;
        assert(holds_index(x, i));
        assert(holds_index(y, i));
        let k = choose|k: int| 0 <= k < y.len() && #[trigger] y[k] == i;
        let j = y[0] as int;
        assert(holds_index(y, j));
        assert(holds_index(x, j));
        let m = choose|m: int| 0 <= m < x.len() && #[trigger] x[m] == j;
        if k > 0 {
            assert(y[0] < y[k]);
            if m > 0 {
                assert(x[0] < x[m]);
            }
        }
        assert(x[0] == y[0]);
        let xr = x.drop_first();
        let yr = y.drop_first();
        assert forall|q: int| 0 <= q < bound && q <= i32::MAX implies (#[trigger] holds_index(xr, q) <==> holds_index(yr, q)) by {
            if holds_index(xr, q) {
                let a = choose|a: int| 0 <= a < xr.len() && #[trigger] xr[a] == q;
                assert(x[a + 1] == q);
                assert(x[0] < x[a + 1]);
                assert(holds_index(x, q));
                assert(holds_index(y, q));
                let b = choose|b: int| 0 <= b < y.len() && #[trigger] y[b] == q;
                if b == 0 {
                    assert(false);
                }
                assert(yr[b - 1] == q);
            }
            if holds_index(yr, q) {
                let a = choose|a: int| 0 <= a < yr.len() && #[trigger] yr[a] == q;
                assert(y[a + 1] == q);
                assert(y[0] < y[a + 1]);
                assert(holds_index(y, q));
                assert(holds_index(x, q));
                let b = choose|b: int| 0 <= b < x.len() && #[trigger] x[b] == q;
                if b == 0 {
                    assert(false);
                }
                assert(xr[b - 1] == q);
            }
        }
        lemma_indices_unique(xr, yr, bound);
        assert forall|q: int| 0 <= q < x.len() implies x[q] == y[q] by {
            if q > 0 {
                assert(x[q] == xr[q - 1]);
                assert(y[q] == yr[q - 1]);
            }
        }
        assert(x =~= y);
    }
}

/// Order independence of merged imports: two orderings of the same files
/// give the same import paths, in the same order, with the same public and
/// weak marks.
pub proof fn lemma_imports_order_independent(
    f1: Seq<FileDescriptor>,
    f2: Seq<FileDescriptor>,
    package: Seq<char>,
    m1: FileDescriptor,
    m2: FileDescriptor,
)
    requires
        f1.to_multiset() == f2.to_multiset(),
        merged_from(f1, package, m1),
        merged_from(f2, package, m2),
    ensures
        views(m1.dependency@) == views(m2.dependency@),
        m1.public_dependency@ == m2.public_dependency@,
        m1.weak_dependency@ == m2.weak_dependency@,
{
    assert forall|t: Seq<char>| #[trigger] has_text(m1.dependency@, t) <==> has_text(m2.dependency@, t) by {
        lemma_marked_permuted(f1, f2, false, t);
    }
    lemma_sorted_texts_unique(m1.dependency@, m2.dependency@);
    let n = m1.dependency@.len() as int;
    assert(views(m1.dependency@).len() == n);
    assert(m2.dependency@.len() == n) by {
        assert(views(m2.dependency@).len() == m2.dependency@.len());
    }
    assert forall|w: bool, i: int| 0 <= i < n implies #[trigger] marked(f1, w, m1.dependency@[i]@) == marked(
        f2,
        w,
        m2.dependency@[i]@,
    ) by {
        assert(views(m1.dependency@)[i] == views(m2.dependency@)[i]);
        lemma_marked_permuted(f1, f2, w, m1.dependency@[i]@);
    }
    assert forall|i: int| 0 <= i < n && i <= i32::MAX implies (#[trigger] holds_index(m1.public_dependency@, i)
        <==> holds_index(m2.public_dependency@, i)) by {
        assert(marked(f1, false, m1.dependency@[i]@) == marked(f2, false, m2.dependency@[i]@));
    }
    assert forall|i: int| 0 <= i < n && i <= i32::MAX implies (#[trigger] holds_index(m1.weak_dependency@, i)
        <==> holds_index(m2.weak_dependency@, i)) by {
        assert(marked(f1, true, m1.dependency@[i]@) == marked(f2, true, m2.dependency@[i]@));
    }
    lemma_indices_unique(m1.public_dependency@, m2.public_dependency@, n);
    lemma_indices_unique(m1.weak_dependency@, m2.weak_dependency@, n);
}


/// Any two items at different places are ordered one way or the other.
pub open spec fn connected<T>(s: Seq<T>, lt: spec_fn(T, T) -> bool) -> bool {
    forall|i: int, j: int| 0 <= i < s.len() && 0 <= j < s.len() && i != j ==> lt(#[trigger] s[i], #[trigger] s[j]) || lt(s[j], s[i])
}

proof fn lemma_connected_permuted<T>(a: Seq<T>, s: Seq<T>, lt: spec_fn(T, T) -> bool)
    requires
        strict_order(lt),
        connected(a, lt),
        a.to_multiset() == s.to_multiset(),
    ensures
        connected(s, lt),
{
    assert forall|i: int, j: int| 0 <= i < s.len() && 0 <= j < s.len() && i != j implies lt(#[trigger] s[i], #[trigger] s[j]) || lt(s[j], s[i]) by {
        if s[i] == s[j] {
            let t = s.remove(i);
            let jj = if j < i { j } else { j - 1 };
            assert(t[jj] == s[j]);
            assert(t.contains(s[j]));
            assert(t.to_multiset().count(s[j]) > 0);
            assert(t.to_multiset() == s.to_multiset().remove(s[i]));
            assert(s.to_multiset().count(s[i]) >= 2);
            let (p, q) = lemma_count_two(a, s[i]);
            assert(lt(a[p], a[q]) || lt(a[q], a[p]));
            assert(!lt(s[i], s[i]));
        } else {
            assert(s.contains(s[i]));
            assert(s.contains(s[j]));
            assert(a.to_multiset().count(s[i]) > 0);
            assert(a.to_multiset().count(s[j]) > 0);
            let p = choose|p: int| 0 <= p < a.len() && a[p] == s[i];
            let q = choose|q: int| 0 <= q < a.len() && a[q] == s[j];
            assert(lt(a[p], a[q]) || lt(a[q], a[p]));
        }
    }
}

/// Strictly increasing by `lt`.
pub open spec fn increasing<T>(s: Seq<T>, lt: spec_fn(T, T) -> bool) -> bool {
    forall|i: int, j: int| 0 <= i < j < s.len() ==> lt(#[trigger] s[i], #[trigger] s[j])
}

proof fn lemma_increasing_unique<T>(x: Seq<T>, y: Seq<T>, lt: spec_fn(T, T) -> bool)
    requires
        strict_order(lt),
        increasing(x, lt),
        increasing(y, lt),
        x.to_multiset() == y.to_multiset(),
    ensures
        x == y,
    decreases x.len(),
{
    assert(x.len() == x.to_multiset().len());
    assert(y.len() == y.to_multiset().len());
    if x.len() > 0 {
        assert(x.contains(x[0]));
        assert(y.to_multiset().count(x[0]) > 0);
        let k = choose|k: int| 0 <= k < y.len() && y[k] == x[0];
        assert(y.contains(y[0]));
        assert(x.to_multiset().count(y[0]) > 0);
        let m = choose|m: int| 0 <= m < x.len() && x[m] == y[0];
        if k > 0 {
            assert(lt(y[0], y[k]));
            if m > 0 {
                assert(lt(x[0], x[m]));
                assert(lt(x[0], x[0]));
            } else {
                assert(lt(y[0], y[0]));
            }
        }
        let xr = x.drop_first();
        let yr = y.drop_first();
        assert(x.remove(0) =~= xr);
        assert(y.remove(0) =~= yr);
        assert(increasing(xr, lt)) by {
            assert forall|i: int, j: int| 0 <= i < j < xr.len() implies lt(#[trigger] xr[i], #[trigger] xr[j]) by {
                assert(xr[i] == x[i + 1] && xr[j] == x[j + 1]);
            }
        }
        assert(increasing(yr, lt)) by {
            assert forall|i: int, j: int| 0 <= i < j < yr.len() implies lt(#[trigger] yr[i], #[trigger] yr[j]) by {
                assert(yr[i] == y[i + 1] && yr[j] == y[j + 1]);
            }
        }
        lemma_increasing_unique(xr, yr, lt);
        assert forall|i: int| 0 <= i < x.len() implies x[i] == y[i] by {
            if i > 0 {
                assert(x[i] == xr[i - 1]);
                assert(y[i] == yr[i - 1]);
            }
        }
        assert(x =~= y);
    } else {
        assert(x =~= y);
    }
}

/// Sorting by a strict order that orders any two items of the input gives
/// the same sequence for every ordering of the same items.
pub proof fn lemma_sort_order_independent_by<T>(a: Seq<T>, b: Seq<T>, lt: spec_fn(T, T) -> bool)
    requires
        strict_order(lt),
        connected(a, lt),
        a.to_multiset() == b.to_multiset(),
    ensures
        stable_sort(a, lt) == stable_sort(b, lt),
{
    let sa = stable_sort(a, lt);
    let sb = stable_sort(b, lt);
    lemma_sort_multiset(a, lt);
    lemma_sort_multiset(b, lt);
    lemma_sort_sorted(a, lt);
    lemma_sort_sorted(b, lt);
    lemma_connected_permuted(a, sa, lt);
    lemma_connected_permuted(a, sb, lt);
    assert(increasing(sa, lt)) by {
        assert forall|i: int, j: int| 0 <= i < j < sa.len() implies lt(#[trigger] sa[i], #[trigger] sa[j]) by {
            assert(!lt(sa[j], sa[i]));
        }
    }
    assert(increasing(sb, lt)) by {
        assert forall|i: int, j: int| 0 <= i < j < sb.len() implies lt(#[trigger] sb[i], #[trigger] sb[j]) by {
            assert(!lt(sb[j], sb[i]));
        }
    }
    lemma_increasing_unique(sa, sb, lt);
}

proof fn lemma_extension_order()
    ensures
        strict_order(merged_extension_lt()),
{
    let lt = merged_extension_lt();
    assert forall|a: Field| !#[trigger] lt(a, a) by {
        match a.extendee {
            Some(x) => lemma_text_lt_irreflexive(x@),
            None => {},
        }
    }
    assert forall|a: Field, b: Field, c: Field| #[trigger] lt(a, b) && #[trigger] lt(b, c) implies lt(a, c) by {
        match (a.extendee, b.extendee, c.extendee) {
            (Some(x), Some(y), Some(z)) => {
                if text_lt(x@, y@) && text_lt(y@, z@) {
                    lemma_text_lt_transitive(x@, y@, z@);
                }
            },
            _ => {},
        }
    }
}

/// No two file-level extensions share an extendee and a number.
pub open spec fn extension_keys_distinct(s: Seq<Field>) -> bool {
    forall|i: int, j: int|
        0 <= i < s.len() && 0 <= j < s.len() && i != j ==> !(opt_view((#[trigger] s[i]).extendee) == opt_view(
            (#[trigger] s[j]).extendee,
        ) && s[i].number == s[j].number)
}

/// Order independence of merged file-level extensions: when no two share
/// an extendee and a number, every ordering of the same files gives the
/// same extensions in the same order.
pub proof fn lemma_extensions_order_independent(
    f1: Seq<FileDescriptor>,
    f2: Seq<FileDescriptor>,
    package: Seq<char>,
    m1: FileDescriptor,
    m2: FileDescriptor,
)
    requires
        f1.to_multiset() == f2.to_multiset(),
        extension_keys_distinct(all_extensions(f1)),
        merged_from(f1, package, m1),
        merged_from(f2, package, m2),
    ensures
        m1.extension@ == m2.extension@,
{
    let g = |f: FileDescriptor| f.extension;
    lemma_map_permuted(f1, f2, g);
    assert(f1.map_values(g) =~= Seq::new(f1.len(), |i: int| f1[i].extension));
    assert(f2.map_values(g) =~= Seq::new(f2.len(), |i: int| f2[i].extension));
    lemma_flat_permuted(f1.map_values(g), f2.map_values(g));
    lemma_extension_order();
    let lt = merged_extension_lt();
    let a = all_extensions(f1);
    assert(connected(a, lt)) by {
        assert forall|i: int, j: int| 0 <= i < a.len() && 0 <= j < a.len() && i != j implies lt(#[trigger] a[i], #[trigger] a[j]) || lt(a[j], a[i]) by {
            match (a[i].extendee, a[j].extendee) {
                (Some(x), Some(y)) => {
                    if x@ != y@ {
                        lemma_text_lt_total(x@, y@);
                    }
                },
                _ => {},
            }
        }
    }
    lemma_sort_order_independent_by(a, all_extensions(f2), lt);
}

} // verus!
