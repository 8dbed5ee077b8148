//! Merging parsed schema files by package into one canonical text each.
use vstd::prelude::*;
use vstd::string::*;
use crate::canonical::{file_text, name_lt, syntax_of, Named};
use crate::descriptor::{EnumType, Field, FileDescriptor, FileOptions, Message, Service};
use crate::fingerprint::{fingerprint, fingerprint_of};
use crate::order::{sort_with, stable_sort};
use crate::text::{
    escaped, lemma_text_lt_irreflexive, lemma_text_lt_total, lemma_text_lt_transitive, nat_text, push_escaped,
    push_nat, push_str, str_eq, str_lt, text_lt, views,
};
use crate::text_gen::{default_options, descriptor_to_proto, opt_view, syntax_str};

verus! {

/// Version of the merge algorithm, followed by the text format version.
pub const MERGE_ALGORITHM_VERSION: &'static str = "1.0.0+1.0.0";

/// The package of a file; empty when it declares none.
pub open spec fn package_key(f: FileDescriptor) -> Seq<char> {
    match f.package {
        Some(p) => p@,
        None => Seq::empty(),
    }
}

/// Files of the package `k`.
pub open spec fn in_package(k: Seq<char>) -> spec_fn(FileDescriptor) -> bool {
    |f: FileDescriptor| package_key(f) == k
}

/// Items strictly ascending by name.
pub open spec fn strictly_sorted<T: Named>(s: Seq<T>) -> bool {
    forall|i: int, j: int| 0 <= i < j < s.len() ==> text_lt(#[trigger] s[i].name_view(), #[trigger] s[j].name_view())
}

impl Named for String {
    open spec fn name_view(&self) -> Seq<char> {
        self@
    }

    fn name_str(&self) -> (r: &str) {
        self.as_str()
    }
}

/// The files of one package, in input order.
#[derive(Debug)]
pub struct PackageGroup {
    pub package: String,
    pub files: Vec<FileDescriptor>,
}

impl Named for PackageGroup {
    open spec fn name_view(&self) -> Seq<char> {
        self.package@
    }

    fn name_str(&self) -> (r: &str) {
        self.package.as_str()
    }
}

/// Where `key` stands in a list strictly sorted by name: `Ok` with the
/// index of the item that has it, or `Err` with the index where it would
/// be inserted.
pub fn locate<T: Named>(v: &Vec<T>, key: &str) -> (r: Result<usize, usize>)
    requires
        strictly_sorted(v@),
    ensures
        match r {
            Ok(i) => i < v@.len() && v@[i as int].name_view() == key@,
            Err(p) => p <= v@.len() && (forall|q: int| 0 <= q < p ==> text_lt(#[trigger] v@[q].name_view(), key@))
                && (forall|q: int| p <= q < v@.len() ==> text_lt(key@, #[trigger] v@[q].name_view())),
        },
{
    let mut q: usize = 0;
    while q < v.len()
        invariant
            q <= v@.len(),
            strictly_sorted(v@),
            forall|x: int| 0 <= x < q ==> text_lt(#[trigger] v@[x].name_view(), key@),
        decreases v@.len() - q,
    {
        let name = v[q].name_str();
        if str_eq(name, key) {
            return Ok(q);
        }
        if str_lt(key, name) {
            assert forall|x: int| q <= x < v@.len() implies text_lt(key@, #[trigger] v@[x].name_view()) by {
                if x > q {
                    lemma_text_lt_transitive(key@, v@[q as int].name_view(), v@[x].name_view());
                }
            }
            return Err(q);
        }
        proof {
            lemma_text_lt_total(name@, key@);
        }
        q = q + 1;
    }
    Err(q)
}

/// Whether some string of `v` holds the text `x`.
pub open spec fn has_text(v: Seq<String>, x: Seq<char>) -> bool {
    exists|i: int| 0 <= i < v.len() && #[trigger] v[i]@ == x
}

/// Adds `key` to a strictly sorted list of strings when it is missing.
pub fn insert_unique(v: &mut Vec<String>, key: String)
    requires
        strictly_sorted(old(v)@),
    ensures
        strictly_sorted(final(v)@),
        forall|x: Seq<char>| #[trigger] has_text(final(v)@, x) <==> (x == key@ || has_text(old(v)@, x)),
{
    match locate(v, key.as_str()) {
        Ok(i) => {
            assert forall|x: Seq<char>| (x == key@ || has_text(v@, x)) implies #[trigger] has_text(v@, x) by {
                if x == key@ {
                    assert(v@[i as int]@ == x);
                }
            }
        },
        Err(p) => {
            let ghost k = key@;
            let ghost o = v@;
            v.insert(p, key);
            assert forall|i: int, j: int| 0 <= i < j < v@.len() implies text_lt(
                #[trigger] v@[i].name_view(),
                #[trigger] v@[j].name_view(),
            ) by {
                if j == p {
                } else if i == p {
                } else if i < p && j > p {
                    assert(v@[i] == o[i] && v@[j] == o[j - 1]);
                    assert(text_lt(o[i].name_view(), k));
                    assert(text_lt(k, o[j - 1].name_view()));
                    lemma_text_lt_transitive(v@[i]@, k, v@[j]@);
                } else if j < p {
                    assert(v@[i] == o[i] && v@[j] == o[j]);
                } else {
                    assert(v@[i] == o[i - 1] && v@[j] == o[j - 1]);
                }
            }
            assert forall|x: Seq<char>| #[trigger] has_text(v@, x) implies (x == k || has_text(o, x)) by {
                let i = choose|i: int| 0 <= i < v@.len() && #[trigger] v@[i]@ == x;
                if i < p {
                    assert(o[i]@ == x);
                } else if i > p {
                    assert(o[i - 1]@ == x);
                }
            }
            assert forall|x: Seq<char>| (x == k || has_text(o, x)) implies #[trigger] has_text(v@, x) by {
                if x == k {
                    assert(v@[p as int]@ == x);
                } else {
                    let i = choose|i: int| 0 <= i < o.len() && #[trigger] o[i]@ == x;
                    if i < p {
                        assert(v@[i]@ == x);
                    } else {
                        assert(v@[i + 1]@ == x);
                    }
                }
            }
        },
    }
}


/// Whether some group of `r` is for the package `key`.
pub open spec fn covers(r: Seq<PackageGroup>, key: Seq<char>) -> bool {
    exists|i: int| 0 <= i < r.len() && #[trigger] r[i].package@ == key
}

/// The package of a file as a string.
fn package_string(f: &FileDescriptor) -> (r: String)
    ensures
        r@ == package_key(*f),
{
    match &f.package {
        Some(p) => p.clone(),
        None => String::new(),
    }
}

proof fn lemma_sorted_distinct<T: Named>(s: Seq<T>, i: int, j: int)
    requires
        strictly_sorted(s),
        0 <= i < s.len(),
        0 <= j < s.len(),
        i != j,
    ensures
        s[i].name_view() != s[j].name_view(),
{
    if i < j {
        lemma_text_lt_irreflexive(s[i].name_view());
    } else {
        lemma_text_lt_irreflexive(s[j].name_view());
    }
}

/// Partitions files by package: one group per package, by ascending
/// package name, each holding that package's files in input order.
pub fn group_by_package(files: Vec<FileDescriptor>) -> (r: Vec<PackageGroup>)
    ensures
        strictly_sorted(r@),
        forall|i: int| 0 <= i < r@.len() ==> (#[trigger] r@[i]).files@ == files@.filter(in_package(r@[i].package@)),
        forall|i: int| 0 <= i < r@.len() ==> (#[trigger] r@[i]).files@.len() > 0,
        forall|j: int| 0 <= j < files@.len() ==> covers(r@, package_key(#[trigger] files@[j])),
{
    let ghost all = files@;
    let n = files.len();
    let mut rest = files;
    let mut groups: Vec<PackageGroup> = Vec::new();
    let mut k: usize = 0;
    assert(all.skip(0) =~= all);
    while rest.len() > 0
        invariant
            k <= n,
            all.len() == n,
            rest@ == all.skip(k as int),
            rest@.len() == n - k,
            strictly_sorted(groups@),
            forall|i: int|
                0 <= i < groups@.len() ==> (#[trigger] groups@[i]).files@ == all.take(k as int).filter(
                    in_package(groups@[i].package@),
                ),
            forall|i: int| 0 <= i < groups@.len() ==> (#[trigger] groups@[i]).files@.len() > 0,
            forall|j: int| 0 <= j < k ==> covers(groups@, package_key(#[trigger] all[j])),
        decreases rest@.len(),
    {
        let f = rest.remove(0);
        let ghost fv = f;
        assert(fv == all[k as int]);
        let key = package_string(&f);
        let ghost kv = key@;
        let ghost old_groups = groups@;
        let ghost pre = all.take(k as int);
        assert(all.take(k as int + 1) =~= pre.push(fv));
        match locate(&groups, key.as_str()) {
            Ok(i) => {
                let mut g = groups.remove(i);
                g.files.push(f);
                groups.insert(i, g);
                assert forall|q: int| 0 <= q < groups@.len() implies (#[trigger] groups@[q]).files@ == all.take(
                    k as int + 1,
                ).filter(in_package(groups@[q].package@)) by {
                    pre.lemma_filter_push(fv, in_package(groups@[q].package@));
                    if q != i {
                        assert(groups@[q] == old_groups[q]);
                        lemma_sorted_distinct(old_groups, q, i as int);
                    }
                }
                assert forall|j: int| 0 <= j < k + 1 implies covers(groups@, package_key(#[trigger] all[j])) by {
                    if j < k {
                        let q = choose|q: int| 0 <= q < old_groups.len() && #[trigger] old_groups[q].package@ == package_key(all[j]);
                        assert(groups@[q].package@ == old_groups[q].package@);
                    } else {
                        assert(groups@[i as int].package@ == package_key(all[j]));
                    }
                }
                assert(strictly_sorted(groups@)) by {
                    assert forall|a: int, b: int| 0 <= a < b < groups@.len() implies text_lt(
                        #[trigger] groups@[a].name_view(),
                        #[trigger] groups@[b].name_view(),
                    ) by {
                        assert(groups@[a].package@ == old_groups[a].package@);
                        assert(groups@[b].package@ == old_groups[b].package@);
                    }
                }
            },
            Err(p) => {
                let mut v: Vec<FileDescriptor> = Vec::new();
                v.push(f);
                groups.insert(p, PackageGroup { package: key, files: v });
                assert forall|j: int| 0 <= j < pre.len() implies !in_package(kv)(#[trigger] pre[j]) by {
                    assert(pre[j] == all[j]);
                    let q = choose|q: int| 0 <= q < old_groups.len() && #[trigger] old_groups[q].package@ == package_key(all[j]);
                    lemma_text_lt_irreflexive(kv);
                    if q < p {
                        assert(text_lt(old_groups[q].name_view(), kv));
                    } else {
                        assert(text_lt(kv, old_groups[q].name_view()));
                    }
                }
                proof {
                    pre.lemma_all_neg_filter_empty(in_package(kv));
                    assert(pre.all(|x: FileDescriptor| !in_package(kv)(x)));
                }
                assert forall|q: int| 0 <= q < groups@.len() implies (#[trigger] groups@[q]).files@ == all.take(
                    k as int + 1,
                ).filter(in_package(groups@[q].package@)) by {
                    pre.lemma_filter_push(fv, in_package(groups@[q].package@));
                    if q < p {
                        assert(groups@[q] == old_groups[q]);
                        lemma_text_lt_irreflexive(kv);
                    } else if q > p {
                        assert(groups@[q] == old_groups[q - 1]);
                        lemma_text_lt_irreflexive(kv);
                    } else {
                        assert(pre.filter(in_package(kv)) =~= Seq::<FileDescriptor>::empty());
                        assert(groups@[q].files@ =~= seq![fv]);
                    }
                }
                assert forall|q: int| 0 <= q < groups@.len() implies (#[trigger] groups@[q]).files@.len() > 0 by {
                    if q < p {
                        assert(groups@[q] == old_groups[q]);
                    } else if q > p {
                        assert(groups@[q] == old_groups[q - 1]);
                    }
                }
                assert forall|j: int| 0 <= j < k + 1 implies covers(groups@, package_key(#[trigger] all[j])) by {
                    if j < k {
                        let q = choose|q: int| 0 <= q < old_groups.len() && #[trigger] old_groups[q].package@ == package_key(all[j]);
                        if q < p {
                            assert(groups@[q] == old_groups[q]);
                        } else {
                            assert(groups@[q + 1] == old_groups[q]);
                        }
                    } else {
                        assert(groups@[p as int].package@ == package_key(all[j]));
                    }
                }
                assert(strictly_sorted(groups@)) by {
                    assert forall|a: int, b: int| 0 <= a < b < groups@.len() implies text_lt(
                        #[trigger] groups@[a].name_view(),
                        #[trigger] groups@[b].name_view(),
                    ) by {
                        if b < p {
                            assert(groups@[a] == old_groups[a] && groups@[b] == old_groups[b]);
                        } else if a > p {
                            assert(groups@[a] == old_groups[a - 1] && groups@[b] == old_groups[b - 1]);
                        } else if a == p {
                            assert(groups@[b] == old_groups[b - 1]);
                        } else if b == p {
                            assert(groups@[a] == old_groups[a]);
                        } else {
                            assert(groups@[a] == old_groups[a] && groups@[b] == old_groups[b - 1]);
                            lemma_text_lt_transitive(old_groups[a].name_view(), kv, old_groups[b - 1].name_view());
                        }
                    }
                }
            },
        }
        assert(all.skip(k as int + 1) =~= all.skip(k as int).drop_first());
        k = k + 1;
    }
    assert(all.take(k as int) =~= all);
    groups
}


/// Kind of a top-level definition.
#[derive(Clone, Copy, Debug, PartialEq, Eq, Structural)]
pub enum SymbolKind {
    Message,
    Enum,
    Service,
}

/// Why a package group cannot be merged.
#[derive(Debug)]
pub enum MergeError {
    /// The files of one package declare different syntax versions; the
    /// versions seen, in ascending order.
    SyntaxConflict { syntaxes: Vec<String> },
    /// Two top-level definitions of one kind share a name; the indices of
    /// the files (within the package group) that hold them.
    DuplicateSymbol { kind: SymbolKind, name: String, first_file: usize, second_file: usize },
}

/// The word naming a definition kind in messages.
pub open spec fn kind_text(k: SymbolKind) -> Seq<char> {
    match k {
        SymbolKind::Message => "message"@,
        SymbolKind::Enum => "enum"@,
        SymbolKind::Service => "service"@,
    }
}

/// Quoted texts joined by `", "`.
pub open spec fn quoted_list(s: Seq<Seq<char>>) -> Seq<char>
    decreases s.len(),
{
    if s.len() == 0 {
        Seq::empty()
    } else if s.len() == 1 {
        "\""@ + escaped(s[0]) + "\""@
    } else {
        quoted_list(s.drop_last()) + ", "@ + "\""@ + escaped(s.last()) + "\""@
    }
}

/// The message of an error.
pub open spec fn error_text(e: MergeError) -> Seq<char> {
    match e {
        MergeError::SyntaxConflict { syntaxes } => "Syntax version conflict: found {"@ + quoted_list(views(syntaxes@))
            + "}. All files in the same package must use the same syntax version."@,
        MergeError::DuplicateSymbol { kind, name, first_file, second_file } => "Duplicate "@ + kind_text(kind)
            + " '"@ + name@ + "' found in files #"@ + nat_text(first_file as nat) + " and #"@ + nat_text(
            second_file as nat,
        ),
    }
}

impl MergeError {
    /// A readable description of the error.
    pub fn message(&self) -> (r: String)
        ensures
            r@ == error_text(*self),
    {
        let mut out = String::new();
        match self {
            MergeError::SyntaxConflict { syntaxes } => {
                push_str(&mut out, "Syntax version conflict: found {");
                let ghost start = out@;
                let mut i: usize = 0;
                assert(views(syntaxes@).take(0) =~= Seq::<Seq<char>>::empty());
                while i < syntaxes.len()
                    invariant
                        i <= syntaxes@.len(),
                        out@ == start + quoted_list(views(syntaxes@).take(i as int)),
                    decreases syntaxes@.len() - i,
                {
                    if i > 0 {
                        push_str(&mut out, ", ");
                    }
                    push_str(&mut out, "\"");
                    push_escaped(&mut out, syntaxes[i].as_str());
                    push_str(&mut out, "\"");
                    proof {
                        let t = views(syntaxes@).take(i as int + 1);
                        assert(t.drop_last() =~= views(syntaxes@).take(i as int));
                        if i == 0 {
                            assert(views(syntaxes@).take(0) =~= Seq::<Seq<char>>::empty());
                        }
                    }
                    i = i + 1;
                    assert(out@ =~= start + quoted_list(views(syntaxes@).take(i as int)));
                }
                assert(views(syntaxes@).take(i as int) =~= views(syntaxes@));
                push_str(&mut out, "}. All files in the same package must use the same syntax version.");
            },
            MergeError::DuplicateSymbol { kind, name, first_file, second_file } => {
                push_str(&mut out, "Duplicate ");
                match kind {
                    SymbolKind::Message => push_str(&mut out, "message"),
                    SymbolKind::Enum => push_str(&mut out, "enum"),
                    SymbolKind::Service => push_str(&mut out, "service"),
                }
                push_str(&mut out, " '");
                push_str(&mut out, name.as_str());
                push_str(&mut out, "' found in files #");
                push_nat(&mut out, *first_file as u64);
                push_str(&mut out, " and #");
                push_nat(&mut out, *second_file as u64);
            },
        }
        assert(out@ =~= error_text(*self));
        out
    }
}

/// Whether all files declare the same syntax (absent counting as `proto2`).
pub open spec fn same_syntax(files: Seq<FileDescriptor>) -> bool {
    forall|i: int, j: int| 0 <= i < files.len() && 0 <= j < files.len() ==> syntax_of(#[trigger] files[i]) == syntax_of(#[trigger] files[j])
}

/// Whether some file declares the syntax `x`.
pub open spec fn declares_syntax(files: Seq<FileDescriptor>, x: Seq<char>) -> bool {
    exists|i: int| 0 <= i < files.len() && syntax_of(#[trigger] files[i]) == x
}

/// The one syntax of a package group, or the conflict between its files.
pub fn validate_syntax_consistency(files: &Vec<FileDescriptor>) -> (r: Result<String, MergeError>)
    ensures
        r is Ok <==> same_syntax(files@),
        r is Ok ==> r->Ok_0@ == if files@.len() > 0 { syntax_of(files@[0]) } else { "proto2"@ },
        r is Err ==> (r->Err_0 matches MergeError::SyntaxConflict { syntaxes } && strictly_sorted(syntaxes@) && (
        forall|x: Seq<char>| #[trigger] has_text(syntaxes@, x) <==> declares_syntax(files@, x))),
{
    let mut seen: Vec<String> = Vec::new();
    let mut k: usize = 0;
    while k < files.len()
        invariant
            k <= files@.len(),
            strictly_sorted(seen@),
            forall|x: Seq<char>| #[trigger] has_text(seen@, x) <==> declares_syntax(files@.take(k as int), x),
        decreases files@.len() - k,
    {
        let s = syntax_str(&files[k]).to_owned();
        let ghost sv = s@;
        let ghost before = seen@;
        insert_unique(&mut seen, s);
        proof {
            assert forall|x: Seq<char>| #[trigger] has_text(seen@, x) <==> declares_syntax(files@.take(k as int + 1), x) by {
                let t = files@.take(k as int + 1);
                if declares_syntax(t, x) {
                    let i = choose|i: int| 0 <= i < t.len() && syntax_of(#[trigger] t[i]) == x;
                    if i < k {
                        assert(files@.take(k as int)[i] == t[i]);
                        assert(declares_syntax(files@.take(k as int), x));
                    }
                }
                if declares_syntax(files@.take(k as int), x) {
                    let i = choose|i: int| 0 <= i < k && syntax_of(#[trigger] files@.take(k as int)[i]) == x;
                    assert(t[i] == files@.take(k as int)[i]);
                }
                if x == sv {
                    assert(t[k as int] == files@[k as int]);
                }
            }
        }
        k = k + 1;
    }
    assert(files@.take(k as int) =~= files@);
    if seen.len() > 1 {
        proof {
            assert(has_text(seen@, seen@[0]@));
            assert(has_text(seen@, seen@[1]@));
            let i = choose|i: int| 0 <= i < files@.len() && syntax_of(#[trigger] files@[i]) == seen@[0]@;
            let j = choose|j: int| 0 <= j < files@.len() && syntax_of(#[trigger] files@[j]) == seen@[1]@;
            lemma_text_lt_irreflexive(seen@[0]@);
            assert(text_lt(seen@[0].name_view(), seen@[1].name_view()));
            assert(syntax_of(files@[i]) != syntax_of(files@[j]));
        }
        return Err(MergeError::SyntaxConflict { syntaxes: seen });
    }
    if files.len() == 0 {
        return Ok("proto2".to_owned());
    }
    proof {
        assert(declares_syntax(files@, syntax_of(files@[0])));
        assert(has_text(seen@, syntax_of(files@[0])));
        assert forall|i: int, j: int| 0 <= i < files@.len() && 0 <= j < files@.len() implies syntax_of(#[trigger] files@[i]) == syntax_of(#[trigger] files@[j]) by {
            assert(declares_syntax(files@, syntax_of(files@[i])));
            assert(declares_syntax(files@, syntax_of(files@[j])));
            assert(has_text(seen@, syntax_of(files@[i])));
            assert(has_text(seen@, syntax_of(files@[j])));
        }
    }
    Ok(seen.remove(0))
}


/// Whether some file imports the path `x`.
pub open spec fn imports_path(files: Seq<FileDescriptor>, x: Seq<char>) -> bool {
    exists|a: int| 0 <= a < files.len() && has_text(#[trigger] files[a].dependency@, x)
}

/// The public (or, when `weak`, the weak) import indices of a file.
pub open spec fn marks(f: FileDescriptor, weak: bool) -> Seq<i32> {
    if weak { f.weak_dependency@ } else { f.public_dependency@ }
}

/// Whether the file marks its import of `x` public (or weak).
pub open spec fn file_marks(f: FileDescriptor, weak: bool, x: Seq<char>) -> bool {
    exists|j: int|
        0 <= j < marks(f, weak).len() && 0 <= #[trigger] marks(f, weak)[j] < f.dependency@.len()
            && f.dependency@[marks(f, weak)[j] as int]@ == x
}

/// Whether some file marks its import of `x` public (or weak).
pub open spec fn marked(files: Seq<FileDescriptor>, weak: bool, x: Seq<char>) -> bool {
    exists|a: int| 0 <= a < files.len() && file_marks(#[trigger] files[a], weak, x)
}

/// The indices into `deps` of the paths that `marked` holds of, ascending.
pub open spec fn marked_indices(idx: Seq<i32>, deps: Seq<String>, files: Seq<FileDescriptor>, weak: bool) -> bool {
    &&& forall|a: int, b: int| 0 <= a < b < idx.len() ==> idx[a] < idx[b]
    &&& forall|a: int| 0 <= a < idx.len() ==> 0 <= #[trigger] idx[a] < deps.len()
    &&& forall|i: int|
        0 <= i < deps.len() && i <= i32::MAX ==> ((exists|a: int| 0 <= a < idx.len() && #[trigger] idx[a] == i)
            <==> marked(files, weak, #[trigger] deps[i]@))
}

/// Imports of a merged file.
pub struct ImportSet {
    pub dependency: Vec<String>,
    pub public_dependency: Vec<i32>,
    pub weak_dependency: Vec<i32>,
}

fn add_paths(deps: &mut Vec<String>, paths: &Vec<String>)
    requires
        strictly_sorted(old(deps)@),
    ensures
        strictly_sorted(final(deps)@),
        forall|x: Seq<char>| #[trigger] has_text(final(deps)@, x) <==> (has_text(old(deps)@, x) || has_text(paths@, x)),
{
    let ghost start = deps@;
    let mut j: usize = 0;
    while j < paths.len()
        invariant
            j <= paths@.len(),
            strictly_sorted(deps@),
            forall|x: Seq<char>| #[trigger] has_text(deps@, x) <==> (has_text(start, x) || has_text(paths@.take(j as int), x)),
        decreases paths@.len() - j,
    {
        let p = paths[j].clone();
        insert_unique(deps, p);
        proof {
            assert forall|x: Seq<char>| #[trigger] has_text(deps@, x) <==> (has_text(start, x) || has_text(paths@.take(j as int + 1), x)) by {
                let t = paths@.take(j as int + 1);
                if has_text(t, x) {
                    let i = choose|i: int| 0 <= i < t.len() && #[trigger] t[i]@ == x;
                    if i < j {
                        assert(paths@.take(j as int)[i] == t[i]);
                    }
                }
                if has_text(paths@.take(j as int), x) {
                    let i = choose|i: int| 0 <= i < j && #[trigger] paths@.take(j as int)[i]@ == x;
                    assert(t[i] == paths@.take(j as int)[i]);
                }
                assert(t[j as int] == paths@[j as int]);
            }
        }
        j = j + 1;
    }
    assert(paths@.take(j as int) =~= paths@);
}

fn file_marks_path(f: &FileDescriptor, weak: bool, x: &str) -> (r: bool)
    ensures
        r == file_marks(*f, weak, x@),
{
    let m = if weak { &f.weak_dependency } else { &f.public_dependency };
    let mut j: usize = 0;
    while j < m.len()
        invariant
            j <= m@.len(),
            m@ == marks(*f, weak),
            forall|q: int|
                0 <= q < j ==> !(0 <= #[trigger] marks(*f, weak)[q] < f.dependency@.len() && f.dependency@[marks(
                    *f,
                    weak,
                )[q] as int]@ == x@),
        decreases m@.len() - j,
    {
        let d = m[j];
        if d >= 0 && (d as usize) < f.dependency.len() {
            if str_eq(f.dependency[d as usize].as_str(), x) {
                return true;
            }
        }
        j = j + 1;
    }
    false
}

fn is_marked_path(files: &Vec<FileDescriptor>, weak: bool, x: &str) -> (r: bool)
    ensures
        r == marked(files@, weak, x@),
{
    let mut a: usize = 0;
    while a < files.len()
        invariant
            a <= files@.len(),
            forall|q: int| 0 <= q < a ==> !file_marks(#[trigger] files@[q], weak, x@),
        decreases files@.len() - a,
    {
        if file_marks_path(&files[a], weak, x) {
            return true;
        }
        a = a + 1;
    }
    false
}

fn marked_list(deps: &Vec<String>, files: &Vec<FileDescriptor>, weak: bool) -> (r: Vec<i32>)
    ensures
        marked_indices(r@, deps@, files@, weak),
{
    let mut r: Vec<i32> = Vec::new();
    let mut i: usize = 0;
    while i < deps.len()
        invariant
            i <= deps@.len(),
            forall|a: int, b: int| 0 <= a < b < r@.len() ==> r@[a] < r@[b],
            forall|a: int| 0 <= a < r@.len() ==> 0 <= #[trigger] r@[a] < i,
            forall|q: int|
                0 <= q < i && q <= i32::MAX ==> ((exists|a: int| 0 <= a < r@.len() && #[trigger] r@[a] == q)
                    <==> marked(files@, weak, #[trigger] deps@[q]@)),
        decreases deps@.len() - i,
    {
        if i <= 2147483647 && is_marked_path(files, weak, deps[i].as_str()) {
            let ghost old_r = r@;
            r.push(i as i32);
            assert forall|q: int|
                0 <= q < i + 1 && q <= i32::MAX implies ((exists|a: int| 0 <= a < r@.len() && #[trigger] r@[a] == q)
                    <==> marked(files@, weak, #[trigger] deps@[q]@)) by {
                if q < i {
                    if exists|a: int| 0 <= a < r@.len() && #[trigger] r@[a] == q {
                        let a = choose|a: int| 0 <= a < r@.len() && #[trigger] r@[a] == q;
                        assert(a < old_r.len());
                        assert(old_r[a] == q);
                    }
                    if exists|a: int| 0 <= a < old_r.len() && #[trigger] old_r[a] == q {
                        let a = choose|a: int| 0 <= a < old_r.len() && #[trigger] old_r[a] == q;
                        assert(r@[a] == q);
                    }
                } else {
                    assert(r@[r@.len() - 1] == q);
                }
            }
        } else {
            assert forall|q: int|
                0 <= q < i + 1 && q <= i32::MAX implies ((exists|a: int| 0 <= a < r@.len() && #[trigger] r@[a] == q)
                    <==> marked(files@, weak, #[trigger] deps@[q]@)) by {
                if q == i {
                    if exists|a: int| 0 <= a < r@.len() && #[trigger] r@[a] == q {
                        let a = choose|a: int| 0 <= a < r@.len() && #[trigger] r@[a] == q;
                        assert(r@[a] < i);
                    }
                }
            }
        }
        i = i + 1;
    }
    r
}

/// The imports of a package group: every imported path once, ascending,
/// with the public and weak marks of any file carried over.
pub fn merge_imports(files: &Vec<FileDescriptor>) -> (r: ImportSet)
    ensures
        strictly_sorted(r.dependency@),
        forall|x: Seq<char>| #[trigger] has_text(r.dependency@, x) <==> imports_path(files@, x),
        marked_indices(r.public_dependency@, r.dependency@, files@, false),
        marked_indices(r.weak_dependency@, r.dependency@, files@, true),
{
    let mut deps: Vec<String> = Vec::new();
    let mut a: usize = 0;
    while a < files.len()
        invariant
            a <= files@.len(),
            strictly_sorted(deps@),
            forall|x: Seq<char>| #[trigger] has_text(deps@, x) <==> imports_path(files@.take(a as int), x),
        decreases files@.len() - a,
    {
        let ghost before = deps@;
        add_paths(&mut deps, &files[a].dependency);
        proof {
            assert forall|x: Seq<char>| #[trigger] has_text(deps@, x) <==> imports_path(files@.take(a as int + 1), x) by {
                let t = files@.take(a as int + 1);
                assert(has_text(deps@, x) == (has_text(before, x) || has_text(files@[a as int].dependency@, x)));
                assert(has_text(before, x) == imports_path(files@.take(a as int), x));
                assert(t[a as int] == files@[a as int]);
                if has_text(files@[a as int].dependency@, x) {
                    assert(has_text(t[a as int].dependency@, x));
                }
                if imports_path(t, x) {
                    let q = choose|q: int| 0 <= q < t.len() && has_text(#[trigger] t[q].dependency@, x);
                    if q < a {
                        assert(files@.take(a as int)[q] == t[q]);
                        assert(has_text(files@.take(a as int)[q].dependency@, x));
                    }
                }
                if imports_path(files@.take(a as int), x) {
                    let q = choose|q: int| 0 <= q < a && has_text(#[trigger] files@.take(a as int)[q].dependency@, x);
                    assert(t[q] == files@.take(a as int)[q]);
                    assert(has_text(t[q].dependency@, x));
                }
                assert(t[a as int] == files@[a as int]);
            }
        }
        a = a + 1;
    }
    assert(files@.take(a as int) =~= files@);
    let public_dependency = marked_list(&deps, files, false);
    let weak_dependency = marked_list(&deps, files, true);
    ImportSet { dependency: deps, public_dependency, weak_dependency }
}


fn copy_text(o: &Option<String>) -> (r: Option<String>)
    ensures
        r == *o,
{
    match o {
        Some(s) => Some(s.clone()),
        None => None,
    }
}

/// An exact copy of file options.
pub fn copy_file_options(o: &FileOptions) -> (r: FileOptions)
    ensures
        r == *o,
{
    FileOptions {
        java_package: copy_text(&o.java_package),
        java_outer_classname: copy_text(&o.java_outer_classname),
        java_multiple_files: o.java_multiple_files,
        java_string_check_utf8: o.java_string_check_utf8,
        go_package: copy_text(&o.go_package),
        optimize_for: o.optimize_for,
        cc_enable_arenas: o.cc_enable_arenas,
        cc_generic_services: o.cc_generic_services,
        java_generic_services: o.java_generic_services,
        py_generic_services: o.py_generic_services,
        objc_class_prefix: copy_text(&o.objc_class_prefix),
        csharp_namespace: copy_text(&o.csharp_namespace),
        swift_prefix: copy_text(&o.swift_prefix),
        php_class_prefix: copy_text(&o.php_class_prefix),
        php_namespace: copy_text(&o.php_namespace),
        php_metadata_namespace: copy_text(&o.php_metadata_namespace),
        ruby_package: copy_text(&o.ruby_package),
    }
}

/// Whether a later file sets an option to a value other than the merged one.
pub open spec fn conflicts(merged: Option<String>, later: Option<String>) -> bool {
    later is Some && opt_view(later) != opt_view(merged)
}

/// The merged value of an option: the first file's, absent when the first
/// file has no options.
pub open spec fn merged_option(files: Seq<FileDescriptor>, go: bool) -> Option<String> {
    match files[0].options {
        Some(m) => if go { m.go_package } else { m.java_package },
        None => None,
    }
}

/// The warnings for the file at index `idx`: one for each of
/// `java_package` and `go_package` that it sets to a value other than the
/// merged one.
pub open spec fn option_warnings_at(files: Seq<FileDescriptor>, idx: int) -> Seq<Seq<char>> {
    match files[idx].options {
        Some(o) => (if conflicts(merged_option(files, false), o.java_package) {
            seq!["File #"@ + nat_text(idx as nat) + ": "@ + "java_package"@ + " option conflict (using first occurrence)"@]
        } else {
            Seq::empty()
        }) + (if conflicts(merged_option(files, true), o.go_package) {
            seq!["File #"@ + nat_text(idx as nat) + ": "@ + "go_package"@ + " option conflict (using first occurrence)"@]
        } else {
            Seq::empty()
        }),
        None => Seq::empty(),
    }
}

/// The option-conflict warnings of the files after the first, in order.
pub open spec fn option_warnings(files: Seq<FileDescriptor>, upto: int) -> Seq<Seq<char>>
    decreases upto,
{
    if upto <= 1 {
        Seq::empty()
    } else {
        option_warnings(files, upto - 1) + option_warnings_at(files, upto - 1)
    }
}

fn same_text(a: &Option<String>, b: &Option<String>) -> (r: bool)
    ensures
        r == (opt_view(*a) == opt_view(*b)),
{
    match (a, b) {
        (Some(x), Some(y)) => str_eq(x.as_str(), y.as_str()),
        (None, None) => true,
        _ => false,
    }
}

fn conflict_line(idx: usize, option: &str) -> (r: String)
    ensures
        r@ == "File #"@ + nat_text(idx as nat) + ": "@ + option@ + " option conflict (using first occurrence)"@,
{
    let mut s = String::new();
    push_str(&mut s, "File #");
    push_nat(&mut s, idx as u64);
    push_str(&mut s, ": ");
    push_str(&mut s, option);
    push_str(&mut s, " option conflict (using first occurrence)");
    assert(s@ =~= "File #"@ + nat_text(idx as nat) + ": "@ + option@ + " option conflict (using first occurrence)"@);
    s
}

/// The merged file options, the first file's (none without files), and the
/// warnings for later files that set `java_package` or `go_package` to a
/// value other than the merged one (an absent merged value included).
pub fn merge_file_options(files: &Vec<FileDescriptor>, warnings: &mut Vec<String>) -> (r: Option<FileOptions>)
    ensures
        r == if files@.len() > 0 { files@[0].options } else { None },
        views(final(warnings)@) == views(old(warnings)@) + option_warnings(files@, files@.len() as int),
{
    if files.len() == 0 {
        assert(views(warnings@) =~= views(warnings@) + option_warnings(files@, 0));
        return None;
    }
    let merged = match &files[0].options {
        Some(o) => Some(copy_file_options(o)),
        None => None,
    };
    let (java, go): (Option<String>, Option<String>) = match &merged {
        Some(m) => (copy_text(&m.java_package), copy_text(&m.go_package)),
        None => (None, None),
    };
    let ghost start = views(warnings@);
    let mut idx: usize = 1;
    assert(views(warnings@) =~= start + option_warnings(files@, 1));
    while idx < files.len()
        invariant
            1 <= idx <= files@.len(),
            merged == files@[0].options,
            java == merged_option(files@, false),
            go == merged_option(files@, true),
            views(warnings@) == start + option_warnings(files@, idx as int),
        decreases files@.len() - idx,
    {
        let ghost before = views(warnings@);
        match &files[idx].options {
            Some(o) => {
                if o.java_package.is_some() && !same_text(&o.java_package, &java) {
                    warnings.push(conflict_line(idx, "java_package"));
                }
                if o.go_package.is_some() && !same_text(&o.go_package, &go) {
                    warnings.push(conflict_line(idx, "go_package"));
                }
            },
            None => {},
        }
        proof {
            assert(views(warnings@) =~= before + option_warnings_at(files@, idx as int));
        }
        idx = idx + 1;
    }
    merged
}


/// The items of all lists, list after list.
pub open spec fn flat<T>(ls: Seq<Vec<T>>) -> Seq<T>
    decreases ls.len(),
{
    if ls.len() == 0 {
        Seq::empty()
    } else {
        flat(ls.drop_last()) + ls.last()@
    }
}

/// No two items share a name.
pub open spec fn names_distinct<T: Named>(s: Seq<T>) -> bool {
    forall|i: int, j: int| 0 <= i < j < s.len() ==> #[trigger] s[i].name_view() != #[trigger] s[j].name_view()
}

/// Whether position `pos` of the joined lists falls in list `c`.
pub open spec fn in_list<T>(ls: Seq<Vec<T>>, pos: int, c: int) -> bool {
    0 <= c < ls.len() && flat(ls.take(c)).len() <= pos < flat(ls.take(c + 1)).len()
}

/// Positions `i < j` of the joined lists both named `x`, in lists `a` and
/// `b`, with no name repeated before `j`: `j` is the first repeat in scan
/// order and `i` the place where its name was first seen.
pub open spec fn repeat_at<T: Named>(ls: Seq<Vec<T>>, x: Seq<char>, a: int, b: int, i: int, j: int) -> bool {
    let fl = flat(ls);
    &&& 0 <= i < j < fl.len()
    &&& names_distinct(fl.take(j))
    &&& fl[i].name_view() == x
    &&& fl[j].name_view() == x
    &&& in_list(ls, i, a)
    &&& in_list(ls, j, b)
}

/// The first name repeated in scan order (lists in order, items in order)
/// is `x`; it was first seen in list `a` and repeated in list `b`.
pub open spec fn first_repeat<T: Named>(ls: Seq<Vec<T>>, x: Seq<char>, a: int, b: int) -> bool {
    exists|i: int, j: int| #[trigger] repeat_at(ls, x, a, b, i, j)
}

proof fn lemma_flat_split<T>(ls: Seq<Vec<T>>, m: int)
    requires
        0 <= m <= ls.len(),
    ensures
        flat(ls) == flat(ls.take(m)) + flat(ls.skip(m)),
    decreases ls.len(),
{
    if m == ls.len() {
        assert(ls.take(m) =~= ls);
        assert(ls.skip(m) =~= Seq::<Vec<T>>::empty());
        assert(flat(ls) + Seq::<T>::empty() =~= flat(ls));
    } else {
        let dl = ls.drop_last();
        lemma_flat_split(dl, m);
        assert(dl.take(m) =~= ls.take(m));
        assert(ls.skip(m).drop_last() =~= dl.skip(m));
        assert(flat(ls) =~= flat(ls.take(m)) + flat(ls.skip(m)));
    }
}

/// The items of all lists are those of a prefix of lists followed by those
/// of the rest.
pub proof fn lemma_flat_split_pub<T>(ls: Seq<Vec<T>>, m: int)
    requires
        0 <= m <= ls.len(),
    ensures
        flat(ls) == flat(ls.take(m)) + flat(ls.skip(m)),
{
    lemma_flat_split(ls, m);
}

proof fn lemma_flat_step<T>(ls: Seq<Vec<T>>, k: int)
    requires
        0 <= k < ls.len(),
    ensures
        flat(ls.take(k + 1)) == flat(ls.take(k)) + ls[k]@,
{
    assert(ls.take(k + 1).drop_last() =~= ls.take(k));
}

/// Top-level definitions of one kind gathered from the files' lists: an
/// error on the first name seen twice in scan order, naming the list where
/// it was first seen, else all of them by ascending name.
pub fn collect_named<T: Named>(lists: Vec<Vec<T>>, kind: SymbolKind) -> (r: Result<Vec<T>, MergeError>)
    ensures
        r is Ok <==> names_distinct(flat(lists@)),
        r is Ok ==> r->Ok_0@ == stable_sort(flat(lists@), name_lt::<T>()),
        r is Err ==> (r->Err_0 matches MergeError::DuplicateSymbol { kind: k, name, first_file, second_file } && k
            == kind && first_repeat(lists@, name@, first_file as int, second_file as int)),
{
    let ghost ls = lists@;
    let n = lists.len();
    let mut rest = lists;
    let mut all: Vec<T> = Vec::new();
    let mut owners: Vec<usize> = Vec::new();
    let mut k: usize = 0;
    assert(ls.skip(0) =~= ls);
    assert(ls.take(0) =~= Seq::<Vec<T>>::empty());
    while rest.len() > 0
        invariant
            k <= n,
            ls.len() == n,
            ls == lists@,
            rest@ == ls.skip(k as int),
            rest@.len() == n - k,
            all@ == flat(ls.take(k as int)),
            names_distinct(all@),
            owners@.len() == all@.len(),
            forall|q: int| 0 <= q < all@.len() ==> #[trigger] owners@[q] < k && in_list(ls, q, owners@[q] as int),
        decreases rest@.len(),
    {
        let mut cur = rest.remove(0);
        assert(cur@ == ls[k as int]@);
        let ghost whole = cur@;
        let ghost base = all@;
        let m = cur.len();
        let mut j: usize = 0;
        assert(whole.skip(0) =~= whole);
        assert(whole.take(0) =~= Seq::<T>::empty());
        while cur.len() > 0
            invariant
                k < n,
                ls.len() == n,
                ls == lists@,
            ls == lists@,
                whole == ls[k as int]@,
                m == whole.len(),
                j <= m,
                cur@ == whole.skip(j as int),
                cur@.len() == m - j,
                base == flat(ls.take(k as int)),
                all@ == base + whole.take(j as int),
                names_distinct(all@),
                owners@.len() == all@.len(),
                forall|q: int| 0 <= q < all@.len() ==> #[trigger] owners@[q] <= k && in_list(ls, q, owners@[q] as int),
            decreases cur@.len(),
        {
            let item = cur.remove(0);
            assert(item == whole[j as int]);
            let mut q: usize = 0;
            while q < all.len()
                invariant
                    q <= all@.len(),
                    forall|x: int| 0 <= x < q ==> (#[trigger] all@[x]).name_view() != item.name_view(),
                    k < n,
                    ls.len() == n,
                    ls == lists@,
                ls == lists@,
            ls == lists@,
                    whole == ls[k as int]@,
                    m == whole.len(),
                    j < m,
                    item == whole[j as int],
                    base == flat(ls.take(k as int)),
                    all@ == base + whole.take(j as int),
                    owners@.len() == all@.len(),
                    names_distinct(all@),
                    forall|x: int| 0 <= x < all@.len() ==> #[trigger] owners@[x] <= k && in_list(ls, x, owners@[x] as int),
                decreases all@.len() - q,
            {
                if str_eq(all[q].name_str(), item.name_str()) {
                    let ghost a = owners@[q as int] as int;
                    proof {
                        lemma_flat_split(ls, k as int + 1);
                        lemma_flat_step(ls, k as int);
                        let fl = flat(ls);
                        assert(fl[q as int] == all@[q as int]);
                        assert(fl[all@.len() as int] == item);
                        assert(fl =~= base + whole + flat(ls.skip(k as int + 1)));
                        assert(fl[q as int].name_view() == fl[all@.len() as int].name_view());
                        assert(!names_distinct(fl));
                        assert(fl.take(all@.len() as int) =~= all@);
                        assert(in_list(ls, q as int, a));
                        assert(in_list(ls, all@.len() as int, k as int));
                        assert(repeat_at(ls, item.name_view(), a, k as int, q as int, all@.len() as int));
                    }
                    let name = item.name_str().to_owned();
                    return Err(MergeError::DuplicateSymbol { kind, name, first_file: owners[q], second_file: k });
                }
                q = q + 1;
            }
            all.push(item);
            owners.push(k);
            proof {
                lemma_flat_step(ls, k as int);
                assert(in_list(ls, all@.len() - 1, k as int));
                assert(whole.take(j as int + 1) =~= whole.take(j as int).push(item));
                assert(whole.skip(j as int + 1) =~= whole.skip(j as int).drop_first());
                assert forall|x: int, y: int| 0 <= x < y < all@.len() implies #[trigger] all@[x].name_view()
                    != #[trigger] all@[y].name_view() by {
                    if y == all@.len() - 1 {
                        assert(all@[y] == item);
                    }
                }
            }
            j = j + 1;
        }
        proof {
            assert(whole.take(j as int) =~= whole);
            lemma_flat_step(ls, k as int);
            assert(ls.skip(k as int + 1) =~= ls.skip(k as int).drop_first());
        }
        k = k + 1;
    }
    assert(ls.take(k as int) =~= ls);
    let ghost lt = name_lt::<T>();
    let sorted = sort_with(
        all,
        &(|a: &T, b: &T| -> (c: bool)
            ensures
                c == named_first(a, b),
            { named_before(a, b) }),
        Ghost(lt),
    );
    Ok(sorted)
}

spec fn named_first<T: Named>(a: &T, b: &T) -> bool {
    name_lt::<T>()(*a, *b)
}

fn named_before<T: Named>(a: &T, b: &T) -> (c: bool)
    ensures
        c == named_first(a, b),
{
    str_lt(a.name_str(), b.name_str())
}


/// Order of extendees when merging: absent first, then by name.
pub open spec fn extendee_lt(a: Option<String>, b: Option<String>) -> bool {
    match (a, b) {
        (None, Some(_)) => true,
        (Some(x), Some(y)) => text_lt(x@, y@),
        _ => false,
    }
}

/// Order of merged file-level extensions: by extendee, then by number.
pub open spec fn merged_extension_lt() -> spec_fn(Field, Field) -> bool {
    |a: Field, b: Field| extendee_lt(a.extendee, b.extendee) || (opt_view(a.extendee) == opt_view(b.extendee) && a.number < b.number)
}

spec fn extension_first(a: &Field, b: &Field) -> bool {
    merged_extension_lt()(*a, *b)
}

fn extension_before(a: &Field, b: &Field) -> (c: bool)
    ensures
        c == extension_first(a, b),
{
    let lt = match (&a.extendee, &b.extendee) {
        (None, Some(_)) => true,
        (Some(x), Some(y)) => str_lt(x.as_str(), y.as_str()),
        _ => false,
    };
    lt || (same_text(&a.extendee, &b.extendee) && a.number < b.number)
}

/// The items of all lists, list after list.
fn concat_lists<T>(lists: Vec<Vec<T>>) -> (r: Vec<T>)
    ensures
        r@ == flat(lists@),
{
    let ghost ls = lists@;
    let n = lists.len();
    let mut rest = lists;
    let mut all: Vec<T> = Vec::new();
    let mut k: usize = 0;
    assert(ls.skip(0) =~= ls);
    assert(ls.take(0) =~= Seq::<Vec<T>>::empty());
    while rest.len() > 0
        invariant
            k <= n,
            ls.len() == n,
            rest@ == ls.skip(k as int),
            rest@.len() == n - k,
            all@ == flat(ls.take(k as int)),
        decreases rest@.len(),
    {
        let mut cur = rest.remove(0);
        let ghost whole = cur@;
        let ghost base = all@;
        assert(whole == ls[k as int]@);
        let m = cur.len();
        let mut j: usize = 0;
        assert(whole.skip(0) =~= whole);
        assert(whole.take(0) =~= Seq::<T>::empty());
        while cur.len() > 0
            invariant
                m == whole.len(),
                j <= m,
                cur@ == whole.skip(j as int),
                cur@.len() == m - j,
                all@ == base + whole.take(j as int),
            decreases cur@.len(),
        {
            let item = cur.remove(0);
            assert(item == whole[j as int]);
            all.push(item);
            assert(whole.take(j as int + 1) =~= whole.take(j as int).push(item));
            assert(whole.skip(j as int + 1) =~= whole.skip(j as int).drop_first());
            j = j + 1;
        }
        proof {
            assert(whole.take(j as int) =~= whole);
            lemma_flat_step(ls, k as int);
            assert(ls.skip(k as int + 1) =~= ls.skip(k as int).drop_first());
        }
        k = k + 1;
    }
    assert(ls.take(k as int) =~= ls);
    all
}

/// File-level extensions of all files, by extendee and then by number.
pub fn merge_extensions(lists: Vec<Vec<Field>>) -> (r: Vec<Field>)
    ensures
        r@ == stable_sort(flat(lists@), merged_extension_lt()),
{
    let all = concat_lists(lists);
    let ghost lt = merged_extension_lt();
    sort_with(
        all,
        &(|a: &Field, b: &Field| -> (c: bool)
            ensures
                c == extension_first(a, b),
            { extension_before(a, b) }),
        Ghost(lt),
    )
}

/// Top-level messages of all files, file after file.
pub open spec fn all_messages(files: Seq<FileDescriptor>) -> Seq<Message> {
    flat(Seq::new(files.len(), |i: int| files[i].message_type))
}

/// Top-level enums of all files, file after file.
pub open spec fn all_enums(files: Seq<FileDescriptor>) -> Seq<EnumType> {
    flat(Seq::new(files.len(), |i: int| files[i].enum_type))
}

/// Services of all files, file after file.
pub open spec fn all_services(files: Seq<FileDescriptor>) -> Seq<Service> {
    flat(Seq::new(files.len(), |i: int| files[i].service))
}

/// File-level extensions of all files, file after file.
pub open spec fn all_extensions(files: Seq<FileDescriptor>) -> Seq<Field> {
    flat(Seq::new(files.len(), |i: int| files[i].extension))
}

/// Whether a package group merges: one syntax, and no name declared twice
/// among top-level messages, among enums or among services.
pub open spec fn merges(files: Seq<FileDescriptor>) -> bool {
    same_syntax(files) && names_distinct(all_messages(files)) && names_distinct(all_enums(files)) && names_distinct(
        all_services(files),
    )
}

/// Whether `e` is the error that merging the group `files` reports: a
/// syntax conflict first, then a duplicate message, enum or service.
pub open spec fn group_error(files: Seq<FileDescriptor>, e: MergeError) -> bool {
    match e {
        MergeError::SyntaxConflict { syntaxes } => !same_syntax(files) && strictly_sorted(syntaxes@) && (forall|
            x: Seq<char>,
        | #[trigger] has_text(syntaxes@, x) <==> declares_syntax(files, x)),
        MergeError::DuplicateSymbol { kind, name, first_file, second_file } => same_syntax(files) && match kind {
            SymbolKind::Message => first_repeat(
                Seq::new(files.len(), |i: int| files[i].message_type),
                name@,
                first_file as int,
                second_file as int,
            ),
            SymbolKind::Enum => names_distinct(all_messages(files)) && first_repeat(
                Seq::new(files.len(), |i: int| files[i].enum_type),
                name@,
                first_file as int,
                second_file as int,
            ),
            SymbolKind::Service => names_distinct(all_messages(files)) && names_distinct(all_enums(files))
                && first_repeat(
                Seq::new(files.len(), |i: int| files[i].service),
                name@,
                first_file as int,
                second_file as int,
            ),
        },
    }
}

/// Whether `m` is the merge of the group `files` of the package `package`.
pub open spec fn merged_from(files: Seq<FileDescriptor>, package: Seq<char>, m: FileDescriptor) -> bool {
    &&& m.syntax is Some
    &&& m.syntax->0@ == if files.len() > 0 { syntax_of(files[0]) } else { "proto2"@ }
    &&& package.len() == 0 ==> m.package is None
    &&& package.len() > 0 ==> m.package is Some && m.package->0@ == package
    &&& strictly_sorted(m.dependency@)
    &&& forall|x: Seq<char>| #[trigger] has_text(m.dependency@, x) <==> imports_path(files, x)
    &&& marked_indices(m.public_dependency@, m.dependency@, files, false)
    &&& marked_indices(m.weak_dependency@, m.dependency@, files, true)
    &&& m.options == if files.len() > 0 { files[0].options } else { None }
    &&& m.message_type@ == stable_sort(all_messages(files), name_lt::<Message>())
    &&& m.enum_type@ == stable_sort(all_enums(files), name_lt::<EnumType>())
    &&& m.service@ == stable_sort(all_services(files), name_lt::<Service>())
    &&& m.extension@ == stable_sort(all_extensions(files), merged_extension_lt())
}

/// A merged descriptor with the warnings raised while merging.
pub struct MergedFile {
    pub descriptor: FileDescriptor,
    pub warnings: Vec<String>,
}

/// Merges the files of one package into one descriptor.
pub fn merge_files(package: String, files: Vec<FileDescriptor>) -> (r: Result<MergedFile, MergeError>)
    ensures
        r is Ok <==> merges(files@),
        r is Ok ==> merged_from(files@, package@, r->Ok_0.descriptor) && views(r->Ok_0.warnings@)
            == option_warnings(files@, files@.len() as int),
        r is Err ==> group_error(files@, r->Err_0),
{
    let syntax = match validate_syntax_consistency(&files) {
        Ok(s) => s,
        Err(e) => {
            return Err(e);
        },
    };
    let imports = merge_imports(&files);
    let mut warnings: Vec<String> = Vec::new();
    assert(views(warnings@) =~= Seq::<Seq<char>>::empty());
    let options = merge_file_options(&files, &mut warnings);
    assert(views(warnings@) =~= option_warnings(files@, files@.len() as int));
    let ghost fs = files@;
    let n = files.len();
    let mut rest = files;
    let mut msgs: Vec<Vec<Message>> = Vec::new();
    let mut enums: Vec<Vec<EnumType>> = Vec::new();
    let mut services: Vec<Vec<Service>> = Vec::new();
    let mut exts: Vec<Vec<Field>> = Vec::new();
    let mut k: usize = 0;
    assert(fs.skip(0) =~= fs);
    while rest.len() > 0
        invariant
            k <= n,
            fs.len() == n,
            rest@ == fs.skip(k as int),
            rest@.len() == n - k,
            msgs@ =~= Seq::new(k as nat, |i: int| fs[i].message_type),
            enums@ =~= Seq::new(k as nat, |i: int| fs[i].enum_type),
            services@ =~= Seq::new(k as nat, |i: int| fs[i].service),
            exts@ =~= Seq::new(k as nat, |i: int| fs[i].extension),
        decreases rest@.len(),
    {
        let f = rest.remove(0);
        assert(f == fs[k as int]);
        msgs.push(f.message_type);
        enums.push(f.enum_type);
        services.push(f.service);
        exts.push(f.extension);
        assert(fs.skip(k as int + 1) =~= fs.skip(k as int).drop_first());
        k = k + 1;
    }
    let message_type = match collect_named(msgs, SymbolKind::Message) {
        Ok(v) => v,
        Err(e) => {
            return Err(e);
        },
    };
    let enum_type = match collect_named(enums, SymbolKind::Enum) {
        Ok(v) => v,
        Err(e) => {
            return Err(e);
        },
    };
    let service = match collect_named(services, SymbolKind::Service) {
        Ok(v) => v,
        Err(e) => {
            return Err(e);
        },
    };
    let extension = merge_extensions(exts);
    let package_field = if package.as_str().unicode_len() == 0 {
        None
    } else {
        Some(package)
    };
    let descriptor = FileDescriptor {
        syntax: Some(syntax),
        package: package_field,
        dependency: imports.dependency,
        public_dependency: imports.public_dependency,
        weak_dependency: imports.weak_dependency,
        message_type,
        enum_type,
        service,
        extension,
        options,
    };
    Ok(MergedFile { descriptor, warnings })
}


/// Result of merging the files of one package.
#[derive(Debug, Clone)]
pub struct MergeResult {
    /// Package name; empty for files without a package declaration.
    pub package_name: String,
    /// Canonical text of the merged package.
    pub content: String,
    /// Fingerprint of `content`.
    pub fingerprint: String,
    /// Non-fatal warnings raised while merging.
    pub warnings: Vec<String>,
}

/// Whether `res` is the result of merging the group `files` of its package.
pub open spec fn result_of(files: Seq<FileDescriptor>, res: MergeResult) -> bool {
    &&& exists|m: FileDescriptor|
        merged_from(files, res.package_name@, m) && #[trigger] file_text(m, default_options()) == res.content@
    &&& res.fingerprint@ == fingerprint_of(res.content@)
    &&& res.fingerprint@.len() == 64
    &&& views(res.warnings@) == option_warnings(files, files.len() as int)
}

/// Merges the files of one package and renders the merged descriptor as
/// canonical text with its fingerprint.
pub fn merge_package_group(package: String, files: Vec<FileDescriptor>) -> (r: Result<MergeResult, MergeError>)
    ensures
        r is Ok <==> merges(files@),
        r is Ok ==> r->Ok_0.package_name@ == package@ && result_of(files@, r->Ok_0),
        r is Err ==> group_error(files@, r->Err_0),
{
    let name = package.clone();
    let merged = match merge_files(package, files) {
        Ok(m) => m,
        Err(e) => {
            return Err(e);
        },
    };
    let content = descriptor_to_proto(&merged.descriptor);
    let fingerprint = fingerprint(content.as_str());
    let res = MergeResult { package_name: name, content, fingerprint, warnings: merged.warnings };
    assert(merged_from(files@, res.package_name@, merged.descriptor));
    assert(file_text(merged.descriptor, default_options()) == res.content@);
    Ok(res)
}

/// Whether `rs` holds, by strictly ascending package name, one result for
/// each package that some file of `files` declares, each the merge of that
/// package's files.
pub open spec fn results_for(files: Seq<FileDescriptor>, rs: Seq<MergeResult>) -> bool {
    &&& forall|i: int, j: int| 0 <= i < j < rs.len() ==> text_lt(#[trigger] rs[i].package_name@, #[trigger] rs[j].package_name@)
    &&& forall|i: int| 0 <= i < rs.len() ==> result_of(files.filter(in_package(#[trigger] rs[i].package_name@)), rs[i])
    &&& forall|i: int| 0 <= i < rs.len() ==> declared(files, #[trigger] rs[i].package_name@)
    &&& forall|j: int| 0 <= j < files.len() ==> has_result(rs, package_key(#[trigger] files[j]))
}

/// Whether some file declares the package `k`.
pub open spec fn declared(files: Seq<FileDescriptor>, k: Seq<char>) -> bool {
    exists|j: int| 0 <= j < files.len() && package_key(#[trigger] files[j]) == k
}

/// Whether some result is for the package `k`.
pub open spec fn has_result(rs: Seq<MergeResult>, k: Seq<char>) -> bool {
    exists|i: int| 0 <= i < rs.len() && #[trigger] rs[i].package_name@ == k
}

/// Whether `e` is the error of the package `k` and every package before it
/// (in ascending order) merges.
pub open spec fn fails_first(files: Seq<FileDescriptor>, k: Seq<char>, e: MergeError) -> bool {
    &&& group_error(files.filter(in_package(k)), e)
    &&& forall|j: int|
        0 <= j < files.len() && text_lt(package_key(#[trigger] files[j]), k) ==> merges(
            files.filter(in_package(package_key(files[j]))),
        )
}

/// Whether `e` is the error of the first package, in ascending order, that
/// does not merge.
pub open spec fn first_failure(files: Seq<FileDescriptor>, e: MergeError) -> bool {
    exists|j: int| 0 <= j < files.len() && #[trigger] fails_first(files, package_key(files[j]), e)
}

proof fn lemma_first_failure(fs: Seq<FileDescriptor>, gs: Seq<PackageGroup>, i: int, e: MergeError)
    requires
        0 <= i < gs.len(),
        strictly_sorted(gs),
        forall|q: int| 0 <= q < gs.len() ==> (#[trigger] gs[q]).files@ == fs.filter(in_package(gs[q].package@)),
        forall|q: int| 0 <= q < gs.len() ==> (#[trigger] gs[q]).files@.len() > 0,
        forall|j: int| 0 <= j < fs.len() ==> covers(gs, package_key(#[trigger] fs[j])),
        forall|q: int| 0 <= q < i ==> merges(#[trigger] gs[q].files@),
        group_error(gs[i].files@, e),
    ensures
        exists|j: int| 0 <= j < fs.len() && #[trigger] fails_first(fs, package_key(fs[j]), e),
{
    let j = lemma_group_witness(fs, gs[i].package@, gs[i].files@);
    let k = gs[i].package@;
    assert forall|j2: int| 0 <= j2 < fs.len() && text_lt(package_key(#[trigger] fs[j2]), k) implies merges(
        fs.filter(in_package(package_key(fs[j2]))),
    ) by {
        assert(covers(gs, package_key(fs[j2])));
        let q = choose|q: int| 0 <= q < gs.len() && #[trigger] gs[q].package@ == package_key(fs[j2]);
        lemma_text_lt_irreflexive(k);
        if q > i {
            assert(text_lt(gs[i].name_view(), gs[q].name_view()));
            lemma_text_lt_transitive(k, gs[q].package@, k);
        }
        assert(q < i);
        assert(merges(gs[q].files@));
    }
    assert(fails_first(fs, package_key(fs[j]), e));
}

proof fn lemma_group_witness(fs: Seq<FileDescriptor>, key: Seq<char>, g: Seq<FileDescriptor>) -> (j: int)
    requires
        g == fs.filter(in_package(key)),
        g.len() > 0,
    ensures
        0 <= j < fs.len(),
        package_key(fs[j]) == key,
{
    let f0 = g[0];
    fs.filter_lemma(in_package(key));
    assert(in_package(key)(g[0]));
    assert(g.contains(f0));
    fs.lemma_filter_contains_rev(in_package(key), f0);
    choose|j: int| 0 <= j < fs.len() && fs[j] == f0
}

proof fn lemma_results(fs: Seq<FileDescriptor>, gs: Seq<PackageGroup>, rs: Seq<MergeResult>)
    requires
        strictly_sorted(gs),
        forall|q: int| 0 <= q < gs.len() ==> (#[trigger] gs[q]).files@ == fs.filter(in_package(gs[q].package@)),
        forall|q: int| 0 <= q < gs.len() ==> (#[trigger] gs[q]).files@.len() > 0,
        forall|j: int| 0 <= j < fs.len() ==> covers(gs, package_key(#[trigger] fs[j])),
        rs.len() == gs.len(),
        forall|q: int| 0 <= q < rs.len() ==> (#[trigger] rs[q]).package_name@ == gs[q].package@,
        forall|q: int| 0 <= q < rs.len() ==> result_of(gs[q].files@, #[trigger] rs[q]),
        forall|q: int| 0 <= q < rs.len() ==> merges(#[trigger] gs[q].files@),
    ensures
        forall|j: int| 0 <= j < fs.len() ==> merges(fs.filter(in_package(package_key(#[trigger] fs[j])))),
        results_for(fs, rs),
{
    assert forall|j: int| 0 <= j < fs.len() implies merges(fs.filter(in_package(package_key(#[trigger] fs[j])))) by {
        assert(covers(gs, package_key(fs[j])));
        let q = choose|q: int| 0 <= q < gs.len() && #[trigger] gs[q].package@ == package_key(fs[j]);
        assert(merges(gs[q].files@));
    }
    assert forall|a: int, b: int| 0 <= a < b < rs.len() implies text_lt(#[trigger] rs[a].package_name@, #[trigger] rs[b].package_name@) by {
        assert(text_lt(gs[a].name_view(), gs[b].name_view()));
    }
    assert forall|q: int| 0 <= q < rs.len() implies result_of(fs.filter(in_package(#[trigger] rs[q].package_name@)), rs[q]) by {
        assert(result_of(gs[q].files@, rs[q]));
    }
    assert forall|q: int| 0 <= q < rs.len() implies declared(fs, #[trigger] rs[q].package_name@) by {
        let j = lemma_group_witness(fs, gs[q].package@, gs[q].files@);
        assert(package_key(fs[j]) == rs[q].package_name@);
    }
    assert forall|j: int| 0 <= j < fs.len() implies has_result(rs, package_key(#[trigger] fs[j])) by {
        assert(covers(gs, package_key(fs[j])));
        let q = choose|q: int| 0 <= q < gs.len() && #[trigger] gs[q].package@ == package_key(fs[j]);
        assert(rs[q].package_name@ == package_key(fs[j]));
    }
}

/// Merges files by package: one result per package, by ascending package
/// name, or the error of the first package (in that order) that does not
/// merge.
#[verifier::rlimit(60)]
pub fn merge_by_package(files: Vec<FileDescriptor>) -> (r: Result<Vec<MergeResult>, MergeError>)
    ensures
        r is Ok <==> forall|j: int| 0 <= j < files@.len() ==> merges(files@.filter(in_package(package_key(#[trigger] files@[j])))),
        r is Ok ==> results_for(files@, r->Ok_0@),
        r is Err ==> first_failure(files@, r->Err_0),
{
    let ghost fs = files@;
    let mut groups = group_by_package(files);
    let ghost gs = groups@;
    let mut results: Vec<MergeResult> = Vec::new();
    let mut i: usize = 0;
    let n = groups.len();
    assert(gs.skip(0) =~= gs);
    while groups.len() > 0
        invariant
            fs == files@,
            i <= n,
            gs.len() == n,
            groups@ == gs.skip(i as int),
            groups@.len() == n - i,
            strictly_sorted(gs),
            forall|q: int| 0 <= q < gs.len() ==> (#[trigger] gs[q]).files@ == fs.filter(in_package(gs[q].package@)),
            forall|q: int| 0 <= q < gs.len() ==> (#[trigger] gs[q]).files@.len() > 0,
            forall|j: int| 0 <= j < fs.len() ==> covers(gs, package_key(#[trigger] fs[j])),
            results@.len() == i,
            forall|q: int| 0 <= q < i ==> (#[trigger] results@[q]).package_name@ == gs[q].package@,
            forall|q: int| 0 <= q < i ==> result_of(gs[q].files@, #[trigger] results@[q]),
            forall|q: int| 0 <= q < i ==> merges(#[trigger] gs[q].files@),
        decreases groups@.len(),
    {
        let g = groups.remove(0);
        assert(g == gs[i as int]);
        assert(gs.skip(i as int + 1) =~= gs.skip(i as int).drop_first());
        let ghost gf = g.files@;
        match merge_package_group(g.package, g.files) {
            Ok(res) => {
                results.push(res);
            },
            Err(e) => {
                proof {
                    lemma_first_failure(fs, gs, i as int, e);
                    let j = choose|j: int| 0 <= j < fs.len() && #[trigger] fails_first(fs, package_key(fs[j]), e);
                    assert(fs == files@);
                    assert(fails_first(files@, package_key(files@[j]), e));
                    assert(first_failure(files@, e));
                }
                return Err(e);
            },
        }
        i = i + 1;
    }
    proof {
        lemma_results(fs, gs, results@);
    }
    Ok(results)
}

} // verus!
