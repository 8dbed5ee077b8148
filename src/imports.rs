//! The import paths of schema text that need stand-in files before the
//! text can be parsed: every `import` line's path, outside
//! `google/protobuf/`.
use vstd::prelude::*;
use vstd::string::*;
use crate::canonical::opt_line;
use crate::text::{str_eq, views};

verus! {

/// Whitespace as `char::is_whitespace` defines it (the Unicode
/// `White_Space` property).
pub open spec fn is_space(c: char) -> bool {
    c == ' ' || ('\t' <= c && c <= '\r') || c == '\u{85}' || c == '\u{a0}' || c == '\u{1680}' || ('\u{2000}' <= c
        && c <= '\u{200a}') || c == '\u{2028}' || c == '\u{2029}' || c == '\u{202f}' || c == '\u{205f}' || c
        == '\u{3000}'
}

/// A quote or a semicolon.
pub open spec fn is_quote_or_semi(c: char) -> bool {
    c == '"' || c == ';'
}

/// The characters that trimming removes: whitespace, or (with `quotes`)
/// quotes and semicolons.
pub open spec fn trimmed_char(c: char, quotes: bool) -> bool {
    if quotes { is_quote_or_semi(c) } else { is_space(c) }
}

/// `s` without the leading characters that trimming removes.
pub open spec fn trim_start(s: Seq<char>, quotes: bool) -> Seq<char>
    decreases s.len(),
{
    if s.len() > 0 && trimmed_char(s[0], quotes) {
        trim_start(s.drop_first(), quotes)
    } else {
        s
    }
}

/// `s` without the trailing characters that trimming removes.
pub open spec fn trim_end(s: Seq<char>, quotes: bool) -> Seq<char>
    decreases s.len(),
{
    if s.len() > 0 && trimmed_char(s.last(), quotes) {
        trim_end(s.drop_last(), quotes)
    } else {
        s
    }
}

/// `s` trimmed at both ends.
pub open spec fn trim(s: Seq<char>, quotes: bool) -> Seq<char> {
    trim_end(trim_start(s, quotes), quotes)
}

/// Whether `s` begins with `p`.
pub open spec fn starts_with(s: Seq<char>, p: Seq<char>) -> bool {
    p.len() <= s.len() && s.subrange(0, p.len() as int) == p
}

/// `s` without every leading repetition of `p`.
pub open spec fn strip_repeated(s: Seq<char>, p: Seq<char>) -> Seq<char>
    decreases s.len(),
{
    if p.len() > 0 && starts_with(s, p) {
        strip_repeated(s.skip(p.len() as int), p)
    } else {
        s
    }
}

/// The path of an import line that needs a stand-in file: the trimmed line
/// starts with `import `; the keywords, quotes, semicolon and whitespace
/// around the path are removed; standard imports need none.
pub open spec fn stub_target(line: Seq<char>) -> Option<Seq<char>> {
    let t = trim(line, false);
    if starts_with(t, "import "@) {
        let p = trim(
            trim(strip_repeated(strip_repeated(strip_repeated(t, "import "@), "public "@), "weak "@), true),
            false,
        );
        if starts_with(p, "google/protobuf/"@) {
            None
        } else {
            Some(p)
        }
    } else {
        None
    }
}

/// The stand-in paths of a sequence of lines, in order.
pub open spec fn stub_paths(lines: Seq<Seq<char>>) -> Seq<Seq<char>>
    decreases lines.len(),
{
    if lines.len() == 0 {
        Seq::empty()
    } else {
        stub_paths(lines.drop_last()) + opt_line(stub_target(lines.last()))
    }
}

fn is_trimmed_char(c: char, quotes: bool) -> (r: bool)
    ensures
        r == trimmed_char(c, quotes),
{
    if quotes {
        c == '"' || c == ';'
    } else {
        c == ' ' || ('\t' <= c && c <= '\r') || c == '\u{85}' || c == '\u{a0}' || c == '\u{1680}' || ('\u{2000}'
            <= c && c <= '\u{200a}') || c == '\u{2028}' || c == '\u{2029}' || c == '\u{202f}' || c == '\u{205f}'
            || c == '\u{3000}'
    }
}

/// `s` trimmed at both ends.
pub fn trim_text(s: &str, quotes: bool) -> (r: &str)
    ensures
        r@ == trim(s@, quotes),
{
    let n = s.unicode_len();
    let mut k: usize = 0;
    assert(s@.skip(0) =~= s@);
    while k < n && is_trimmed_char(s.get_char(k), quotes)
        invariant
            n == s@.len(),
            k <= n,
            trim_start(s@, quotes) == trim_start(s@.skip(k as int), quotes),
        decreases n - k,
    {
        assert(s@.skip(k as int).drop_first() =~= s@.skip(k as int + 1));
        k = k + 1;
    }
    let mut e: usize = n;
    assert(s@.skip(k as int) =~= s@.subrange(k as int, n as int));
    while e > k && is_trimmed_char(s.get_char(e - 1), quotes)
        invariant
            n == s@.len(),
            k <= e <= n,
            trim(s@, quotes) == trim_end(s@.subrange(k as int, e as int), quotes),
        decreases e,
    {
        assert(s@.subrange(k as int, e as int).drop_last() =~= s@.subrange(k as int, e as int - 1));
        e = e - 1;
    }
    s.substring_char(k, e)
}

/// Whether `s` begins with `p`.
pub fn has_prefix(s: &str, p: &str) -> (r: bool)
    ensures
        r == starts_with(s@, p@),
{
    let n = s.unicode_len();
    let m = p.unicode_len();
    if m > n {
        return false;
    }
    str_eq(s.substring_char(0, m), p)
}

/// `s` without every leading repetition of `p`.
pub fn strip_prefix_repeated<'a>(s: &'a str, p: &str) -> (r: &'a str)
    ensures
        r@ == strip_repeated(s@, p@),
{
    let m = p.unicode_len();
    let n = s.unicode_len();
    if m == 0 {
        return s;
    }
    let mut k: usize = 0;
    assert(s@.skip(0) =~= s@);
    while k <= n && has_prefix(s.substring_char(k, n), p)
        invariant
            n == s@.len(),
            m == p@.len(),
            m > 0,
            k <= n,
            strip_repeated(s@, p@) == strip_repeated(s@.skip(k as int), p@),
        decreases n - k,
    {
        assert(s@.subrange(k as int, n as int) =~= s@.skip(k as int));
        assert(s@.skip(k as int).skip(m as int) =~= s@.skip(k as int + m as int));
        k = k + m;
    }
    assert(s@.subrange(k as int, n as int) =~= s@.skip(k as int));
    s.substring_char(k, n)
}

/// The stand-in path that an import line needs, if any.
pub fn stub_target_of(line: &str) -> (r: Option<String>)
    ensures
        match stub_target(line@) {
            Some(p) => r is Some && r->0@ == p,
            None => r is None,
        },
{
    let t = trim_text(line, false);
    if !has_prefix(t, "import ") {
        return None;
    }
    let a = strip_prefix_repeated(t, "import ");
    let b = strip_prefix_repeated(a, "public ");
    let c = strip_prefix_repeated(b, "weak ");
    let d = trim_text(c, true);
    let p = trim_text(d, false);
    if has_prefix(p, "google/protobuf/") {
        None
    } else {
        Some(p.to_owned())
    }
}

/// The lines of `s`: the pieces between line feeds.
pub open spec fn split_lines(s: Seq<char>) -> Seq<Seq<char>>
    decreases s.len(),
{
    if s.len() == 0 {
        seq![Seq::empty()]
    } else if s.last() == '\n' {
        split_lines(s.drop_last()).push(Seq::empty())
    } else {
        let p = split_lines(s.drop_last());
        p.update(p.len() - 1, p.last().push(s.last()))
    }
}

/// The paths of schema text that need stand-in files, in line order.
pub fn stub_import_paths(content: &str) -> (r: Vec<String>)
    ensures
        views(r@) == stub_paths(split_lines(content@)),
{
    let n = content.unicode_len();
    let mut paths: Vec<String> = Vec::new();
    let mut start: usize = 0;
    let mut i: usize = 0;
    let ghost mut done: Seq<Seq<char>> = Seq::empty();
    assert(content@.subrange(0, 0) =~= Seq::<char>::empty());
    while i < n
        invariant
            n == content@.len(),
            start <= i <= n,
            split_lines(content@.subrange(0, i as int)) == done.push(content@.subrange(start as int, i as int)),
            views(paths@) == stub_paths(done),
        decreases n - i,
    {
        let c = content.get_char(i);
        let ghost pre = content@.subrange(0, i as int);
        let ghost nxt = content@.subrange(0, i as int + 1);
        assert(nxt.drop_last() =~= pre);
        if c == '\n' {
            let line = content.substring_char(start, i);
            let t = stub_target_of(line);
            let ghost old_paths = views(paths@);
            match t {
                Some(p) => paths.push(p),
                None => {},
            }
            proof {
                let d2 = done.push(line@);
                assert(d2.drop_last() =~= done);
                assert(views(paths@) =~= old_paths + opt_line(stub_target(line@)));
                done = d2;
                assert(content@.subrange(i as int + 1, i as int + 1) =~= Seq::<char>::empty());
                assert(split_lines(nxt) =~= done.push(Seq::empty()));
            }
            start = i + 1;
        } else {
            proof {
                let p = split_lines(pre);
                assert(content@.subrange(start as int, i as int + 1) =~= content@.subrange(start as int, i as int).push(c));
                assert(split_lines(nxt) =~= done.push(content@.subrange(start as int, i as int + 1)));
            }
        }
        i = i + 1;
    }
    let last = content.substring_char(start, n);
    let t = stub_target_of(last);
    let ghost old_paths = views(paths@);
    match t {
        Some(p) => paths.push(p),
        None => {},
    }
    proof {
        assert(content@.subrange(0, n as int) =~= content@);
        let d2 = done.push(last@);
        assert(d2.drop_last() =~= done);
        assert(views(paths@) =~= old_paths + opt_line(stub_target(last@)));
    }
    paths
}

} // verus!
