//! Functions of a source file: free functions and the methods of impl blocks.
use vstd::prelude::*;
use vstd::string::StringSliceAdditionalSpecFns;
use vstd::utf8::decode_utf8;
use crate::syntax::{
    child_by_field, child_by_field_name, child_by_kind, child_of_kind, field_text, field_text_of,
    has_field, has_kind, lemma_first_where_wf, node_text, node_wf, SyntaxNode,
};
use crate::text::{
    bytes_of_strs, lines_of, sorted_unique, split_lines, str_eq, strictly_ascending, string_views, substring,
    trim, trim_chars,
};
use crate::pattern::{
    class_admits, escape, regex_any_space, regex_any_word_chars, regex_class, regex_compiles, regex_escaped,
    regex_find_all, regex_is_match, regex_optional, regex_repeated, regex_some_space, regex_text_start,
    regex_word_boundary, Pattern,
};
use std::ops::Range;

verus! {

broadcast use vstd::utf8::encode_utf8_decode_utf8;

/// A function item in the source text `source`.
#[derive(Clone, Copy)]
pub struct Function<'a> {
    source: &'a str,
    node: &'a SyntaxNode,
}

/// The text of `t` read from the bytes `b`.
pub open spec fn text_bytes(t: SyntaxNode, b: Seq<u8>) -> Seq<u8> {
    b.subrange(t.start as int, t.end as int)
}

/// The signature of the function node `t`: its text before its body, white
/// space trimmed, or its whole text when it has no body.
pub open spec fn signature_chars(t: SyntaxNode, b: Seq<u8>) -> Seq<char> {
    match child_by_field(t, "body"@) {
        Some(body) => trim_chars(decode_utf8(b.subrange(t.start as int, body.start as int))),
        None => decode_utf8(text_bytes(t, b)),
    }
}

/// The visibility of the function node `t`: the text of its first child of
/// kind `visibility_modifier`, or nothing.
pub open spec fn visibility_bytes(t: SyntaxNode, b: Seq<u8>) -> Seq<u8> {
    match child_by_kind(t, "visibility_modifier"@) {
        Some(v) => text_bytes(v, b),
        None => seq![],
    }
}

/// The lines of the text whose bytes are `b`, each as characters.
pub open spec fn line_chars(b: Seq<u8>) -> Seq<Seq<char>> {
    lines_of(b).map_values(|l: Seq<u8>| decode_utf8(l))
}

/// The pattern that finds `name` as a whole word.
pub open spec fn word_pattern(name: Seq<char>) -> Seq<char> {
    "\\b"@ + regex_escaped(name) + "\\b"@
}

/// The pattern that finds a `let` binding of `name` at the start of a line.
pub open spec fn shadow_pattern(name: Seq<char>) -> Seq<char> {
    "^\\s*let\\s+(mut\\s+)?"@ + regex_escaped(name) + "\\b"@
}

/// Whether `line`, trimmed, starts with `//`.
pub open spec fn is_comment_line(line: Seq<char>) -> bool {
    let t = trim_chars(line);
    t.len() >= 2 && t[0] == '/' && t[1] == '/'
}

/// The 1-based numbers of the lines of `ls` from the one at index `k` on that
/// use `name` as a word and are no comment, up to the first line that binds
/// `name` anew with `let`.
pub open spec fn usages_from(ls: Seq<Seq<char>>, name: Seq<char>, k: int) -> Seq<int>
    decreases ls.len() - k,
{
    if k < 0 || k >= ls.len() {
        seq![]
    } else if regex_is_match(shadow_pattern(name), ls[k]) {
        seq![]
    } else if !is_comment_line(ls[k]) && regex_is_match(word_pattern(name), ls[k]) {
        seq![k + 1] + usages_from(ls, name, k + 1)
    } else {
        usages_from(ls, name, k + 1)
    }
}

/// The usages found from line index `k` on are numbered after `k`, ascend
/// strictly, and each is a line that is no comment and uses `name` as a word,
/// with no line from `k` on up to it that binds `name` anew.
pub proof fn lemma_usages_from(ls: Seq<Seq<char>>, name: Seq<char>, k: int)
    requires
        k >= 0,
    ensures
        forall|i: int| 0 <= i < usages_from(ls, name, k).len() ==> #[trigger] usages_from(ls, name, k)[i] > k,
        forall|i: int, j: int|
            0 <= i < j < usages_from(ls, name, k).len() ==> #[trigger] usages_from(ls, name, k)[i]
                < #[trigger] usages_from(ls, name, k)[j],
        forall|i: int|
            0 <= i < usages_from(ls, name, k).len() ==> {
                let n = #[trigger] usages_from(ls, name, k)[i];
                &&& n <= ls.len()
                &&& !is_comment_line(ls[n - 1])
                &&& regex_is_match(word_pattern(name), ls[n - 1])
                &&& forall|m: int| k <= m < n ==> !regex_is_match(shadow_pattern(name), #[trigger] ls[m])
            },
    decreases ls.len() - k,
{
    if 0 <= k < ls.len() && !regex_is_match(shadow_pattern(name), ls[k]) {
        lemma_usages_from(ls, name, k + 1);
        let u = usages_from(ls, name, k);
        let rest = usages_from(ls, name, k + 1);
        if !is_comment_line(ls[k]) && regex_is_match(word_pattern(name), ls[k]) {
            assert(u == seq![k + 1] + rest);
            assert forall|i: int| 0 <= i < u.len() implies #[trigger] u[i] > k by {
                if i > 0 {
                    assert(u[i] == rest[i - 1]);
                }
            }
            assert forall|i: int, j: int| 0 <= i < j < u.len() implies #[trigger] u[i] < #[trigger] u[j] by {
                assert(u[j] == rest[j - 1]);
                if i > 0 {
                    assert(u[i] == rest[i - 1]);
                }
            }
            assert forall|i: int| 0 <= i < u.len() implies {
                let n = #[trigger] u[i];
                &&& n <= ls.len()
                &&& !is_comment_line(ls[n - 1])
                &&& regex_is_match(word_pattern(name), ls[n - 1])
                &&& forall|m: int| k <= m < n ==> !regex_is_match(shadow_pattern(name), #[trigger] ls[m])
            } by {
                if i > 0 {
                    assert(u[i] == rest[i - 1]);
                }
            }
        } else {
            assert(u == rest);
        }
    }
}

/// Whether a line number lies after the line `a`.
pub open spec fn later_than(a: int) -> spec_fn(int) -> bool {
    |n: int| n > a
}

/// Whether one of the lines of `ls` with the indices `from..to` binds `name` anew.
pub open spec fn shadowed_between(ls: Seq<Seq<char>>, name: Seq<char>, from: int, to: int) -> bool {
    exists|m: int| from <= m < to && m < ls.len() && regex_is_match(shadow_pattern(name), #[trigger] ls[m])
}

proof fn lemma_filter_keeps_all(s: Seq<int>, p: spec_fn(int) -> bool)
    requires
        forall|i: int| 0 <= i < s.len() ==> p(#[trigger] s[i]),
    ensures
        s.filter(p) == s,
    decreases s.len(),
{
    reveal(Seq::filter);
    if s.len() > 0 {
        lemma_filter_keeps_all(s.drop_last(), p);
        assert(s.drop_last().push(s.last()) =~= s);
    }
}

proof fn lemma_filter_drops_head(x: int, rest: Seq<int>, p: spec_fn(int) -> bool)
    requires
        !p(x),
    ensures
        (seq![x] + rest).filter(p) == rest.filter(p),
{
    Seq::filter_distributes_over_add(seq![x], rest, p);
    reveal_with_fuel(Seq::filter, 2);
    assert(seq![x].drop_last() =~= Seq::<int>::empty());
    assert(seq![x].filter(p) =~= Seq::<int>::empty());
    assert(Seq::<int>::empty() + rest.filter(p) =~= rest.filter(p));
}

/// Searching from a later line finds the usages that a search from an
/// earlier line finds after it: the same ones when no line in between binds
/// `name` anew, and none from the earlier search otherwise.
pub proof fn lemma_usages_later_start(ls: Seq<Seq<char>>, name: Seq<char>, a1: int, a2: int)
    requires
        0 <= a1 <= a2,
    ensures
        !shadowed_between(ls, name, a1, a2) ==> usages_from(ls, name, a1).filter(later_than(a2)) == usages_from(
            ls,
            name,
            a2,
        ),
        shadowed_between(ls, name, a1, a2) ==> usages_from(ls, name, a1).filter(later_than(a2)).len() == 0,
    decreases a2 - a1,
{
    let u = usages_from(ls, name, a1);
    let p = later_than(a2);
    if a1 == a2 {
        lemma_usages_from(ls, name, a1);
        assert forall|i: int| 0 <= i < u.len() implies p(#[trigger] u[i]) by {
            assert(u[i] > a1);
        }
        lemma_filter_keeps_all(u, p);
    } else if a1 >= ls.len() {
        reveal(Seq::filter);
        assert(u.len() == 0);
        assert(usages_from(ls, name, a2).len() == 0);
        assert(u.filter(p) =~= usages_from(ls, name, a2));
    } else if regex_is_match(shadow_pattern(name), ls[a1]) {
        reveal(Seq::filter);
        assert(u.len() == 0);
        assert(shadowed_between(ls, name, a1, a2));
    } else {
        lemma_usages_later_start(ls, name, a1 + 1, a2);
        let rest = usages_from(ls, name, a1 + 1);
        if !is_comment_line(ls[a1]) && regex_is_match(word_pattern(name), ls[a1]) {
            assert(u == seq![a1 + 1] + rest);
            lemma_filter_drops_head(a1 + 1, rest, p);
        } else {
            assert(u == rest);
        }
        if shadowed_between(ls, name, a1, a2) {
            let m = choose|m: int| a1 <= m < a2 && m < ls.len() && regex_is_match(shadow_pattern(name), #[trigger] ls[m]);
            assert(m != a1);
            assert(shadowed_between(ls, name, a1 + 1, a2));
        }
        if shadowed_between(ls, name, a1 + 1, a2) {
            let m = choose|m: int| a1 + 1 <= m < a2 && m < ls.len() && regex_is_match(shadow_pattern(name), #[trigger] ls[m]);
            assert(shadowed_between(ls, name, a1, a2));
        }
    }
}

fn is_comment(line: &str) -> (r: bool)
    ensures
        r == is_comment_line(line@),
{
    let t = trim(line);
    t.unicode_len() >= 2 && t.get_char(0) == '/' && t.get_char(1) == '/'
}

fn pattern_around(prefix: &str, name: &str, suffix: &str) -> (r: String)
    ensures
        r@ == prefix@ + regex_escaped(name@) + suffix@,
{
    let escaped = escape(name);
    let mut p = String::from_str(prefix);
    p.append(escaped.as_str());
    p.append(suffix);
    p
}

/// `ls` joined with line feeds between them.
pub open spec fn join_lines(ls: Seq<Seq<char>>) -> Seq<char>
    decreases ls.len(),
{
    if ls.len() == 0 {
        seq![]
    } else if ls.len() == 1 {
        ls[0]
    } else {
        join_lines(ls.drop_last()) + seq!['\n'] + ls.last()
    }
}

/// The first index of `lines_between(from, to)` over `n` lines.
pub open spec fn between_start(from: int, n: int) -> int {
    if from < n { from } else { n }
}

/// The end index of `lines_between(from, to)` over `n` lines.
pub open spec fn between_end(to: int, n: int) -> int {
    let t = if to >= 1 { to - 1 } else { 0 };
    if t < n { t } else { n }
}

/// The pattern of a qualified path such as `std::fmt::Display`.
pub open spec fn qualified_path_pattern() -> Seq<char> {
    "\\b[a-zA-Z_]\\w*(?:::[a-zA-Z_]\\w*)+"@
}

/// The bracket-class members of a character that may start an identifier
/// in a qualified path.
pub open spec fn identifier_start_members() -> Seq<char> {
    "a-zA-Z_"@
}

/// A line binds `name` anew when, from its start, it reads optional white
/// space, `let`, white space, optionally `mut` and white space, and then
/// `name` taken literally and ending at a word boundary: `let name` and
/// `let mut name` both count.
pub proof fn lemma_shadow_pattern_shape(name: Seq<char>)
    ensures
        shadow_pattern(name) == regex_text_start() + regex_any_space() + "let"@ + regex_some_space()
            + regex_optional("mut"@ + regex_some_space()) + regex_escaped(name) + regex_word_boundary(),
{
    reveal_strlit("^\\s*let\\s+(mut\\s+)?");
    reveal_strlit("\\b");
    reveal_strlit("^");
    reveal_strlit("\\s*");
    reveal_strlit("\\s+");
    reveal_strlit("let");
    reveal_strlit("mut");
    reveal_strlit("(");
    reveal_strlit(")?");
    assert(regex_text_start() + regex_any_space() + "let"@ + regex_some_space() + regex_optional(
        "mut"@ + regex_some_space(),
    ) =~= "^\\s*let\\s+(mut\\s+)?"@);
}

/// A qualified path is an identifier after a word boundary followed by one
/// or more `::` and identifier, where an identifier is a letter of either
/// case or `_` and then word characters: `Vec::new` counts as well as
/// `std::fmt::Display`.
pub proof fn lemma_qualified_path_pattern_shape()
    ensures
        qualified_path_pattern() == regex_word_boundary() + regex_class(identifier_start_members())
            + regex_any_word_chars() + regex_repeated(
            "::"@ + regex_class(identifier_start_members()) + regex_any_word_chars(),
        ),
        forall|c: char|
            #[trigger] class_admits(identifier_start_members(), c) <==> ('a' <= c && c <= 'z') || ('A' <= c
                && c <= 'Z') || c == '_',
{
    reveal_strlit("\\b[a-zA-Z_]\\w*(?:::[a-zA-Z_]\\w*)+");
    reveal_strlit("a-zA-Z_");
    reveal_strlit("\\b");
    reveal_strlit("\\w*");
    reveal_strlit("[");
    reveal_strlit("]");
    reveal_strlit("(?:");
    reveal_strlit(")+");
    reveal_strlit("::");
    assert(qualified_path_pattern() =~= regex_word_boundary() + regex_class(identifier_start_members())
        + regex_any_word_chars() + regex_repeated(
        "::"@ + regex_class(identifier_start_members()) + regex_any_word_chars(),
    ));
    let m = identifier_start_members();
    assert(m.skip(3) =~= seq!['A', '-', 'Z', '_']);
    assert(m.skip(3).skip(3) =~= seq!['_']);
    assert(m.skip(3).skip(3).skip(1) =~= Seq::<char>::empty());
    assert forall|c: char| #[trigger] class_admits(m, c) <==> ('a' <= c && c <= 'z') || ('A' <= c && c <= 'Z')
        || c == '_' by {
        reveal_with_fuel(class_admits, 4);
    }
}

/// A replacement of the source bytes in `range` by `text`.
pub struct Edit {
    pub range: Range<usize>,
    pub text: String,
}

/// The byte ranges, in preorder, of the identifiers in `t` whose text is
/// `name`; the search does not look inside a matching identifier.
pub open spec fn identifier_ranges(t: SyntaxNode, b: Seq<u8>, name: Seq<u8>) -> Seq<(int, int)>
    decreases t,
{
    if t.kind@ == "identifier"@ && b.subrange(t.start as int, t.end as int) == name {
        seq![(t.start as int, t.end as int)]
    } else {
        identifier_ranges_all(t.children@, b, name)
    }
}

/// `identifier_ranges` of each of `ts`, one after another.
pub open spec fn identifier_ranges_all(ts: Seq<SyntaxNode>, b: Seq<u8>, name: Seq<u8>) -> Seq<(int, int)>
    decreases ts,
{
    if ts.len() == 0 {
        seq![]
    } else {
        identifier_ranges_all(ts.drop_last(), b, name) + identifier_ranges(ts.last(), b, name)
    }
}

pub open spec fn pair_view(v: Seq<(usize, usize)>) -> Seq<(int, int)> {
    v.map_values(|p: (usize, usize)| (p.0 as int, p.1 as int))
}

pub open spec fn edit_ranges(v: Seq<Edit>) -> Seq<(int, int)> {
    v.map_values(|e: Edit| (e.range.start as int, e.range.end as int))
}

/// The ranges run back to front through the text: each lies wholly before
/// every earlier one, so that replacing them in order leaves the offsets of
/// the ranges still to come unchanged.
pub open spec fn back_to_front(v: Seq<(int, int)>) -> bool {
    &&& forall|i: int| 0 <= i < v.len() ==> (#[trigger] v[i]).0 <= v[i].1
    &&& forall|i: int, j: int| 0 <= i < j < v.len() ==> (#[trigger] v[j]).1 <= (#[trigger] v[i]).0
}

fn collect_identifier_ranges(node: &SyntaxNode, source: &str, name: &str, ranges: &mut Vec<(usize, usize)>)
    requires
        node_wf(*node, source.spec_bytes()),
    ensures
        pair_view(final(ranges)@) == pair_view(old(ranges)@) + identifier_ranges(*node, source.spec_bytes(), name.spec_bytes()),
    decreases node,
{
    let is_match = if str_eq(node.kind.as_str(), "identifier") {
        let text = node_text(source, node);
        proof {
            assert(text@ == decode_utf8(text.spec_bytes()));
            assert(name@ == decode_utf8(name.spec_bytes()));
        }
        str_eq(text, name)
    } else {
        false
    };
    if is_match {
        let ghost before = ranges@;
        ranges.push((node.start, node.end));
        proof {
            assert(pair_view(ranges@) =~= pair_view(before) + seq![(node.start as int, node.end as int)]);
        }
        return;
    }
    let ghost before = ranges@;
    let mut i: usize = 0;
    while i < node.children.len()
        invariant
            i <= node.children.len(),
            node_wf(*node, source.spec_bytes()),
            pair_view(ranges@) == pair_view(before) + identifier_ranges_all(
                node.children@.take(i as int),
                source.spec_bytes(),
                name.spec_bytes(),
            ),
        decreases node.children.len() - i,
    {
        collect_identifier_ranges(&node.children[i], source, name, ranges);
        proof {
            assert(node.children@.take(i + 1).drop_last() =~= node.children@.take(i as int));
            assert(node.children@.take(i + 1).last() == node.children@[i as int]);
        }
        i = i + 1;
    }
    proof {
        assert(node.children@.take(i as int) =~= node.children@);
    }
}

/// The bytes `b` with the range `r` replaced by `new`.
pub open spec fn apply_edit(b: Seq<u8>, r: (int, int), new: Seq<u8>) -> Seq<u8> {
    b.subrange(0, r.0) + new + b.subrange(r.1, b.len() as int)
}

/// The bytes `b` after replacing each of the ranges `v` by `new`, in order.
pub open spec fn apply_edits(b: Seq<u8>, v: Seq<(int, int)>, new: Seq<u8>) -> Seq<u8>
    decreases v.len(),
{
    if v.len() == 0 {
        b
    } else {
        apply_edit(apply_edits(b, v.drop_last(), new), v.last(), new)
    }
}

/// Replacing ranges that run back to front, in order, leaves every range
/// still to come addressing the same bytes as in the original text: the
/// offsets of the edits stay valid while they are applied.
pub proof fn lemma_back_to_front_keeps_offsets(b: Seq<u8>, v: Seq<(int, int)>, new: Seq<u8>, k: int)
    requires
        back_to_front(v),
        forall|i: int| 0 <= i < v.len() ==> 0 <= (#[trigger] v[i]).0 && v[i].1 <= b.len(),
        0 <= k <= v.len(),
    ensures
        forall|j: int|
            k <= j < v.len() ==> apply_edits(b, v.take(k), new).subrange((#[trigger] v[j]).0, v[j].1) == b.subrange(
                v[j].0,
                v[j].1,
            ),
    decreases k,
{
    if k > 0 {
        lemma_back_to_front_keeps_offsets(b, v, new, k - 1);
        lemma_prefix_kept(b, v, new, k);
        let a = apply_edits(b, v.take(k), new);
        assert forall|j: int| k <= j < v.len() implies a.subrange((#[trigger] v[j]).0, v[j].1) == b.subrange(v[j].0, v[j].1) by {
            assert(v[j].1 <= v[k - 1].0);
            assert(a.subrange(0, v[k - 1].0) == b.subrange(0, v[k - 1].0));
            assert(a.subrange(v[j].0, v[j].1) =~= a.subrange(0, v[k - 1].0).subrange(v[j].0, v[j].1));
            assert(b.subrange(v[j].0, v[j].1) =~= b.subrange(0, v[k - 1].0).subrange(v[j].0, v[j].1));
        }
    }
}

/// After the first `k` replacements the text before the `k`-th range is unchanged.
proof fn lemma_prefix_kept(b: Seq<u8>, v: Seq<(int, int)>, new: Seq<u8>, k: int)
    requires
        back_to_front(v),
        forall|i: int| 0 <= i < v.len() ==> 0 <= (#[trigger] v[i]).0 && v[i].1 <= b.len(),
        0 < k <= v.len(),
    ensures
        apply_edits(b, v.take(k), new).len() >= v[k - 1].0,
        apply_edits(b, v.take(k), new).subrange(0, v[k - 1].0) == b.subrange(0, v[k - 1].0),
    decreases k,
{
    let prev = apply_edits(b, v.take(k - 1), new);
    assert(v.take(k).drop_last() =~= v.take(k - 1));
    assert(v.take(k).last() == v[k - 1]);
    if k == 1 {
        assert(v.take(0) =~= Seq::<(int, int)>::empty());
        assert(prev == b);
    } else {
        lemma_prefix_kept(b, v, new, k - 1);
        assert(v[k - 1].1 <= v[k - 2].0);
    }
    assert(prev.len() >= v[k - 1].1);
    let a = apply_edit(prev, v[k - 1], new);
    assert(a.subrange(0, v[k - 1].0) =~= prev.subrange(0, v[k - 1].0));
    if k > 1 {
        assert(prev.subrange(0, v[k - 1].0) =~= prev.subrange(0, v[k - 2].0).subrange(0, v[k - 1].0));
        assert(b.subrange(0, v[k - 1].0) =~= b.subrange(0, v[k - 2].0).subrange(0, v[k - 1].0));
    }
}

/// The ranges follow one another through the text: none is reversed, and
/// each ends no later than any later one starts.
pub open spec fn ascending_disjoint(v: Seq<(int, int)>) -> bool {
    &&& forall|i: int| 0 <= i < v.len() ==> (#[trigger] v[i]).0 <= v[i].1
    &&& forall|i: int, j: int| 0 <= i < j < v.len() ==> (#[trigger] v[i]).1 <= (#[trigger] v[j]).0
}

/// The ranges all lie within `lo..hi`.
pub open spec fn within(v: Seq<(int, int)>, lo: int, hi: int) -> bool {
    forall|i: int| 0 <= i < v.len() ==> lo <= (#[trigger] v[i]).0 && v[i].1 <= hi
}

/// Each range that `identifier_ranges` finds in a well-formed tree is as
/// long as the name searched for.
proof fn lemma_identifier_ranges_width(t: SyntaxNode, b: Seq<u8>, name: Seq<u8>)
    requires
        node_wf(t, b),
    ensures
        forall|i: int|
            0 <= i < identifier_ranges(t, b, name).len() ==> (#[trigger] identifier_ranges(t, b, name)[i]).1
                - identifier_ranges(t, b, name)[i].0 == name.len(),
    decreases t,
{
    if !(t.kind@ == "identifier"@ && b.subrange(t.start as int, t.end as int) == name) {
        lemma_identifier_ranges_all_width(t.children@, b, name);
        assert(identifier_ranges(t, b, name) == identifier_ranges_all(t.children@, b, name));
    } else {
        assert(0 <= t.start <= t.end <= b.len());
        assert(b.subrange(t.start as int, t.end as int).len() == t.end - t.start);
        assert(name.len() == t.end - t.start);
        assert(identifier_ranges(t, b, name) == seq![(t.start as int, t.end as int)]);
    }
}

proof fn lemma_identifier_ranges_all_width(cs: Seq<SyntaxNode>, b: Seq<u8>, name: Seq<u8>)
    requires
        forall|i: int| 0 <= i < cs.len() ==> node_wf(#[trigger] cs[i], b),
    ensures
        forall|i: int|
            0 <= i < identifier_ranges_all(cs, b, name).len() ==> (#[trigger] identifier_ranges_all(cs, b, name)[i]).1
                - identifier_ranges_all(cs, b, name)[i].0 == name.len(),
    decreases cs,
{
    if cs.len() > 0 {
        let init = cs.drop_last();
        let last = cs.last();
        assert(node_wf(cs[cs.len() - 1], b));
        lemma_identifier_ranges_all_width(init, b, name);
        lemma_identifier_ranges_width(last, b, name);
        let a = identifier_ranges_all(init, b, name);
        let c = identifier_ranges(last, b, name);
        let v = identifier_ranges_all(cs, b, name);
        assert(v == a + c);
        assert forall|i: int| 0 <= i < v.len() implies (#[trigger] v[i]).1 - v[i].0 == name.len() by {
            if i < a.len() {
                assert(v[i] == a[i]);
            } else {
                assert(v[i] == c[i - a.len()]);
            }
        }
    }
}

/// `p` runs down from one of `ts` to a node of kind `identifier` whose
/// byte range is `r` and whose text in `b` is `name`.
pub open spec fn is_identifier_occurrence(
    ts: Seq<SyntaxNode>,
    p: Seq<SyntaxNode>,
    r: (int, int),
    b: Seq<u8>,
    name: Seq<u8>,
) -> bool {
    &&& is_descent(ts, p)
    &&& p.last().kind@ == "identifier"@
    &&& r == (p.last().start as int, p.last().end as int)
    &&& b.subrange(p.last().start as int, p.last().end as int) == name
}

/// The range `r` is that of an identifier below one of `ts` whose text in `b` is `name`.
pub open spec fn occurs_as_identifier(ts: Seq<SyntaxNode>, r: (int, int), b: Seq<u8>, name: Seq<u8>) -> bool {
    exists|p: Seq<SyntaxNode>| #[trigger] is_identifier_occurrence(ts, p, r, b, name)
}

/// Each of the ranges `v` is that of an identifier below one of `ts` whose
/// text in `b` is `name`.
pub open spec fn all_identifier_occurrences(ts: Seq<SyntaxNode>, v: Seq<(int, int)>, b: Seq<u8>, name: Seq<u8>) -> bool {
    forall|i: int| 0 <= i < v.len() ==> #[trigger] occurs_as_identifier(ts, v[i], b, name)
}

/// Every range that a rename edits is the range of a node of kind
/// `identifier` in the function's tree whose text is the old name: no node
/// of another kind, such as a field name, is renamed.
pub proof fn lemma_renamed_ranges_are_identifiers(t: SyntaxNode, b: Seq<u8>, name: Seq<u8>)
    ensures
        all_identifier_occurrences(seq![t], identifier_ranges(t, b, name), b, name),
    decreases t,
{
    let v = identifier_ranges(t, b, name);
    let top = seq![t];
    assert(top[0] == t);
    if t.kind@ == "identifier"@ && b.subrange(t.start as int, t.end as int) == name {
        assert forall|i: int| 0 <= i < v.len() implies #[trigger] occurs_as_identifier(top, v[i], b, name) by {
            assert(is_identifier_occurrence(top, top, v[i], b, name));
        }
        assert(all_identifier_occurrences(top, v, b, name));
    } else {
        let cs = t.children@;
        lemma_identifiers_among(cs, b, name);
        assert(v == identifier_ranges_all(cs, b, name));
        assert forall|i: int| 0 <= i < v.len() implies #[trigger] occurs_as_identifier(top, v[i], b, name) by {
            assert(occurs_as_identifier(cs, v[i], b, name));
            let q = choose|q: Seq<SyntaxNode>| #[trigger] is_identifier_occurrence(cs, q, v[i], b, name);
            let p = top + q;
            assert forall|k: int| 0 <= k < p.len() - 1 implies #[trigger] is_child_step(p, k) by {
                if k == 0 {
                    assert(p[0] == t);
                    assert(p[1] == q[0]);
                } else {
                    assert(is_child_step(q, k - 1));
                    assert(p[k] == q[k - 1]);
                    assert(p[k + 1] == q[k]);
                }
            }
            assert(p[0] == t);
            assert(p.last() == q.last());
            assert(is_identifier_occurrence(top, p, v[i], b, name));
        }
        assert(all_identifier_occurrences(top, v, b, name));
    }
}

proof fn lemma_identifiers_among(cs: Seq<SyntaxNode>, b: Seq<u8>, name: Seq<u8>)
    ensures
        all_identifier_occurrences(cs, identifier_ranges_all(cs, b, name), b, name),
    decreases cs,
{
    let v = identifier_ranges_all(cs, b, name);
    if cs.len() > 0 {
        let init = cs.drop_last();
        let last = cs.last();
        lemma_identifiers_among(init, b, name);
        lemma_renamed_ranges_are_identifiers(last, b, name);
        let a = identifier_ranges_all(init, b, name);
        let c = identifier_ranges(last, b, name);
        assert(v == a + c);
        assert forall|i: int| 0 <= i < v.len() implies #[trigger] occurs_as_identifier(cs, v[i], b, name) by {
            if i < a.len() {
                assert(v[i] == a[i]);
                assert(occurs_as_identifier(init, a[i], b, name));
                let p = choose|p: Seq<SyntaxNode>| #[trigger] is_identifier_occurrence(init, p, a[i], b, name);
                let j = choose|j: int| 0 <= j < init.len() && init[j] == p[0];
                assert(cs[j] == p[0]);
                assert(is_identifier_occurrence(cs, p, v[i], b, name));
            } else {
                let k = i - a.len();
                assert(v[i] == c[k]);
                assert(occurs_as_identifier(seq![last], c[k], b, name));
                let p = choose|p: Seq<SyntaxNode>| #[trigger] is_identifier_occurrence(seq![last], p, c[k], b, name);
                let j = choose|j: int| 0 <= j < seq![last].len() && seq![last][j] == p[0];
                assert(cs[cs.len() - 1] == p[0]);
                assert(is_identifier_occurrence(cs, p, v[i], b, name));
            }
        }
        assert(all_identifier_occurrences(cs, v, b, name));
    }
}

proof fn lemma_reversed_occurrences(ts: Seq<SyntaxNode>, v: Seq<(int, int)>, b: Seq<u8>, name: Seq<u8>)
    requires
        all_identifier_occurrences(ts, v, b, name),
    ensures
        all_identifier_occurrences(ts, v.reverse(), b, name),
{
    let w = v.reverse();
    assert forall|i: int| 0 <= i < w.len() implies #[trigger] occurs_as_identifier(ts, w[i], b, name) by {
        assert(w[i] == v[v.len() - 1 - i]);
        assert(occurs_as_identifier(ts, v[v.len() - 1 - i], b, name));
    }
}

/// The identifiers that `identifier_ranges` finds in a well-formed tree
/// follow one another through its text.
pub proof fn lemma_identifier_ranges_ordered(t: SyntaxNode, b: Seq<u8>, name: Seq<u8>)
    requires
        node_wf(t, b),
    ensures
        ascending_disjoint(identifier_ranges(t, b, name)),
        within(identifier_ranges(t, b, name), t.start as int, t.end as int),
    decreases t,
{
    if !(t.kind@ == "identifier"@ && b.subrange(t.start as int, t.end as int) == name) {
        lemma_identifier_ranges_all_ordered(t.children@, b, name, t.start as int, t.end as int);
    }
}

proof fn lemma_identifier_ranges_all_ordered(cs: Seq<SyntaxNode>, b: Seq<u8>, name: Seq<u8>, lo: int, hi: int)
    requires
        forall|i: int| 0 <= i < cs.len() ==> node_wf(#[trigger] cs[i], b) && lo <= cs[i].start && cs[i].end <= hi,
        forall|i: int| 0 < i < cs.len() ==> cs[i - 1].end <= #[trigger] cs[i].start,
    ensures
        ascending_disjoint(identifier_ranges_all(cs, b, name)),
        within(identifier_ranges_all(cs, b, name), lo, hi),
        cs.len() > 0 ==> within(identifier_ranges_all(cs, b, name), lo, cs.last().end as int),
    decreases cs,
{
    if cs.len() > 0 {
        let init = cs.drop_last();
        let last = cs.last();
        assert(node_wf(cs[cs.len() - 1], b));
        lemma_identifier_ranges_all_ordered(init, b, name, lo, hi);
        lemma_identifier_ranges_ordered(last, b, name);
        let a = identifier_ranges_all(init, b, name);
        let c = identifier_ranges(last, b, name);
        let v = identifier_ranges_all(cs, b, name);
        assert(v == a + c);
        if init.len() > 0 {
            assert(cs[cs.len() - 2].end <= last.start);
            assert(init.last() == cs[cs.len() - 2]);
        }
        assert(within(a, lo, last.start as int));
        assert forall|i: int| 0 <= i < v.len() implies (#[trigger] v[i]).0 <= v[i].1 by {
            if i < a.len() {
                assert(v[i] == a[i]);
            } else {
                assert(v[i] == c[i - a.len()]);
            }
        }
        assert forall|i: int, j: int| 0 <= i < j < v.len() implies (#[trigger] v[i]).1 <= (#[trigger] v[j]).0 by {
            if j < a.len() {
                assert(v[i] == a[i]);
                assert(v[j] == a[j]);
            } else if i < a.len() {
                assert(v[i] == a[i]);
                assert(v[j] == c[j - a.len()]);
            } else {
                assert(v[i] == c[i - a.len()]);
                assert(v[j] == c[j - a.len()]);
            }
        }
        assert forall|i: int| 0 <= i < v.len() implies lo <= (#[trigger] v[i]).0 && v[i].1 <= last.end by {
            if i < a.len() {
                assert(v[i] == a[i]);
            } else {
                assert(v[i] == c[i - a.len()]);
            }
        }
    }
}

/// The function items among `ts` and their descendants: a function item
/// counts without what it contains, an impl block counts with the function
/// items directly in its body, and any other node is searched through.
pub open spec fn functions_in_all(ts: Seq<SyntaxNode>) -> Seq<SyntaxNode>
    decreases ts,
{
    if ts.len() == 0 {
        seq![]
    } else {
        functions_in_all(ts.drop_last()) + functions_of(ts.last())
    }
}

/// The function items that the node `c` contributes, as `functions_in_all` counts them.
pub open spec fn functions_of(c: SyntaxNode) -> Seq<SyntaxNode>
    decreases c,
{
    if c.kind@ == "function_item"@ {
        seq![c]
    } else if c.kind@ == "impl_item"@ {
        match child_by_field(c, "body"@) {
            Some(body) => function_items(body.children@),
            None => seq![],
        }
    } else {
        functions_in_all(c.children@)
    }
}

/// The node `p[k + 1]` is a child of the node `p[k]`.
pub open spec fn is_child_step(p: Seq<SyntaxNode>, k: int) -> bool {
    p[k].children@.contains(p[k + 1])
}

/// `p` runs down a syntax tree from one of the nodes `ts`: it starts at one of
/// them, and each later node is a child of the one before it.
pub open spec fn is_descent(ts: Seq<SyntaxNode>, p: Seq<SyntaxNode>) -> bool {
    &&& p.len() > 0
    &&& ts.contains(p[0])
    &&& forall|k: int| 0 <= k < p.len() - 1 ==> #[trigger] is_child_step(p, k)
}

/// The node `n` is an item that functions can be nested in and listed from:
/// neither a function item nor an impl block.
pub open spec fn is_plain_item(n: SyntaxNode) -> bool {
    n.kind@ != "function_item"@ && n.kind@ != "impl_item"@
}

/// Every node of `p` before its last is a plain item.
pub open spec fn through_plain_items(p: Seq<SyntaxNode>) -> bool {
    forall|k: int| 0 <= k < p.len() - 1 ==> #[trigger] is_plain_item(p[k])
}

proof fn lemma_listed_from_member(ts: Seq<SyntaxNode>, c: SyntaxNode)
    requires
        ts.contains(c),
    ensures
        forall|x: SyntaxNode| functions_of(c).contains(x) ==> #[trigger] functions_in_all(ts).contains(x),
    decreases ts.len(),
{
    let init = ts.drop_last();
    assert(functions_in_all(ts) == functions_in_all(init) + functions_of(ts.last()));
    if ts.last() == c {
        assert forall|x: SyntaxNode| functions_of(c).contains(x) implies #[trigger] functions_in_all(ts).contains(x) by {
            let i = choose|i: int| 0 <= i < functions_of(c).len() && functions_of(c)[i] == x;
            assert(functions_in_all(ts)[functions_in_all(init).len() + i] == x);
        }
    } else {
        let j = choose|j: int| 0 <= j < ts.len() && ts[j] == c;
        assert(init[j] == c);
        lemma_listed_from_member(init, c);
        assert forall|x: SyntaxNode| functions_of(c).contains(x) implies #[trigger] functions_in_all(ts).contains(x) by {
            assert(functions_in_all(init).contains(x));
            let i = choose|i: int| 0 <= i < functions_in_all(init).len() && functions_in_all(init)[i] == x;
            assert(functions_in_all(ts)[i] == x);
        }
    }
}

/// What the last node of a descent through plain items contributes is
/// listed from the nodes the descent starts at.
proof fn lemma_listed_along_descent(ts: Seq<SyntaxNode>, p: Seq<SyntaxNode>)
    requires
        is_descent(ts, p),
        through_plain_items(p),
    ensures
        forall|x: SyntaxNode| functions_of(p.last()).contains(x) ==> #[trigger] functions_in_all(ts).contains(x),
    decreases p.len(),
{
    if p.len() == 1 {
        lemma_listed_from_member(ts, p[0]);
    } else {
        let q = p.drop_last();
        let k = p.len() - 2;
        assert(is_child_step(p, k));
        assert forall|j: int| 0 <= j < q.len() - 1 implies #[trigger] is_child_step(q, j) by {
            assert(is_child_step(p, j));
        }
        assert forall|j: int| 0 <= j < q.len() - 1 implies #[trigger] is_plain_item(q[j]) by {
            assert(is_plain_item(p[j]));
        }
        lemma_listed_along_descent(ts, q);
        assert(is_plain_item(p[k]));
        assert(q.last() == p[k]);
        assert(functions_of(q.last()) == functions_in_all(q.last().children@));
        lemma_listed_from_member(q.last().children@, p.last());
    }
}

/// Every function item reached from the nodes `ts` through items that are
/// neither functions nor impl blocks (such as modules, or the items of a
/// module's body) is among the functions listed from `ts`, which is what
/// `SourceFile::functions` returns for the children of a file's root.
pub proof fn lemma_nested_functions_listed(ts: Seq<SyntaxNode>, p: Seq<SyntaxNode>)
    requires
        is_descent(ts, p),
        through_plain_items(p),
        p.last().kind@ == "function_item"@,
    ensures
        functions_in_all(ts).contains(p.last()),
{
    lemma_listed_along_descent(ts, p);
    assert(functions_of(p.last()) == seq![p.last()]);
    assert(functions_of(p.last())[0] == p.last());
}

/// Every function item directly in the body of an impl block that is reached
/// from the nodes `ts` through plain items is among the functions listed from
/// `ts`.
pub proof fn lemma_impl_methods_listed(ts: Seq<SyntaxNode>, p: Seq<SyntaxNode>, body: SyntaxNode, m: SyntaxNode)
    requires
        is_descent(ts, p),
        through_plain_items(p),
        p.last().kind@ == "impl_item"@,
        child_by_field(p.last(), "body"@) == Some(body),
        body.children@.contains(m),
        m.kind@ == "function_item"@,
    ensures
        functions_in_all(ts).contains(m),
{
    lemma_listed_along_descent(ts, p);
    reveal_strlit("impl_item");
    reveal_strlit("function_item");
    assert("impl_item"@[0] != "function_item"@[0]);
    body.children@.lemma_filter_contains_rev(|x: SyntaxNode| x.kind@ == "function_item"@, m);
    assert(functions_of(p.last()) == function_items(body.children@));
}

/// `p` leads from one of `ts` through plain items to the function item `x`,
/// either ending at `x` or at an impl block with `x` directly in its body.
pub open spec fn is_listing_path(ts: Seq<SyntaxNode>, p: Seq<SyntaxNode>, x: SyntaxNode) -> bool {
    &&& is_descent(ts, p)
    &&& through_plain_items(p)
    &&& x.kind@ == "function_item"@
    &&& (p.last() == x || (p.last().kind@ == "impl_item"@ && (child_by_field(p.last(), "body"@) matches Some(
        body,
    ) && body.children@.contains(x))))
}

/// `x` is a function item that a listing from `ts` may hold.
pub open spec fn is_listable(ts: Seq<SyntaxNode>, x: SyntaxNode) -> bool {
    exists|p: Seq<SyntaxNode>| #[trigger] is_listing_path(ts, p, x)
}

/// Every function listed from the nodes `ts` is a function item reached
/// from them through plain items, either directly or as a method directly
/// in the body of an impl block: nothing nested in a function, and nothing
/// deeper inside an impl block, is listed.
pub proof fn lemma_listed_functions_reachable(ts: Seq<SyntaxNode>)
    ensures
        forall|x: SyntaxNode| #[trigger] functions_in_all(ts).contains(x) ==> is_listable(ts, x),
    decreases ts,
{
    if ts.len() > 0 {
        let init = ts.drop_last();
        let last = ts.last();
        lemma_listed_functions_reachable(init);
        lemma_contributed_functions_reachable(last);
        let a = functions_in_all(init);
        let c = functions_of(last);
        assert(functions_in_all(ts) == a + c);
        assert forall|x: SyntaxNode| #[trigger] functions_in_all(ts).contains(x) implies is_listable(ts, x) by {
            let i = choose|i: int| 0 <= i < functions_in_all(ts).len() && functions_in_all(ts)[i] == x;
            if i < a.len() {
                assert(a[i] == x);
                assert(a.contains(x));
                let p = choose|p: Seq<SyntaxNode>| #[trigger] is_listing_path(init, p, x);
                let j = choose|j: int| 0 <= j < init.len() && init[j] == p[0];
                assert(ts[j] == p[0]);
                assert(is_listing_path(ts, p, x));
            } else {
                assert(c[i - a.len()] == x);
                assert(c.contains(x));
                let p = choose|p: Seq<SyntaxNode>| #[trigger] is_listing_path(seq![last], p, x);
                let j = choose|j: int| 0 <= j < seq![last].len() && seq![last][j] == p[0];
                assert(ts[ts.len() - 1] == p[0]);
                assert(is_listing_path(ts, p, x));
            }
        }
    }
}

proof fn lemma_contributed_functions_reachable(c: SyntaxNode)
    ensures
        forall|x: SyntaxNode| #[trigger] functions_of(c).contains(x) ==> is_listable(seq![c], x),
    decreases c,
{
    let top = seq![c];
    assert(top[0] == c);
    if c.kind@ == "function_item"@ {
        assert forall|x: SyntaxNode| #[trigger] functions_of(c).contains(x) implies is_listable(top, x) by {
            assert(functions_of(c)[0] == c);
            assert(is_listing_path(top, top, x));
        }
    } else if c.kind@ == "impl_item"@ {
        assert forall|x: SyntaxNode| #[trigger] functions_of(c).contains(x) implies is_listable(top, x) by {
            let body = child_by_field(c, "body"@).unwrap();
            let pred = |n: SyntaxNode| n.kind@ == "function_item"@;
            assert(functions_of(c) == body.children@.filter(pred));
            body.children@.lemma_filter_contains_rev(pred, x);
            let j = choose|j: int| 0 <= j < body.children@.filter(pred).len() && body.children@.filter(pred)[j] == x;
            body.children@.lemma_filter_pred(pred, j);
            assert(is_listing_path(top, top, x));
        }
    } else {
        let cs = c.children@;
        lemma_listed_functions_reachable(cs);
        assert forall|x: SyntaxNode| #[trigger] functions_of(c).contains(x) implies is_listable(top, x) by {
            assert(functions_in_all(cs).contains(x));
            let q = choose|q: Seq<SyntaxNode>| #[trigger] is_listing_path(cs, q, x);
            let p = top + q;
            assert forall|k: int| 0 <= k < p.len() - 1 implies #[trigger] is_child_step(p, k) by {
                if k == 0 {
                    assert(p[0] == c);
                    assert(p[1] == q[0]);
                } else {
                    assert(is_child_step(q, k - 1));
                    assert(p[k] == q[k - 1]);
                    assert(p[k + 1] == q[k]);
                }
            }
            assert forall|k: int| 0 <= k < p.len() - 1 implies #[trigger] is_plain_item(p[k]) by {
                if k == 0 {
                    assert(p[0] == c);
                } else {
                    assert(is_plain_item(q[k - 1]));
                    assert(p[k] == q[k - 1]);
                }
            }
            assert(p[0] == c);
            assert(p.last() == q.last());
            assert(is_listing_path(top, p, x));
        }
    }
}

/// The function items among `ts`.
pub open spec fn function_items(ts: Seq<SyntaxNode>) -> Seq<SyntaxNode> {
    ts.filter(|x: SyntaxNode| x.kind@ == "function_item"@)
}

/// The syntax nodes of the functions `fs`.
pub open spec fn function_nodes(fs: Seq<Function>) -> Seq<SyntaxNode> {
    fs.map_values(|f: Function| f.syntax())
}

/// Appends the function items directly among the children of `body`.
pub(crate) fn push_function_items<'a>(source: &'a str, body: &'a SyntaxNode, functions: &mut Vec<Function<'a>>)
    requires
        node_wf(*body, source.spec_bytes()),
    ensures
        function_nodes(final(functions)@) == function_nodes(old(functions)@) + function_items(body.children@),
        final(functions)@.len() >= old(functions)@.len(),
        final(functions)@.subrange(0, old(functions)@.len() as int) == old(functions)@,
        forall|i: int| old(functions)@.len() <= i < final(functions)@.len() ==> (#[trigger] final(functions)@[i]).source_bytes() == source.spec_bytes(),
{
    let ghost start = functions@;
    let mut i: usize = 0;
    while i < body.children.len()
        invariant
            i <= body.children.len(),
            node_wf(*body, source.spec_bytes()),
            functions@.len() >= start.len(),
            functions@.subrange(0, start.len() as int) == start,
            forall|k: int| start.len() <= k < functions@.len() ==> (#[trigger] functions@[k]).source_bytes() == source.spec_bytes(),
            function_nodes(functions@) == function_nodes(start) + function_items(body.children@.take(i as int)),
        decreases body.children.len() - i,
    {
        let item = &body.children[i];
        let ghost before = functions@;
        proof {
            assert(body.children@.take(i + 1) =~= body.children@.take(i as int).push(*item));
        }
        proof {
            body.children@.take(i as int).lemma_filter_push(*item, |x: SyntaxNode| x.kind@ == "function_item"@);
        }
        if str_eq(item.kind.as_str(), "function_item") {
            functions.push(Function::new(source, item));
            proof {
                assert(function_nodes(functions@) =~= function_nodes(before).push(*item));
            }
        }
        proof {
            assert(functions@.subrange(0, start.len() as int) =~= start);
        }
        i = i + 1;
    }
    proof {
        assert(body.children@.take(i as int) =~= body.children@);
    }
}

/// Appends the function items among the children of `node` and their
/// descendants, as `functions_in_all` counts them.
pub(crate) fn collect_functions<'a>(source: &'a str, node: &'a SyntaxNode, functions: &mut Vec<Function<'a>>)
    requires
        node_wf(*node, source.spec_bytes()),
    ensures
        function_nodes(final(functions)@) == function_nodes(old(functions)@) + functions_in_all(node.children@),
        final(functions)@.len() >= old(functions)@.len(),
        final(functions)@.subrange(0, old(functions)@.len() as int) == old(functions)@,
        forall|i: int| old(functions)@.len() <= i < final(functions)@.len() ==> (#[trigger] final(functions)@[i]).source_bytes() == source.spec_bytes(),
    decreases node,
{
    let ghost start = functions@;
    let mut i: usize = 0;
    while i < node.children.len()
        invariant
            i <= node.children.len(),
            node_wf(*node, source.spec_bytes()),
            functions@.len() >= start.len(),
            functions@.subrange(0, start.len() as int) == start,
            forall|k: int| start.len() <= k < functions@.len() ==> (#[trigger] functions@[k]).source_bytes() == source.spec_bytes(),
            function_nodes(functions@) == function_nodes(start) + functions_in_all(node.children@.take(i as int)),
        decreases node.children.len() - i,
    {
        let child = &node.children[i];
        let ghost before = functions@;
        proof {
            assert(node.children@.take(i + 1).drop_last() =~= node.children@.take(i as int));
            assert(node.children@.take(i + 1).last() == *child);
            assert(functions_in_all(node.children@.take(i + 1)) == functions_in_all(node.children@.take(i as int))
                + functions_of(*child));
        }
        if str_eq(child.kind.as_str(), "function_item") {
            functions.push(Function::new(source, child));
            proof {
                assert(function_nodes(functions@) =~= function_nodes(before).push(*child));
                assert(functions@.subrange(0, before.len() as int) =~= before);
            }
        } else if str_eq(child.kind.as_str(), "impl_item") {
            match child_by_field_name(child, "body") {
                Some(body) => {
                    proof {
                        lemma_first_where_wf(*child, source.spec_bytes(), |c: SyntaxNode| has_field(c, "body"@));
                    }
                    push_function_items(source, body, functions);
                },
                None => {
                    proof {
                        assert(functions@.subrange(0, before.len() as int) =~= before);
                    }
                },
            }
        } else {
            collect_functions(source, child, functions);
        }
        proof {
            assert(functions@.subrange(0, start.len() as int) =~= start) by {
                assert(functions@.subrange(0, before.len() as int) == before);
                assert forall|k: int| 0 <= k < start.len() implies functions@[k] == start[k] by {
                    assert(functions@.subrange(0, before.len() as int)[k] == before[k]);
                    assert(before.subrange(0, start.len() as int)[k] == start[k]);
                }
            }
            assert forall|k: int| start.len() <= k < functions@.len() implies (#[trigger] functions@[k]).source_bytes() == source.spec_bytes() by {
                if k < before.len() {
                    assert(functions@.subrange(0, before.len() as int)[k] == before[k]);
                }
            }
            assert(function_nodes(functions@) =~= function_nodes(start) + functions_in_all(node.children@.take(i + 1)));
        }
        i = i + 1;
    }
    proof {
        assert(node.children@.take(i as int) =~= node.children@);
    }
}

/// Edits whose ranges run back to front and are `w` bytes long each have
/// starts that fall strictly when `w` is positive.
proof fn lemma_edit_starts(r: Seq<Edit>, w: int)
    requires
        back_to_front(edit_ranges(r)),
        forall|i: int| 0 <= i < r.len() ==> (#[trigger] edit_ranges(r)[i]).1 - edit_ranges(r)[i].0 == w,
    ensures
        forall|i: int| 0 <= i < r.len() ==> (#[trigger] r[i]).range.end - r[i].range.start == w,
        w > 0 ==> forall|i: int, j: int| 0 <= i < j < r.len() ==> (#[trigger] r[j]).range.start < (#[trigger] r[i]).range.start,
{
    let v = edit_ranges(r);
    assert forall|i: int| 0 <= i < r.len() implies (#[trigger] r[i]).range.end - r[i].range.start == w by {
        assert(v[i] == (r[i].range.start as int, r[i].range.end as int));
    }
    if w > 0 {
        assert forall|i: int, j: int| 0 <= i < j < r.len() implies (#[trigger] r[j]).range.start < (#[trigger] r[i]).range.start by {
            assert(v[i] == (r[i].range.start as int, r[i].range.end as int));
            assert(v[j] == (r[j].range.start as int, r[j].range.end as int));
            assert(v[j].1 <= v[i].0);
        }
    }
}

/// What `usages_from` finds from the line `a` on, held in `r`: strictly
/// ascending numbers after `a` and no greater than the number of lines.
proof fn lemma_usages_in_order(r: Seq<usize>, ls: Seq<Seq<char>>, name: Seq<char>, a: int)
    requires
        a >= 0,
        r.map_values(|n: usize| n as int) == usages_from(ls, name, a),
    ensures
        forall|i: int, j: int| 0 <= i < j < r.len() ==> #[trigger] r[i] < #[trigger] r[j],
        forall|i: int| 0 <= i < r.len() ==> a < #[trigger] r[i] <= ls.len(),
{
    let u = usages_from(ls, name, a);
    lemma_usages_from(ls, name, a);
    assert forall|i: int, j: int| 0 <= i < j < r.len() implies #[trigger] r[i] < #[trigger] r[j] by {
        assert(u[i] == r[i] as int);
        assert(u[j] == r[j] as int);
    }
    assert forall|i: int| 0 <= i < r.len() implies a < #[trigger] r[i] <= ls.len() by {
        assert(u[i] == r[i] as int);
    }
}

impl<'a> Function<'a> {
    #[verifier::type_invariant]
    spec fn wf(self) -> bool {
        node_wf(*self.node, self.source.spec_bytes())
    }

    /// The UTF-8 bytes of the source text that holds the function.
    pub closed spec fn source_bytes(self) -> Seq<u8> {
        self.source.spec_bytes()
    }

    /// The syntax node of the function.
    pub closed spec fn syntax(self) -> SyntaxNode {
        *self.node
    }

    pub(crate) fn new(source: &'a str, node: &'a SyntaxNode) -> (r: Function<'a>)
        requires
            node_wf(*node, source.spec_bytes()),
        ensures
            r.source_bytes() == source.spec_bytes(),
            r.syntax() == *node,
    {
        Function { source, node }
    }

    /// The name of the function, or the empty text when it has none.
    pub fn name(&self) -> (r: &'a str)
        ensures
            r.spec_bytes() == field_text(self.syntax(), self.source_bytes(), "name"@),
    {
        proof {
            use_type_invariant(self);
        }
        field_text_of(self.source, self.node, "name")
    }

    /// The source text of the whole function item.
    pub fn code(&self) -> (r: &'a str)
        ensures
            r.spec_bytes() == text_bytes(self.syntax(), self.source_bytes()),
    {
        proof {
            use_type_invariant(self);
        }
        node_text(self.source, self.node)
    }

    /// The function signature as source text (everything before the body block).
    pub fn signature(&self) -> (r: &'a str)
        ensures
            r@ == signature_chars(self.syntax(), self.source_bytes()),
    {
        proof {
            use_type_invariant(self);
        }
        match child_by_field_name(self.node, "body") {
            Some(body) => {
                proof {
                    lemma_first_where_wf(*self.node, self.source.spec_bytes(), |c: SyntaxNode| has_field(c, "body"@));
                }
                let head = substring(self.source, self.node.start, body.start);
                assert(head@ == decode_utf8(head.spec_bytes()));
                trim(head)
            },
            None => {
                let r = self.code();
                assert(r@ == decode_utf8(r.spec_bytes()));
                r
            },
        }
    }

    /// The function's visibility as source text (e.g. `pub`, `pub(crate)`, or empty).
    pub fn visibility(&self) -> (r: &'a str)
        ensures
            r.spec_bytes() == visibility_bytes(self.syntax(), self.source_bytes()),
    {
        proof {
            use_type_invariant(self);
        }
        match child_of_kind(self.node, "visibility_modifier") {
            Some(v) => {
                proof {
                    lemma_first_where_wf(*self.node, self.source.spec_bytes(), |c: SyntaxNode| has_kind(c, "visibility_modifier"@));
                }
                node_text(self.source, v)
            },
            None => {
                let e = "";
                proof {
                    reveal_strlit("");
                    assert(e.spec_bytes() =~= Seq::<u8>::empty());
                }
                e
            },
        }
    }

    /// The lines of the function's source text, each as characters.
    pub open spec fn code_lines(self) -> Seq<Seq<char>> {
        line_chars(text_bytes(self.syntax(), self.source_bytes()))
    }

    /// Finds 1-indexed line numbers (relative to the function) where `name`
    /// appears as a word after `after_line`. Stops at a shadow (`let {name}`).
    pub fn variable_usages(&self, name: &str, after_line: usize) -> (r: Vec<usize>)
        requires
            regex_compiles(word_pattern(name@)),
            regex_compiles(shadow_pattern(name@)),
        ensures
            r@.map_values(|n: usize| n as int) == usages_from(self.code_lines(), name@, after_line as int),
            forall|i: int, j: int| 0 <= i < j < r.len() ==> #[trigger] r@[i] < #[trigger] r@[j],
            forall|i: int| 0 <= i < r.len() ==> after_line < #[trigger] r@[i] <= self.code_lines().len(),
    {
        let code = self.code();
        let lines = split_lines(code);
        let ghost ls = self.code_lines();
        proof {
            assert(ls =~= bytes_of_strs(lines@).map_values(|l: Seq<u8>| decode_utf8(l)));
            assert forall|k: int| 0 <= k < lines.len() implies #[trigger] ls[k] == lines@[k]@ by {
                assert(lines@[k]@ == decode_utf8(lines@[k].spec_bytes()));
            }
        }
        let word = match Pattern::new(pattern_around("\\b", name, "\\b").as_str()) {
            Some(p) => p,
            None => return Vec::new(),
        };
        let shadow = match Pattern::new(pattern_around("^\\s*let\\s+(mut\\s+)?", name, "\\b").as_str()) {
            Some(p) => p,
            None => return Vec::new(),
        };
        let mut usages: Vec<usize> = Vec::new();
        let mut i = after_line;
        while i < lines.len()
            invariant
                ls == self.code_lines(),
                ls.len() == lines.len(),
                forall|k: int| 0 <= k < lines.len() ==> #[trigger] ls[k] == lines@[k]@,
                word.source() == word_pattern(name@),
                shadow.source() == shadow_pattern(name@),
                after_line <= i || lines.len() <= after_line,
                usages_from(ls, name@, after_line as int) == usages@.map_values(|n: usize| n as int)
                    + usages_from(ls, name@, i as int),
            decreases lines.len() - i,
        {
            let line = lines[i];
            if shadow.is_match(line) {
                proof {
                    assert(usages_from(ls, name@, i as int) == Seq::<int>::empty());
                    assert(usages@.map_values(|n: usize| n as int) + Seq::<int>::empty() =~= usages@.map_values(|n: usize| n as int));
                    lemma_usages_in_order(usages@, ls, name@, after_line as int);
                }
                return usages;
            }
            let ghost before = usages@;
            if !is_comment(line) && word.is_match(line) {
                usages.push(i + 1);
                proof {
                    assert(usages@.map_values(|n: usize| n as int) =~= before.map_values(|n: usize| n as int).push(i + 1));
                    assert(usages@.map_values(|n: usize| n as int) + usages_from(ls, name@, i + 1) =~= before.map_values(|n: usize| n as int)
                        + usages_from(ls, name@, i as int));
                }
            }
            i = i + 1;
        }
        proof {
            assert(usages_from(ls, name@, i as int) == Seq::<int>::empty());
            assert(usages@.map_values(|n: usize| n as int) + Seq::<int>::empty() =~= usages@.map_values(|n: usize| n as int));
            lemma_usages_in_order(usages@, ls, name@, after_line as int);
        }
        usages
    }

    /// The lines of the function's source with the indices `from..to - 1`,
    /// both bounds cut down to the number of lines, joined with line feeds.
    pub fn lines_between(&self, from: usize, to: usize) -> (r: String)
        requires
            between_start(from as int, self.code_lines().len() as int) <= between_end(
                to as int,
                self.code_lines().len() as int,
            ),
        ensures
            r@ == join_lines(
                self.code_lines().subrange(
                    between_start(from as int, self.code_lines().len() as int),
                    between_end(to as int, self.code_lines().len() as int),
                ),
            ),
    {
        let code = self.code();
        let lines = split_lines(code);
        let ghost ls = self.code_lines();
        proof {
            assert(ls =~= bytes_of_strs(lines@).map_values(|l: Seq<u8>| decode_utf8(l)));
            assert forall|k: int| 0 <= k < lines.len() implies #[trigger] ls[k] == lines@[k]@ by {
                assert(lines@[k]@ == decode_utf8(lines@[k].spec_bytes()));
            }
        }
        let n = lines.len();
        let start = if from < n { from } else { n };
        let t = if to >= 1 { to - 1 } else { 0 };
        let end = if t < n { t } else { n };
        let mut out = String::new();
        let mut i = start;
        while i < end
            invariant
                ls.len() == lines.len(),
                forall|k: int| 0 <= k < lines.len() ==> #[trigger] ls[k] == lines@[k]@,
                start <= i <= end <= lines.len(),
                out@ == join_lines(ls.subrange(start as int, i as int)),
            decreases end - i,
        {
            let ghost prev = out@;
            if i > start {
                let nl = "\n";
                proof {
                    reveal_strlit("\n");
                }
                out.append(nl);
            }
            out.append(lines[i]);
            proof {
                let s = ls.subrange(start as int, i + 1);
                assert(s.drop_last() =~= ls.subrange(start as int, i as int));
                assert(s.last() == ls[i as int]);
                if i == start {
                    assert(ls.subrange(start as int, i as int) =~= Seq::<Seq<char>>::empty());
                }
                assert(out@ =~= join_lines(s));
            }
            i = i + 1;
        }
        out
    }

    /// The line with the 1-based number `line` of the function's source, or
    /// the empty text when there is no such line.
    pub fn line_content(&self, line: usize) -> (r: &'a str)
        requires
            line >= 1,
        ensures
            r@ == if line - 1 < self.code_lines().len() {
                self.code_lines()[line - 1]
            } else {
                Seq::<char>::empty()
            },
    {
        let code = self.code();
        let lines = split_lines(code);
        proof {
            if line - 1 < lines.len() {
                let k = line - 1;
                assert(self.code_lines()[k as int] == decode_utf8(lines@[k as int].spec_bytes()));
                assert(lines@[k as int]@ == decode_utf8(lines@[k as int].spec_bytes()));
            }
        }
        if line - 1 < lines.len() {
            lines[line - 1]
        } else {
            let e = "";
            proof {
                reveal_strlit("");
            }
            e
        }
    }

    /// `variable_usages`, or `None` when the patterns that it builds from
    /// `name` do not compile.
    pub fn checked_variable_usages(&self, name: &str, after_line: usize) -> (r: Option<Vec<usize>>)
        ensures
            r is Some <==> regex_compiles(word_pattern(name@)) && regex_compiles(shadow_pattern(name@)),
            r matches Some(v) ==> v@.map_values(|n: usize| n as int) == usages_from(
                self.code_lines(),
                name@,
                after_line as int,
            ),
    {
        let word = Pattern::new(pattern_around("\\b", name, "\\b").as_str());
        let shadow = Pattern::new(pattern_around("^\\s*let\\s+(mut\\s+)?", name, "\\b").as_str());
        if word.is_some() && shadow.is_some() {
            Some(self.variable_usages(name, after_line))
        } else {
            None
        }
    }

    /// The qualified paths (such as `std::fmt::Display`) in the function's
    /// body, each once, in the order of `str`; none when it has no body.
    pub fn qualified_paths(&self) -> (r: Vec<String>)
        requires
            regex_compiles(qualified_path_pattern()),
        ensures
            strictly_ascending(string_views(r@)),
            string_views(r@).to_set() == regex_find_all(
                qualified_path_pattern(),
                decode_utf8(field_text(self.syntax(), self.source_bytes(), "body"@)),
            ).to_set(),
    {
        proof {
            use_type_invariant(self);
        }
        let code = field_text_of(self.source, self.node, "body");
        proof {
            assert(code@ == decode_utf8(code.spec_bytes()));
        }
        let p = match Pattern::new("\\b[a-zA-Z_]\\w*(?:::[a-zA-Z_]\\w*)+") {
            Some(p) => p,
            None => return Vec::new(),
        };
        sorted_unique(p.find_all(code))
    }

    /// `qualified_paths`, or `None` when the pattern of a qualified path does not compile.
    pub fn checked_qualified_paths(&self) -> (r: Option<Vec<String>>)
        ensures
            r is Some <==> regex_compiles(qualified_path_pattern()),
            r matches Some(v) ==> {
                &&& strictly_ascending(string_views(v@))
                &&& string_views(v@).to_set() == regex_find_all(
                    qualified_path_pattern(),
                    decode_utf8(field_text(self.syntax(), self.source_bytes(), "body"@)),
                ).to_set()
            },
    {
        if Pattern::new("\\b[a-zA-Z_]\\w*(?:::[a-zA-Z_]\\w*)+").is_some() {
            Some(self.qualified_paths())
        } else {
            None
        }
    }

    /// Edits that replace each identifier of the function whose text is
    /// `old` by `new`, at positions in the whole source text, last one
    /// first: applied in order, each leaves the positions of the rest valid.
    #[verifier::rlimit(60)]
    pub fn rename_variable(&self, old: &str, new: &str) -> (r: Vec<Edit>)
        ensures
            edit_ranges(r@) == identifier_ranges(self.syntax(), self.source_bytes(), old.spec_bytes()).reverse(),
            back_to_front(edit_ranges(r@)),
            forall|i: int| 0 <= i < r.len() ==> (#[trigger] r@[i]).text@ == new@,
            within(edit_ranges(r@), self.syntax().start as int, self.syntax().end as int),
            within(edit_ranges(r@), 0, self.source_bytes().len() as int),
            forall|i: int| 0 <= i < r.len() ==> (#[trigger] r@[i]).range.end - r@[i].range.start == old.spec_bytes().len(),
            old@.len() > 0 ==> forall|i: int, j: int|
                0 <= i < j < r.len() ==> (#[trigger] r@[j]).range.start < (#[trigger] r@[i]).range.start,
            all_identifier_occurrences(seq![self.syntax()], edit_ranges(r@), self.source_bytes(), old.spec_bytes()),
    {
        proof {
            use_type_invariant(self);
        }
        let mut ranges: Vec<(usize, usize)> = Vec::new();
        collect_identifier_ranges(self.node, self.source, old, &mut ranges);
        let ghost found = identifier_ranges(*self.node, self.source.spec_bytes(), old.spec_bytes());
        proof {
            assert(pair_view(ranges@) =~= found);
            lemma_identifier_ranges_ordered(*self.node, self.source.spec_bytes(), old.spec_bytes());
            lemma_identifier_ranges_width(*self.node, self.source.spec_bytes(), old.spec_bytes());
            lemma_renamed_ranges_are_identifiers(*self.node, self.source.spec_bytes(), old.spec_bytes());
            lemma_reversed_occurrences(seq![*self.node], found, self.source.spec_bytes(), old.spec_bytes());
        }
        let mut edits: Vec<Edit> = Vec::new();
        let mut i: usize = ranges.len();
        while i > 0
            invariant
                i <= ranges.len(),
                pair_view(ranges@) == found,
                edit_ranges(edits@) == found.subrange(i as int, found.len() as int).reverse(),
                forall|j: int| 0 <= j < edits.len() ==> (#[trigger] edits@[j]).text@ == new@,
            decreases i,
        {
            i = i - 1;
            let (s, e) = ranges[i];
            let ghost before = edits@;
            edits.push(Edit { range: Range { start: s, end: e }, text: String::from_str(new) });
            proof {
                assert(found[i as int] == (s as int, e as int));
                assert(edit_ranges(edits@) =~= edit_ranges(before).push((s as int, e as int)));
                assert(found.subrange(i as int, found.len() as int).reverse() =~= found.subrange(
                    i + 1,
                    found.len() as int,
                ).reverse().push(found[i as int]));
            }
        }
        proof {
            assert(found.subrange(0, found.len() as int) =~= found);
            let v = edit_ranges(edits@);
            assert forall|a: int, c: int| 0 <= a < c < v.len() implies (#[trigger] v[c]).1 <= (#[trigger] v[a]).0 by {
                assert(v[a] == found[found.len() - 1 - a]);
                assert(v[c] == found[found.len() - 1 - c]);
            }
            assert forall|a: int| 0 <= a < v.len() implies (#[trigger] v[a]).0 <= v[a].1
                && self.node.start <= v[a].0 && v[a].1 <= self.node.end
                && v[a].1 - v[a].0 == old.spec_bytes().len() by {
                assert(v[a] == found[found.len() - 1 - a]);
            }
            if old@.len() > 0 && old.spec_bytes().len() == 0 {
                assert(old.spec_bytes() =~= Seq::<u8>::empty());
                assert(old@ == decode_utf8(old.spec_bytes()));
            }
            lemma_edit_starts(edits@, old.spec_bytes().len() as int);
        }
        edits
    }

    /// The function as a line of a listing: `fn` and its name.
    pub fn to_string(&self) -> (r: String)
        ensures
            r@ == "fn "@ + decode_utf8(field_text(self.syntax(), self.source_bytes(), "name"@)),
    {
        let name = self.name();
        proof {
            assert(name@ == decode_utf8(name.spec_bytes()));
        }
        let mut out = String::from_str("fn ");
        out.append(name);
        out
    }
}

} // verus!
