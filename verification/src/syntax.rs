//! The syntax tree of one Rust source file, as tree-sitter hands it out.
use vstd::prelude::*;
use vstd::string::StringSliceAdditionalSpecFns;
use crate::text::{str_eq, substring};

verus! {

/// One node of a syntax tree, as a preorder record: its kind, the field
/// name under which its parent holds it, its byte range and its depth.
pub struct NodeRecord {
    pub kind: String,
    pub field: Option<String>,
    pub start: usize,
    pub end: usize,
    pub depth: usize,
}

/// The mathematical content of a `NodeRecord`.
pub struct NodeInfo {
    pub kind: Seq<char>,
    pub field: Option<Seq<char>>,
    pub start: int,
    pub end: int,
    pub depth: int,
}

pub open spec fn opt_string_view(o: Option<String>) -> Option<Seq<char>> {
    match o {
        Some(s) => Some(s@),
        None => None,
    }
}

impl View for NodeRecord {
    type V = NodeInfo;

    open spec fn view(&self) -> NodeInfo {
        NodeInfo {
            kind: self.kind@,
            field: opt_string_view(self.field),
            start: self.start as int,
            end: self.end as int,
            depth: self.depth as int,
        }
    }
}

pub open spec fn records_view(rs: Seq<NodeRecord>) -> Seq<NodeInfo> {
    rs.map_values(|r: NodeRecord| r@)
}

/// A node of a syntax tree with its children in source order.
pub struct SyntaxNode {
    pub kind: String,
    pub field: Option<String>,
    pub start: usize,
    pub end: usize,
    pub children: Vec<SyntaxNode>,
}

/// The preorder record of the node `t` at depth `d`.
pub open spec fn node_info(t: SyntaxNode, d: int) -> NodeInfo {
    NodeInfo { kind: t.kind@, field: opt_string_view(t.field), start: t.start as int, end: t.end as int, depth: d }
}

/// The preorder listing of the tree `t` whose root stands at depth `d`.
pub open spec fn flatten(t: SyntaxNode, d: int) -> Seq<NodeInfo>
    decreases t,
{
    seq![node_info(t, d)] + flatten_all(t.children@, d + 1)
}

/// The preorder listing of the trees `ts`, one after another, each rooted at depth `d`.
pub open spec fn flatten_all(ts: Seq<SyntaxNode>, d: int) -> Seq<NodeInfo>
    decreases ts,
{
    if ts.len() == 0 {
        seq![]
    } else {
        flatten_all(ts.drop_last(), d) + flatten(ts.last(), d)
    }
}

/// A preorder listing of a single tree: the root first at depth 0, every
/// later node at depth at least 1 and at most one below its predecessor.
pub open spec fn valid_preorder(s: Seq<NodeInfo>) -> bool {
    &&& s.len() > 0
    &&& s[0].depth == 0
    &&& forall|k: int| 0 < k < s.len() ==> 1 <= #[trigger] s[k].depth <= s[k - 1].depth + 1
}

proof fn lemma_depth_bound(s: Seq<NodeInfo>, k: int)
    requires
        valid_preorder(s),
        0 <= k < s.len(),
    ensures
        s[k].depth <= k,
    decreases k,
{
    if k > 0 {
        lemma_depth_bound(s, k - 1);
    }
}

fn copy_string(s: &String) -> (r: String)
    ensures
        r@ == s@,
{
    s.clone()
}

fn copy_opt_string(o: &Option<String>) -> (r: Option<String>)
    ensures
        opt_string_view(r) == opt_string_view(*o),
{
    match o {
        Some(s) => Some(copy_string(s)),
        None => None,
    }
}

/// Builds the subtree whose root is record `i`, at depth `d`; returns it with
/// the index of the first record after it.
fn build_subtree(rs: &Vec<NodeRecord>, i: usize, d: usize) -> (r: (SyntaxNode, usize))
    requires
        valid_preorder(records_view(rs@)),
        i < rs.len(),
        rs@[i as int].depth == d,
    ensures
        i < r.1 <= rs.len(),
        flatten(r.0, d as int) == records_view(rs@).subrange(i as int, r.1 as int),
        r.1 == rs.len() || rs@[r.1 as int].depth <= d,
    decreases rs.len() - i,
{
    let ghost s = records_view(rs@);
    proof {
        lemma_depth_bound(s, i as int);
        if i + 1 < rs.len() {
            assert(s[i + 1].depth <= s[i as int].depth + 1);
            assert(s[i + 1] == rs@[i + 1]@);
        }
    }
    let mut children: Vec<SyntaxNode> = Vec::new();
    let mut j = i + 1;
    while j < rs.len() && rs[j].depth == d + 1
        invariant
            valid_preorder(s),
            s == records_view(rs@),
            i < j <= rs.len(),
            d < rs.len(),
            rs@[i as int].depth == d,
            flatten_all(children@, d + 1) == s.subrange(i + 1, j as int),
            j == rs.len() || rs@[j as int].depth <= d + 1,
        decreases rs.len() - j,
    {
        let (child, next) = build_subtree(rs, j, d + 1);
        proof {
            let old_children = children@;
            assert(old_children.push(child).drop_last() =~= old_children);
            assert(s.subrange(i + 1, j as int) + s.subrange(j as int, next as int) =~= s.subrange(i + 1, next as int));
        }
        children.push(child);
        j = next;
    }
    let node = SyntaxNode {
        kind: copy_string(&rs[i].kind),
        field: copy_opt_string(&rs[i].field),
        start: rs[i].start,
        end: rs[i].end,
        children,
    };
    proof {
        assert(s[i as int] == rs@[i as int]@);
        assert(node_info(node, d as int) == s[i as int]);
        assert(seq![s[i as int]] + s.subrange(i + 1, j as int) =~= s.subrange(i as int, j as int));
        if j < rs.len() {
            assert(s[j as int].depth == rs@[j as int].depth);
        }
    }
    (node, j)
}


/// The syntax tree whose preorder listing is `rs`, or `None` when `rs` is not
/// the preorder listing of a single tree.
pub fn tree_from_preorder(rs: &Vec<NodeRecord>) -> (r: Option<SyntaxNode>)
    ensures
        r is Some <==> valid_preorder(records_view(rs@)),
        r matches Some(t) ==> flatten(t, 0) == records_view(rs@),
{
    let ghost s = records_view(rs@);
    if rs.len() == 0 || rs[0].depth != 0 {
        return None;
    }
    let mut k: usize = 1;
    while k < rs.len()
        invariant
            s == records_view(rs@),
            s.len() > 0,
            s[0].depth == 0,
            1 <= k <= rs.len(),
            forall|m: int| 0 < m < k ==> 1 <= #[trigger] s[m].depth <= s[m - 1].depth + 1,
        decreases rs.len() - k,
    {
        proof {
            assert(s[k as int] == rs@[k as int]@);
            assert(s[k - 1] == rs@[k - 1]@);
        }
        if rs[k].depth < 1 || rs[k].depth - 1 > rs[k - 1].depth {
            proof {
                assert(!(1 <= s[k as int].depth <= s[k - 1].depth + 1));
            }
            return None;
        }
        k = k + 1;
    }
    proof {
        assert(s[0] == rs@[0]@);
    }
    let (root, next) = build_subtree(rs, 0, 0);
    proof {
        if next < rs.len() {
            assert(s[next as int].depth == rs@[next as int].depth);
            assert(1 <= s[next as int].depth);
        }
        assert(s.subrange(0, next as int) =~= s);
    }
    Some(root)
}

/// The trees `t1` and `t2` agree in every node's kind, field name and byte
/// range, and in the number and order of children.
pub open spec fn same_shape(t1: SyntaxNode, t2: SyntaxNode) -> bool
    decreases t1,
{
    &&& node_info(t1, 0) == node_info(t2, 0)
    &&& t1.children.len() == t2.children.len()
    &&& forall|i: int| 0 <= i < t1.children.len() ==> same_shape(#[trigger] t1.children@[i], t2.children@[i])
}

proof fn lemma_flatten_depths(t: SyntaxNode, d: int)
    ensures
        flatten(t, d).len() >= 1,
        flatten(t, d)[0].depth == d,
        forall|k: int| 0 < k < flatten(t, d).len() ==> #[trigger] flatten(t, d)[k].depth > d,
    decreases t,
{
    lemma_flatten_all_depths(t.children@, d + 1);
    let f = flatten(t, d);
    let rest = flatten_all(t.children@, d + 1);
    assert forall|k: int| 0 < k < f.len() implies #[trigger] f[k].depth > d by {
        assert(f[k] == rest[k - 1]);
    }
}

proof fn lemma_flatten_all_depths(ts: Seq<SyntaxNode>, d: int)
    ensures
        forall|k: int| 0 <= k < flatten_all(ts, d).len() ==> #[trigger] flatten_all(ts, d)[k].depth >= d,
    decreases ts,
{
    if ts.len() > 0 {
        lemma_flatten_all_depths(ts.drop_last(), d);
        lemma_flatten_depths(ts.last(), d);
        let a = flatten_all(ts.drop_last(), d);
        let b = flatten(ts.last(), d);
        assert forall|k: int| 0 <= k < flatten_all(ts, d).len() implies #[trigger] flatten_all(ts, d)[k].depth >= d by {
            if k < a.len() {
                assert(flatten_all(ts, d)[k] == a[k]);
            } else {
                assert(flatten_all(ts, d)[k] == b[k - a.len()]);
            }
        }
    }
}

/// A tree is determined, up to the values standing for its texts, by its
/// preorder listing.
pub proof fn lemma_flatten_same_shape(t1: SyntaxNode, t2: SyntaxNode, d: int)
    requires
        flatten(t1, d) == flatten(t2, d),
    ensures
        same_shape(t1, t2),
    decreases t1,
{
    let f = flatten(t1, d);
    assert(f[0] == node_info(t1, d));
    assert(flatten(t2, d)[0] == node_info(t2, d));
    assert(flatten_all(t1.children@, d + 1) =~= f.drop_first());
    assert(flatten_all(t2.children@, d + 1) =~= flatten(t2, d).drop_first());
    lemma_flatten_all_same_shape(t1.children@, t2.children@, d + 1);
}

proof fn lemma_flatten_all_same_shape(c1: Seq<SyntaxNode>, c2: Seq<SyntaxNode>, d: int)
    requires
        flatten_all(c1, d) == flatten_all(c2, d),
    ensures
        c1.len() == c2.len(),
        forall|i: int| 0 <= i < c1.len() ==> same_shape(#[trigger] c1[i], c2[i]),
    decreases c1,
{
    if c1.len() == 0 {
        if c2.len() > 0 {
            lemma_flatten_depths(c2.last(), d);
        }
    } else if c2.len() == 0 {
        lemma_flatten_depths(c1.last(), d);
    } else {
        let a1 = flatten_all(c1.drop_last(), d);
        let b1 = flatten(c1.last(), d);
        let a2 = flatten_all(c2.drop_last(), d);
        let b2 = flatten(c2.last(), d);
        let f = flatten_all(c1, d);
        lemma_flatten_depths(c1.last(), d);
        lemma_flatten_depths(c2.last(), d);
        assert(f == a1 + b1);
        assert(f == a2 + b2);
        if a1.len() < a2.len() {
            assert(f[a2.len() as int] == b2[0]);
            assert(f[a2.len() as int] == b1[a2.len() - a1.len()]);
        } else if a2.len() < a1.len() {
            assert(f[a1.len() as int] == b1[0]);
            assert(f[a1.len() as int] == b2[a1.len() - a2.len()]);
        }
        assert(a1 =~= f.subrange(0, a1.len() as int));
        assert(a2 =~= f.subrange(0, a2.len() as int));
        assert(b1 =~= f.subrange(a1.len() as int, f.len() as int));
        assert(b2 =~= f.subrange(a2.len() as int, f.len() as int));
        lemma_flatten_all_same_shape(c1.drop_last(), c2.drop_last(), d);
        lemma_flatten_same_shape(c1.last(), c2.last(), d);
        assert forall|i: int| 0 <= i < c1.len() implies same_shape(#[trigger] c1[i], c2[i]) by {
            if i < c1.len() - 1 {
                assert(c1.drop_last()[i] == c1[i]);
                assert(c2.drop_last()[i] == c2[i]);
            }
        }
    }
}

/// Trees of the same shape are well formed for the same texts.
pub proof fn lemma_same_shape_wf(t1: SyntaxNode, t2: SyntaxNode, b: Seq<u8>)
    requires
        same_shape(t1, t2),
    ensures
        node_wf(t1, b) == node_wf(t2, b),
    decreases t1,
{
    assert forall|i: int| 0 <= i < t1.children.len() implies node_wf(#[trigger] t1.children@[i], b) == node_wf(
        t2.children@[i],
        b,
    ) by {
        lemma_same_shape_wf(t1.children@[i], t2.children@[i], b);
    }
    if node_wf(t1, b) {
        assert forall|i: int| 0 <= i < t2.children.len() implies {
            &&& t2.start <= #[trigger] t2.children@[i].start
            &&& t2.children@[i].end <= t2.end
            &&& node_wf(t2.children@[i], b)
        } by {
            assert(same_shape(t1.children@[i], t2.children@[i]));
            assert(node_info(t1.children@[i], 0) == node_info(t2.children@[i], 0));
        }
        assert forall|i: int| 0 < i < t2.children.len() implies t2.children@[i - 1].end <= #[trigger] t2.children@[i].start by {
            assert(same_shape(t1.children@[i - 1], t2.children@[i - 1]));
            assert(same_shape(t1.children@[i], t2.children@[i]));
            assert(node_info(t1.children@[i - 1], 0) == node_info(t2.children@[i - 1], 0));
            assert(node_info(t1.children@[i], 0) == node_info(t2.children@[i], 0));
        }
        lemma_node_wf_intro(t2, b);
    }
    if node_wf(t2, b) {
        assert forall|i: int| 0 <= i < t1.children.len() implies {
            &&& t1.start <= #[trigger] t1.children@[i].start
            &&& t1.children@[i].end <= t1.end
            &&& node_wf(t1.children@[i], b)
        } by {
            assert(same_shape(t1.children@[i], t2.children@[i]));
            assert(node_info(t1.children@[i], 0) == node_info(t2.children@[i], 0));
        }
        assert forall|i: int| 0 < i < t1.children.len() implies t1.children@[i - 1].end <= #[trigger] t1.children@[i].start by {
            assert(same_shape(t1.children@[i - 1], t2.children@[i - 1]));
            assert(same_shape(t1.children@[i], t2.children@[i]));
            assert(node_info(t1.children@[i - 1], 0) == node_info(t2.children@[i - 1], 0));
            assert(node_info(t1.children@[i], 0) == node_info(t2.children@[i], 0));
        }
        lemma_node_wf_intro(t1, b);
    }
}

/// Every step of `s` goes at most one level deeper, and no entry lies above depth `d`.
pub open spec fn steps_down_by_one(s: Seq<NodeInfo>, d: int) -> bool {
    &&& forall|k: int| 0 <= k < s.len() ==> #[trigger] s[k].depth >= d
    &&& forall|k: int| 0 < k < s.len() ==> #[trigger] s[k].depth <= s[k - 1].depth + 1
}

proof fn lemma_flatten_steps(t: SyntaxNode, d: int)
    ensures
        steps_down_by_one(flatten(t, d), d),
        flatten(t, d)[0].depth == d,
    decreases t,
{
    lemma_flatten_all_steps(t.children@, d + 1);
    let rest = flatten_all(t.children@, d + 1);
    let f = flatten(t, d);
    assert forall|k: int| 0 < k < f.len() implies #[trigger] f[k].depth <= f[k - 1].depth + 1 by {
        assert(f[k] == rest[k - 1]);
        if k > 1 {
            assert(f[k - 1] == rest[k - 2]);
        }
    }
    assert forall|k: int| 0 <= k < f.len() implies #[trigger] f[k].depth >= d by {
        if k > 0 {
            assert(f[k] == rest[k - 1]);
        }
    }
}

proof fn lemma_flatten_all_steps(ts: Seq<SyntaxNode>, d: int)
    ensures
        steps_down_by_one(flatten_all(ts, d), d),
        flatten_all(ts, d).len() > 0 ==> flatten_all(ts, d)[0].depth == d,
    decreases ts,
{
    if ts.len() > 0 {
        lemma_flatten_all_steps(ts.drop_last(), d);
        lemma_flatten_steps(ts.last(), d);
        let a = flatten_all(ts.drop_last(), d);
        let b = flatten(ts.last(), d);
        let f = flatten_all(ts, d);
        assert(f == a + b);
        assert forall|k: int| 0 < k < f.len() implies #[trigger] f[k].depth <= f[k - 1].depth + 1 by {
            if k < a.len() {
                assert(f[k] == a[k]);
                assert(f[k - 1] == a[k - 1]);
            } else if k == a.len() {
                assert(f[k] == b[0]);
                assert(f[k - 1] == a[k - 1]);
            } else {
                assert(f[k] == b[k - a.len()]);
                assert(f[k - 1] == b[k - 1 - a.len()]);
            }
        }
        assert forall|k: int| 0 <= k < f.len() implies #[trigger] f[k].depth >= d by {
            if k < a.len() {
                assert(f[k] == a[k]);
            } else {
                assert(f[k] == b[k - a.len()]);
            }
        }
        if a.len() > 0 {
            assert(f[0] == a[0]);
        } else {
            assert(f[0] == b[0]);
        }
    }
}

/// The preorder listing of every tree is a valid one, so that
/// `tree_from_preorder` builds from it a tree of the same shape.
pub proof fn lemma_flatten_valid_preorder(t: SyntaxNode)
    ensures
        valid_preorder(flatten(t, 0)),
{
    lemma_flatten_steps(t, 0);
    lemma_flatten_depths(t, 0);
}

/// `start..end` is a range of whole characters of the text whose UTF-8 bytes are `b`.
pub open spec fn range_ok(start: int, end: int, b: Seq<u8>) -> bool {
    &&& 0 <= start <= end <= b.len()
    &&& vstd::utf8::is_char_boundary(b, start)
    &&& vstd::utf8::is_char_boundary(b, end)
}

/// Every node of `t` covers whole characters of the text `b`, every child
/// lies within its parent, and no child starts before its elder sibling ends.
pub open spec fn node_wf(t: SyntaxNode, b: Seq<u8>) -> bool
    decreases t,
{
    &&& range_ok(t.start as int, t.end as int, b)
    &&& forall|i: int|
        0 <= i < t.children.len() ==> {
            &&& t.start <= #[trigger] t.children@[i].start
            &&& t.children@[i].end <= t.end
            &&& node_wf(t.children@[i], b)
        }
    &&& forall|i: int| 0 < i < t.children.len() ==> t.children@[i - 1].end <= #[trigger] t.children@[i].start
}


proof fn lemma_node_wf_intro(t: SyntaxNode, b: Seq<u8>)
    requires
        range_ok(t.start as int, t.end as int, b),
        forall|j: int|
            0 <= j < t.children.len() ==> {
                &&& t.start <= #[trigger] t.children@[j].start
                &&& t.children@[j].end <= t.end
                &&& node_wf(t.children@[j], b)
            },
        forall|j: int| 0 < j < t.children.len() ==> t.children@[j - 1].end <= #[trigger] t.children@[j].start,
    ensures
        node_wf(t, b),
{
}

/// Whether `t` is well formed for `source` (see `node_wf`).
pub fn check_tree(t: &SyntaxNode, source: &str) -> (r: bool)
    ensures
        r == node_wf(*t, source.spec_bytes()),
    decreases t,
{
    if !(t.start <= t.end && t.end <= source.as_bytes().len() && source.is_char_boundary(t.start)
        && source.is_char_boundary(t.end)) {
        return false;
    }
    let mut i: usize = 0;
    while i < t.children.len()
        invariant
            i <= t.children.len(),
            range_ok(t.start as int, t.end as int, source.spec_bytes()),
            forall|j: int|
                0 <= j < i ==> {
                    &&& t.start <= #[trigger] t.children@[j].start
                    &&& t.children@[j].end <= t.end
                    &&& node_wf(t.children@[j], source.spec_bytes())
                },
            forall|j: int| 0 < j < i ==> t.children@[j - 1].end <= #[trigger] t.children@[j].start,
        decreases t.children.len() - i,
    {
        let c = &t.children[i];
        if i > 0 && t.children[i - 1].end > c.start {
            return false;
        }
        if !(t.start <= c.start && c.end <= t.end && check_tree(c, source)) {
            return false;
        }
        i = i + 1;
    }
    proof {
        assert(forall|j: int|
            0 <= j < t.children.len() ==> {
                &&& t.start <= #[trigger] t.children@[j].start
                &&& t.children@[j].end <= t.end
                &&& node_wf(t.children@[j], source.spec_bytes())
            });
        assert(forall|j: int| 0 < j < t.children.len() ==> t.children@[j - 1].end <= #[trigger] t.children@[j].start);
        lemma_node_wf_intro(*t, source.spec_bytes());
    }
    true
}

/// Whether `c` is held by its parent under the field name `f`.
pub open spec fn has_field(c: SyntaxNode, f: Seq<char>) -> bool {
    c.field matches Some(x) && x@ == f
}

/// Whether `c` is of kind `k`.
pub open spec fn has_kind(c: SyntaxNode, k: Seq<char>) -> bool {
    c.kind@ == k
}

/// `i` is the position of the first of `cs` that satisfies `p`.
pub open spec fn is_first_where(cs: Seq<SyntaxNode>, p: spec_fn(SyntaxNode) -> bool, i: int) -> bool {
    &&& 0 <= i < cs.len()
    &&& p(cs[i])
    &&& forall|j: int| 0 <= j < i ==> !p(#[trigger] cs[j])
}

/// The first of `cs` that satisfies `p`, if any does.
pub open spec fn first_where(cs: Seq<SyntaxNode>, p: spec_fn(SyntaxNode) -> bool) -> Option<SyntaxNode> {
    if exists|i: int| is_first_where(cs, p, i) {
        Some(cs[choose|i: int| is_first_where(cs, p, i)])
    } else {
        None
    }
}

/// The first child of `t` held under the field name `f`, as `Node::child_by_field_name` finds it.
pub open spec fn child_by_field(t: SyntaxNode, f: Seq<char>) -> Option<SyntaxNode> {
    first_where(t.children@, |c: SyntaxNode| has_field(c, f))
}

/// The first child of `t` of kind `k`.
pub open spec fn child_by_kind(t: SyntaxNode, k: Seq<char>) -> Option<SyntaxNode> {
    first_where(t.children@, |c: SyntaxNode| has_kind(c, k))
}

proof fn lemma_first_where_unique(cs: Seq<SyntaxNode>, p: spec_fn(SyntaxNode) -> bool, i: int)
    requires
        is_first_where(cs, p, i),
    ensures
        first_where(cs, p) == Some(cs[i]),
{
    let j = choose|j: int| is_first_where(cs, p, j);
    assert(is_first_where(cs, p, j));
    if j < i {
        assert(!p(cs[j]));
    } else if i < j {
        assert(!p(cs[i]));
    }
}

/// The first child of `t` held under the field name `f`.
pub fn child_by_field_name<'t>(t: &'t SyntaxNode, f: &str) -> (r: Option<&'t SyntaxNode>)
    ensures
        match r {
            Some(c) => child_by_field(*t, f@) == Some(*c),
            None => child_by_field(*t, f@) is None,
        },
{
    let ghost p = |c: SyntaxNode| has_field(c, f@);
    let mut i: usize = 0;
    while i < t.children.len()
        invariant
            i <= t.children.len(),
            p == (|c: SyntaxNode| has_field(c, f@)),
            forall|j: int| 0 <= j < i ==> !p(#[trigger] t.children@[j]),
        decreases t.children.len() - i,
    {
        let c = &t.children[i];
        let hit = match &c.field {
            Some(x) => str_eq(x.as_str(), f),
            None => false,
        };
        if hit {
            proof {
                assert(is_first_where(t.children@, p, i as int));
                lemma_first_where_unique(t.children@, p, i as int);
            }
            return Some(c);
        }
        i = i + 1;
    }
    proof {
        assert(!exists|i: int| is_first_where(t.children@, p, i));
    }
    None
}

/// The first child of `t` of kind `k`.
pub fn child_of_kind<'t>(t: &'t SyntaxNode, k: &str) -> (r: Option<&'t SyntaxNode>)
    ensures
        match r {
            Some(c) => child_by_kind(*t, k@) == Some(*c),
            None => child_by_kind(*t, k@) is None,
        },
{
    let ghost p = |c: SyntaxNode| has_kind(c, k@);
    let mut i: usize = 0;
    while i < t.children.len()
        invariant
            i <= t.children.len(),
            p == (|c: SyntaxNode| has_kind(c, k@)),
            forall|j: int| 0 <= j < i ==> !p(#[trigger] t.children@[j]),
        decreases t.children.len() - i,
    {
        let c = &t.children[i];
        if str_eq(c.kind.as_str(), k) {
            proof {
                assert(is_first_where(t.children@, p, i as int));
                lemma_first_where_unique(t.children@, p, i as int);
            }
            return Some(c);
        }
        i = i + 1;
    }
    proof {
        assert(!exists|i: int| is_first_where(t.children@, p, i));
    }
    None
}

/// The source text that the node `t` covers.
pub fn node_text<'a>(source: &'a str, t: &SyntaxNode) -> (r: &'a str)
    requires
        range_ok(t.start as int, t.end as int, source.spec_bytes()),
    ensures
        r.spec_bytes() == source.spec_bytes().subrange(t.start as int, t.end as int),
{
    substring(source, t.start, t.end)
}


/// A node that `first_where` picks out of the children of a well-formed node
/// is itself well formed and lies within its parent.
pub proof fn lemma_first_where_wf(t: SyntaxNode, b: Seq<u8>, p: spec_fn(SyntaxNode) -> bool)
    requires
        node_wf(t, b),
        first_where(t.children@, p) is Some,
    ensures
        node_wf(first_where(t.children@, p).unwrap(), b),
        t.start <= first_where(t.children@, p).unwrap().start,
        first_where(t.children@, p).unwrap().end <= t.end,
{
    let i = choose|i: int| is_first_where(t.children@, p, i);
    assert(is_first_where(t.children@, p, i));
    assert(first_where(t.children@, p).unwrap() == t.children@[i]);
}

/// The text of the first child of `t` held under the field name `f`, or
/// nothing when `t` has no such child.
pub open spec fn field_text(t: SyntaxNode, b: Seq<u8>, f: Seq<char>) -> Seq<u8> {
    match child_by_field(t, f) {
        Some(c) => b.subrange(c.start as int, c.end as int),
        None => seq![],
    }
}

/// The text of the first child of `t` held under the field name `f`, or the
/// empty text when `t` has no such child.
pub fn field_text_of<'a>(source: &'a str, t: &SyntaxNode, f: &str) -> (r: &'a str)
    requires
        node_wf(*t, source.spec_bytes()),
    ensures
        r.spec_bytes() == field_text(*t, source.spec_bytes(), f@),
{
    match child_by_field_name(t, f) {
        Some(c) => {
            proof {
                lemma_first_where_wf(*t, source.spec_bytes(), |c: SyntaxNode| has_field(c, f@));
            }
            node_text(source, c)
        },
        None => {
            let e = "";
            proof {
                reveal_strlit("");
                assert(e@ =~= Seq::<char>::empty());
                assert(e.spec_bytes() =~= Seq::<u8>::empty());
            }
            e
        },
    }
}


/// The preorder listing of the syntax tree that tree-sitter's Rust grammar
/// gives the text `source`, or `None` when no tree comes out.
pub uninterp spec fn rust_syntax_preorder(source: Seq<char>) -> Option<Seq<NodeInfo>>;

/// Parses `source` with `tree_sitter::Parser` set to `tree_sitter_rust::LANGUAGE`
/// and lists the nodes of the tree in preorder, as the tree's `TreeCursor`
/// visits them with `goto_descendant`: kind, field name, byte range and depth
/// of each. The contract names the listing and claims nothing more of it; it
/// is `None` when `Parser::set_language` or `Parser::parse` fails.
#[verifier::external_body]
pub(crate) fn parse_rust_preorder(source: &str) -> (r: Option<Vec<NodeRecord>>)
    ensures
        match r {
            Some(v) => rust_syntax_preorder(source@) == Some(records_view(v@)),
            None => rust_syntax_preorder(source@) is None,
        },
{
    let mut parser = tree_sitter::Parser::new();
    parser.set_language(&tree_sitter_rust::LANGUAGE.into()).ok()?;
    let tree = parser.parse(source, None)?;
    let mut cursor = tree.walk();
    let mut records = Vec::new();
    for i in 0..tree.root_node().descendant_count() {
        cursor.goto_descendant(i);
        let node = cursor.node();
        let field = cursor.field_name().map(String::from);
        let depth = cursor.depth() as usize;
        records.push(NodeRecord { kind: node.kind().to_string(), field, start: node.start_byte(), end: node.end_byte(), depth });
    }
    Some(records)
}

} // verus!
