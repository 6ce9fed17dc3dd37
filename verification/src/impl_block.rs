//! Impl blocks at the top level of a source file.
use vstd::prelude::*;
use vstd::string::StringSliceAdditionalSpecFns;
use vstd::utf8::decode_utf8;
use crate::function::{function_items, function_nodes, push_function_items, Function};
use crate::syntax::{
    child_by_field, child_by_field_name, field_text, field_text_of, has_field, lemma_first_where_wf,
    node_text, node_wf, SyntaxNode,
};
use crate::text::{append_joined, join_with, str_eq, str_views};

verus! {

broadcast use vstd::utf8::encode_utf8_decode_utf8;

/// An impl block in the source text `source`.
#[derive(Clone, Copy)]
pub struct ImplBlock<'a> {
    source: &'a str,
    node: &'a SyntaxNode,
}

/// The text of the trait that the impl node `t` implements, if it names one.
pub open spec fn trait_text(t: SyntaxNode, b: Seq<u8>) -> Option<Seq<u8>> {
    match child_by_field(t, "trait"@) {
        Some(c) => Some(b.subrange(c.start as int, c.end as int)),
        None => None,
    }
}

/// The function items directly in the body of the impl node `t`.
pub open spec fn impl_methods(t: SyntaxNode) -> Seq<SyntaxNode> {
    match child_by_field(t, "body"@) {
        Some(body) => function_items(body.children@),
        None => seq![],
    }
}

/// The names of the function nodes `ms`, read from the bytes `b`.
pub open spec fn method_names(ms: Seq<SyntaxNode>, b: Seq<u8>) -> Seq<Seq<char>> {
    ms.map_values(|m: SyntaxNode| decode_utf8(field_text(m, b, "name"@)))
}

/// The listing line of the impl node `t`:
/// `impl [<trait> for ]<type> [<method>, ...]`.
pub open spec fn impl_line(t: SyntaxNode, b: Seq<u8>) -> Seq<char> {
    let trait_part = match trait_text(t, b) {
        Some(tr) => decode_utf8(tr) + " for "@,
        None => seq![],
    };
    "impl "@ + trait_part + decode_utf8(field_text(t, b, "type"@)) + " ["@ + join_with(
        method_names(impl_methods(t), b),
        ", "@,
    ) + "]"@
}

/// The syntax nodes of the impl blocks `bs`.
pub open spec fn impl_nodes(bs: Seq<ImplBlock>) -> Seq<SyntaxNode> {
    bs.map_values(|b: ImplBlock| b.syntax())
}

/// The impl items among `ts`.
pub open spec fn impl_items(ts: Seq<SyntaxNode>) -> Seq<SyntaxNode> {
    ts.filter(|x: SyntaxNode| x.kind@ == "impl_item"@)
}

/// The impl blocks among the children of `root`.
pub(crate) fn extract<'a>(source: &'a str, root: &'a SyntaxNode) -> (r: Vec<ImplBlock<'a>>)
    requires
        node_wf(*root, source.spec_bytes()),
    ensures
        impl_nodes(r@) == impl_items(root.children@),
        forall|i: int| 0 <= i < r.len() ==> (#[trigger] r@[i]).source_bytes() == source.spec_bytes(),
{
    let mut blocks: Vec<ImplBlock<'a>> = Vec::new();
    let mut i: usize = 0;
    while i < root.children.len()
        invariant
            i <= root.children.len(),
            node_wf(*root, source.spec_bytes()),
            impl_nodes(blocks@) == impl_items(root.children@.take(i as int)),
            forall|k: int| 0 <= k < blocks.len() ==> (#[trigger] blocks@[k]).source_bytes() == source.spec_bytes(),
        decreases root.children.len() - i,
    {
        let child = &root.children[i];
        let ghost before = blocks@;
        proof {
            assert(root.children@.take(i + 1) =~= root.children@.take(i as int).push(*child));
            root.children@.take(i as int).lemma_filter_push(*child, |x: SyntaxNode| x.kind@ == "impl_item"@);
        }
        if str_eq(child.kind.as_str(), "impl_item") {
            blocks.push(ImplBlock::new(source, child));
            proof {
                assert(impl_nodes(blocks@) =~= impl_nodes(before).push(*child));
            }
        }
        i = i + 1;
    }
    proof {
        assert(root.children@.take(i as int) =~= root.children@);
    }
    blocks
}

impl<'a> ImplBlock<'a> {
    #[verifier::type_invariant]
    spec fn wf(self) -> bool {
        node_wf(*self.node, self.source.spec_bytes())
    }

    /// The UTF-8 bytes of the source text that holds the impl block.
    pub closed spec fn source_bytes(self) -> Seq<u8> {
        self.source.spec_bytes()
    }

    /// The syntax node of the impl block.
    pub closed spec fn syntax(self) -> SyntaxNode {
        *self.node
    }

    pub(crate) fn new(source: &'a str, node: &'a SyntaxNode) -> (r: ImplBlock<'a>)
        requires
            node_wf(*node, source.spec_bytes()),
        ensures
            r.source_bytes() == source.spec_bytes(),
            r.syntax() == *node,
    {
        ImplBlock { source, node }
    }

    /// The type that the block implements for, or the empty text.
    pub fn target_type(&self) -> (r: &'a str)
        ensures
            r.spec_bytes() == field_text(self.syntax(), self.source_bytes(), "type"@),
    {
        proof {
            use_type_invariant(self);
        }
        field_text_of(self.source, self.node, "type")
    }

    /// The trait that the block implements, if it names one.
    pub fn trait_name(&self) -> (r: Option<&'a str>)
        ensures
            match r {
                Some(s) => trait_text(self.syntax(), self.source_bytes()) == Some(s.spec_bytes()),
                None => trait_text(self.syntax(), self.source_bytes()) is None,
            },
    {
        proof {
            use_type_invariant(self);
        }
        match child_by_field_name(self.node, "trait") {
            Some(c) => {
                proof {
                    lemma_first_where_wf(*self.node, self.source.spec_bytes(), |c: SyntaxNode| has_field(c, "trait"@));
                }
                Some(node_text(self.source, c))
            },
            None => None,
        }
    }

    /// The function items directly in the block's body.
    pub fn methods(&self) -> (r: Vec<Function<'a>>)
        ensures
            function_nodes(r@) == impl_methods(self.syntax()),
            forall|i: int| 0 <= i < r.len() ==> (#[trigger] r@[i]).source_bytes() == self.source_bytes(),
    {
        proof {
            use_type_invariant(self);
        }
        let mut methods: Vec<Function<'a>> = Vec::new();
        match child_by_field_name(self.node, "body") {
            Some(body) => {
                proof {
                    lemma_first_where_wf(*self.node, self.source.spec_bytes(), |c: SyntaxNode| has_field(c, "body"@));
                    assert(function_nodes(methods@) =~= Seq::<SyntaxNode>::empty());
                }
                push_function_items(self.source, body, &mut methods);
                proof {
                    assert(function_nodes(methods@) =~= impl_methods(*self.node));
                }
            },
            None => {
                proof {
                    assert(function_nodes(methods@) =~= Seq::<SyntaxNode>::empty());
                }
            },
        }
        methods
    }

    /// The block as a line of a listing:
    /// `impl [<trait> for ]<type> [<method>, ...]`.
    pub fn to_string(&self) -> (r: String)
        ensures
            r@ == impl_line(self.syntax(), self.source_bytes()),
    {
        let methods = self.methods();
        let mut names: Vec<&str> = Vec::new();
        let mut i: usize = 0;
        while i < methods.len()
            invariant
                i <= methods.len(),
                function_nodes(methods@) == impl_methods(self.syntax()),
                forall|k: int| 0 <= k < methods.len() ==> (#[trigger] methods@[k]).source_bytes() == self.source_bytes(),
                str_views(names@) == method_names(impl_methods(self.syntax()).take(i as int), self.source_bytes()),
            decreases methods.len() - i,
        {
            let n = methods[i].name();
            proof {
                assert(n@ == decode_utf8(n.spec_bytes()));
                assert(function_nodes(methods@)[i as int] == methods@[i as int].syntax());
            }
            let ghost before = names@;
            names.push(n);
            proof {
                assert(str_views(names@) =~= str_views(before).push(n@));
                assert(impl_methods(self.syntax()).take(i + 1) =~= impl_methods(self.syntax()).take(i as int).push(
                    impl_methods(self.syntax())[i as int],
                ));
                assert(method_names(impl_methods(self.syntax()).take(i + 1), self.source_bytes()) =~= method_names(
                    impl_methods(self.syntax()).take(i as int),
                    self.source_bytes(),
                ).push(n@));
            }
            i = i + 1;
        }
        proof {
            assert(impl_methods(self.syntax()).take(i as int) =~= impl_methods(self.syntax()));
        }
        let mut out = String::from_str("impl ");
        match self.trait_name() {
            Some(t) => {
                proof {
                    assert(t@ == decode_utf8(t.spec_bytes()));
                }
                out.append(t);
                out.append(" for ");
            },
            None => {
                proof {
                    reveal_strlit("impl ");
                }
            },
        }
        let target = self.target_type();
        proof {
            assert(target@ == decode_utf8(target.spec_bytes()));
        }
        out.append(target);
        out.append(" [");
        append_joined(&mut out, &names, ", ");
        out.append("]");
        proof {
            let tp = match trait_text(self.syntax(), self.source_bytes()) {
                Some(tr) => decode_utf8(tr) + " for "@,
                None => Seq::<char>::empty(),
            };
            assert(out@ =~= "impl "@ + tp + target@ + " ["@ + join_with(str_views(names@), ", "@) + "]"@);
        }
        out
    }
}

} // verus!
