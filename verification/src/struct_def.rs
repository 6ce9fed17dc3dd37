//! Struct definitions at the top level of a source file.
use vstd::prelude::*;
use vstd::string::StringSliceAdditionalSpecFns;
use vstd::utf8::decode_utf8;
use crate::syntax::{
    child_by_field, child_by_field_name, field_text, field_text_of, has_field, lemma_first_where_wf,
    node_text, node_wf, SyntaxNode,
};
use crate::text::{append_joined, join_with, str_eq, str_views};

verus! {

broadcast use vstd::utf8::encode_utf8_decode_utf8;

/// A struct definition in the source text `source`.
#[derive(Clone, Copy)]
pub struct Struct<'a> {
    source: &'a str,
    node: &'a SyntaxNode,
}

/// The names of the field declarations among `ts` that have a name, read
/// from the bytes `b`.
pub open spec fn field_names(ts: Seq<SyntaxNode>, b: Seq<u8>) -> Seq<Seq<u8>>
    decreases ts.len(),
{
    if ts.len() == 0 {
        seq![]
    } else {
        let last = ts.last();
        let rest = field_names(ts.drop_last(), b);
        if last.kind@ == "field_declaration"@ && child_by_field(last, "name"@) is Some {
            let n = child_by_field(last, "name"@).unwrap();
            rest.push(b.subrange(n.start as int, n.end as int))
        } else {
            rest
        }
    }
}

/// The node `n` declares a field and names it.
pub open spec fn is_named_field(n: SyntaxNode) -> bool {
    n.kind@ == "field_declaration"@ && child_by_field(n, "name"@) is Some
}

/// The fields listed from the children `ts` of a struct's body are the names
/// of exactly those children that declare a named field, in order, whatever
/// else a declaration holds (a visibility such as `pub`, attributes, a type).
pub proof fn lemma_every_named_field_listed(ts: Seq<SyntaxNode>, b: Seq<u8>)
    ensures
        field_names(ts, b) == ts.filter(|n: SyntaxNode| is_named_field(n)).map_values(
            |n: SyntaxNode| field_text(n, b, "name"@),
        ),
    decreases ts.len(),
{
    reveal(Seq::filter);
    if ts.len() > 0 {
        lemma_every_named_field_listed(ts.drop_last(), b);
        let f = ts.drop_last().filter(|n: SyntaxNode| is_named_field(n));
        if is_named_field(ts.last()) {
            assert(f.push(ts.last()).map_values(|n: SyntaxNode| field_text(n, b, "name"@)) =~= f.map_values(
                |n: SyntaxNode| field_text(n, b, "name"@),
            ).push(field_text(ts.last(), b, "name"@)));
        }
    }
}

/// The names of the fields of the struct node `t`.
pub open spec fn struct_fields(t: SyntaxNode, b: Seq<u8>) -> Seq<Seq<u8>> {
    match child_by_field(t, "body"@) {
        Some(body) => field_names(body.children@, b),
        None => seq![],
    }
}

/// The listing line of the struct node `t`: `struct <name> [<field>, ...]`.
pub open spec fn struct_line(t: SyntaxNode, b: Seq<u8>) -> Seq<char> {
    "struct "@ + decode_utf8(field_text(t, b, "name"@)) + " ["@ + join_with(
        struct_fields(t, b).map_values(|f: Seq<u8>| decode_utf8(f)),
        ", "@,
    ) + "]"@
}

pub open spec fn strs_bytes(v: Seq<&str>) -> Seq<Seq<u8>> {
    v.map_values(|s: &str| s.spec_bytes())
}

/// The syntax nodes of the structs `ss`.
pub open spec fn struct_nodes(ss: Seq<Struct>) -> Seq<SyntaxNode> {
    ss.map_values(|s: Struct| s.syntax())
}

/// The struct items among `ts`.
pub open spec fn struct_items(ts: Seq<SyntaxNode>) -> Seq<SyntaxNode> {
    ts.filter(|x: SyntaxNode| x.kind@ == "struct_item"@)
}

/// The struct definitions among the children of `root`.
pub(crate) fn extract<'a>(source: &'a str, root: &'a SyntaxNode) -> (r: Vec<Struct<'a>>)
    requires
        node_wf(*root, source.spec_bytes()),
    ensures
        struct_nodes(r@) == struct_items(root.children@),
        forall|i: int| 0 <= i < r.len() ==> (#[trigger] r@[i]).source_bytes() == source.spec_bytes(),
{
    let mut structs: Vec<Struct<'a>> = Vec::new();
    let mut i: usize = 0;
    while i < root.children.len()
        invariant
            i <= root.children.len(),
            node_wf(*root, source.spec_bytes()),
            struct_nodes(structs@) == struct_items(root.children@.take(i as int)),
            forall|k: int| 0 <= k < structs.len() ==> (#[trigger] structs@[k]).source_bytes() == source.spec_bytes(),
        decreases root.children.len() - i,
    {
        let child = &root.children[i];
        let ghost before = structs@;
        proof {
            assert(root.children@.take(i + 1) =~= root.children@.take(i as int).push(*child));
            root.children@.take(i as int).lemma_filter_push(*child, |x: SyntaxNode| x.kind@ == "struct_item"@);
        }
        if str_eq(child.kind.as_str(), "struct_item") {
            structs.push(Struct::new(source, child));
            proof {
                assert(struct_nodes(structs@) =~= struct_nodes(before).push(*child));
            }
        }
        i = i + 1;
    }
    proof {
        assert(root.children@.take(i as int) =~= root.children@);
    }
    structs
}

impl<'a> Struct<'a> {
    #[verifier::type_invariant]
    spec fn wf(self) -> bool {
        node_wf(*self.node, self.source.spec_bytes())
    }

    /// The UTF-8 bytes of the source text that holds the struct.
    pub closed spec fn source_bytes(self) -> Seq<u8> {
        self.source.spec_bytes()
    }

    /// The syntax node of the struct.
    pub closed spec fn syntax(self) -> SyntaxNode {
        *self.node
    }

    pub(crate) fn new(source: &'a str, node: &'a SyntaxNode) -> (r: Struct<'a>)
        requires
            node_wf(*node, source.spec_bytes()),
        ensures
            r.source_bytes() == source.spec_bytes(),
            r.syntax() == *node,
    {
        Struct { source, node }
    }

    /// The name of the struct, or the empty text.
    pub fn name(&self) -> (r: &'a str)
        ensures
            r.spec_bytes() == field_text(self.syntax(), self.source_bytes(), "name"@),
    {
        proof {
            use_type_invariant(self);
        }
        field_text_of(self.source, self.node, "name")
    }

    /// The names of the struct's named fields, in order.
    pub fn fields(&self) -> (r: Vec<&'a str>)
        ensures
            strs_bytes(r@) == struct_fields(self.syntax(), self.source_bytes()),
    {
        proof {
            use_type_invariant(self);
        }
        let mut fields: Vec<&'a str> = Vec::new();
        let body = match child_by_field_name(self.node, "body") {
            Some(body) => body,
            None => {
                proof {
                    assert(strs_bytes(fields@) =~= Seq::<Seq<u8>>::empty());
                }
                return fields;
            },
        };
        proof {
            lemma_first_where_wf(*self.node, self.source.spec_bytes(), |c: SyntaxNode| has_field(c, "body"@));
        }
        let mut i: usize = 0;
        while i < body.children.len()
            invariant
                i <= body.children.len(),
                node_wf(*body, self.source.spec_bytes()),
                strs_bytes(fields@) == field_names(body.children@.take(i as int), self.source.spec_bytes()),
            decreases body.children.len() - i,
        {
            let child = &body.children[i];
            let ghost before = fields@;
            proof {
                assert(body.children@.take(i + 1).drop_last() =~= body.children@.take(i as int));
                assert(body.children@.take(i + 1).last() == *child);
            }
            if str_eq(child.kind.as_str(), "field_declaration") {
                match child_by_field_name(child, "name") {
                    Some(n) => {
                        proof {
                            lemma_first_where_wf(*child, self.source.spec_bytes(), |c: SyntaxNode| has_field(c, "name"@));
                        }
                        let text = node_text(self.source, n);
                        fields.push(text);
                        proof {
                            assert(strs_bytes(fields@) =~= strs_bytes(before).push(text.spec_bytes()));
                        }
                    },
                    None => {},
                }
            }
            i = i + 1;
        }
        proof {
            assert(body.children@.take(i as int) =~= body.children@);
        }
        fields
    }

    /// The struct as a line of a listing: `struct <name> [<field>, ...]`.
    pub fn to_string(&self) -> (r: String)
        ensures
            r@ == struct_line(self.syntax(), self.source_bytes()),
    {
        let fields = self.fields();
        let name = self.name();
        proof {
            assert(name@ == decode_utf8(name.spec_bytes()));
            assert(str_views(fields@) =~= struct_fields(self.syntax(), self.source_bytes()).map_values(
                |f: Seq<u8>| decode_utf8(f),
            )) by {
                assert forall|k: int| 0 <= k < fields.len() implies fields@[k]@ == decode_utf8(
                    #[trigger] fields@[k].spec_bytes(),
                ) by {}
            }
        }
        let mut out = String::from_str("struct ");
        out.append(name);
        out.append(" [");
        append_joined(&mut out, &fields, ", ");
        out.append("]");
        proof {
            assert(out@ =~= "struct "@ + name@ + " ["@ + join_with(str_views(fields@), ", "@) + "]"@);
        }
        out
    }
}

} // verus!
