//! Rust source files with their syntax trees, and collections of them.
use vstd::prelude::*;
use vstd::utf8::encode_utf8;
use crate::function::{collect_functions, function_nodes, functions_in_all, Function};
use crate::impl_block::{impl_items, impl_nodes, ImplBlock};
use crate::struct_def::{struct_items, struct_nodes, Struct};
use crate::syntax::{
    check_tree, flatten, lemma_flatten_same_shape, lemma_same_shape_wf, node_wf, parse_rust_preorder,
    records_view, rust_syntax_preorder, tree_from_preorder, valid_preorder, NodeInfo, NodeRecord,
    SyntaxNode,
};

verus! {

/// `s` is the preorder listing of a tree that is well formed for the text
/// whose UTF-8 bytes are `b` (see `node_wf`).
pub open spec fn preorder_ok(s: Seq<NodeInfo>, b: Seq<u8>) -> bool {
    &&& valid_preorder(s)
    &&& forall|t: SyntaxNode| flatten(t, 0) == s ==> node_wf(t, b)
}

/// Tree-sitter gives `text` a syntax tree, and the tree is well formed for
/// `text` (see `node_wf`).
pub open spec fn file_parses(text: Seq<char>) -> bool {
    match rust_syntax_preorder(text) {
        Some(s) => preorder_ok(s, encode_utf8(text)),
        None => false,
    }
}

/// The text of one Rust source file with its syntax tree.
pub struct SourceFile {
    text: String,
    root: SyntaxNode,
}

impl SourceFile {
    #[verifier::type_invariant]
    spec fn wf(self) -> bool {
        node_wf(self.root, encode_utf8(self.text@))
    }

    /// The text of the file.
    pub closed spec fn text_view(self) -> Seq<char> {
        self.text@
    }

    /// The syntax tree of the file.
    pub closed spec fn root_view(self) -> SyntaxNode {
        self.root
    }

    /// The text of the file.
    pub fn text(&self) -> (r: &str)
        ensures
            r@ == self.text_view(),
    {
        self.text.as_str()
    }

    /// The syntax tree of the file.
    pub fn root(&self) -> (r: &SyntaxNode)
        ensures
            *r == self.root_view(),
    {
        &self.root
    }

    /// The file `text` with the syntax tree whose preorder listing is `records`;
    /// `None` when `records` lists no single tree, or a tree that is not well
    /// formed for `text`.
    pub fn from_preorder(text: String, records: &Vec<NodeRecord>) -> (r: Option<SourceFile>)
        ensures
            r matches Some(f) ==> {
                &&& f.text_view() == text@
                &&& flatten(f.root_view(), 0) == records_view(records@)
                &&& node_wf(f.root_view(), encode_utf8(text@))
            },
            r is Some <==> preorder_ok(records_view(records@), encode_utf8(text@)),
    {
        let root = match tree_from_preorder(records) {
            Some(t) => t,
            None => return None,
        };
        if !check_tree(&root, text.as_str()) {
            return None;
        }
        proof {
            assert forall|t: SyntaxNode| flatten(t, 0) == records_view(records@) implies node_wf(
                t,
                encode_utf8(text@),
            ) by {
                lemma_flatten_same_shape(root, t, 0);
                lemma_same_shape_wf(root, t, encode_utf8(text@));
            }
        }
        Some(SourceFile { text, root })
    }

    /// Parses `text` with tree-sitter's Rust grammar.
    pub fn parse(text: String) -> (r: Option<SourceFile>)
        ensures
            r matches Some(f) ==> {
                &&& f.text_view() == text@
                &&& rust_syntax_preorder(text@) == Some(flatten(f.root_view(), 0))
            },
            r is Some <==> file_parses(text@),
    {
        let records = match parse_rust_preorder(text.as_str()) {
            Some(rs) => rs,
            None => return None,
        };
        SourceFile::from_preorder(text, &records)
    }

    /// The functions of the file: free functions, methods in impl blocks,
    /// and the functions nested in other items, in source order.
    pub fn functions(&self) -> (r: Vec<Function<'_>>)
        ensures
            function_nodes(r@) == functions_in_all(self.root_view().children@),
            forall|i: int| 0 <= i < r.len() ==> (#[trigger] r@[i]).source_bytes() == encode_utf8(self.text_view()),
    {
        proof {
            use_type_invariant(self);
        }
        let mut functions: Vec<Function<'_>> = Vec::new();
        collect_functions(self.text.as_str(), &self.root, &mut functions);
        proof {
            assert(function_nodes(functions@) =~= functions_in_all(self.root.children@));
        }
        functions
    }

    /// The impl blocks at the top level of the file.
    pub fn impl_blocks(&self) -> (r: Vec<ImplBlock<'_>>)
        ensures
            impl_nodes(r@) == impl_items(self.root_view().children@),
            forall|i: int| 0 <= i < r.len() ==> (#[trigger] r@[i]).source_bytes() == encode_utf8(self.text_view()),
    {
        proof {
            use_type_invariant(self);
        }
        crate::impl_block::extract(self.text.as_str(), &self.root)
    }

    /// The struct definitions at the top level of the file.
    pub fn structs(&self) -> (r: Vec<Struct<'_>>)
        ensures
            struct_nodes(r@) == struct_items(self.root_view().children@),
            forall|i: int| 0 <= i < r.len() ==> (#[trigger] r@[i]).source_bytes() == encode_utf8(self.text_view()),
    {
        proof {
            use_type_invariant(self);
        }
        crate::struct_def::extract(self.text.as_str(), &self.root)
    }
}

/// The source file at `index` did not parse.
#[derive(Debug)]
pub struct ParseFailure {
    pub index: usize,
}

/// A collection of parsed Rust source files.
pub struct Codebase {
    files: Vec<SourceFile>,
}

/// The functions of the files `fs`, each with the bytes of its file's text,
/// file after file.
pub open spec fn codebase_functions(fs: Seq<SourceFile>) -> Seq<(Seq<u8>, SyntaxNode)>
    decreases fs.len(),
{
    if fs.len() == 0 {
        seq![]
    } else {
        let f = fs.last();
        codebase_functions(fs.drop_last()) + functions_in_all(f.root_view().children@).map_values(
            |n: SyntaxNode| (encode_utf8(f.text_view()), n),
        )
    }
}

/// The impl blocks of the files `fs`, each with the bytes of its file's text,
/// file after file.
pub open spec fn codebase_impl_blocks(fs: Seq<SourceFile>) -> Seq<(Seq<u8>, SyntaxNode)>
    decreases fs.len(),
{
    if fs.len() == 0 {
        seq![]
    } else {
        let f = fs.last();
        codebase_impl_blocks(fs.drop_last()) + impl_items(f.root_view().children@).map_values(
            |n: SyntaxNode| (encode_utf8(f.text_view()), n),
        )
    }
}

/// The structs of the files `fs`, each with the bytes of its file's text,
/// file after file.
pub open spec fn codebase_structs(fs: Seq<SourceFile>) -> Seq<(Seq<u8>, SyntaxNode)>
    decreases fs.len(),
{
    if fs.len() == 0 {
        seq![]
    } else {
        let f = fs.last();
        codebase_structs(fs.drop_last()) + struct_items(f.root_view().children@).map_values(
            |n: SyntaxNode| (encode_utf8(f.text_view()), n),
        )
    }
}

pub open spec fn located_functions(v: Seq<Function>) -> Seq<(Seq<u8>, SyntaxNode)> {
    v.map_values(|f: Function| (f.source_bytes(), f.syntax()))
}

pub open spec fn located_impl_blocks(v: Seq<ImplBlock>) -> Seq<(Seq<u8>, SyntaxNode)> {
    v.map_values(|b: ImplBlock| (b.source_bytes(), b.syntax()))
}

pub open spec fn located_structs(v: Seq<Struct>) -> Seq<(Seq<u8>, SyntaxNode)> {
    v.map_values(|s: Struct| (s.source_bytes(), s.syntax()))
}

impl Codebase {
    /// The parsed files, in the order of their texts.
    pub closed spec fn files_view(self) -> Seq<SourceFile> {
        self.files@
    }

    /// Parses each of `sources` as a Rust source file; fails with the index
    /// of the first that does not parse.
    pub fn parse(sources: Vec<String>) -> (r: Result<Codebase, ParseFailure>)
        ensures
            r is Ok <==> forall|i: int| 0 <= i < sources.len() ==> file_parses(#[trigger] sources@[i]@),
            r matches Ok(cb) ==> {
                &&& cb.files_view().len() == sources.len()
                &&& forall|i: int|
                    0 <= i < sources.len() ==> {
                        &&& (#[trigger] cb.files_view()[i]).text_view() == sources@[i]@
                        &&& rust_syntax_preorder(sources@[i]@) == Some(flatten(cb.files_view()[i].root_view(), 0))
                    }
            },
            r matches Err(e) ==> {
                &&& e.index < sources.len()
                &&& !file_parses(sources@[e.index as int]@)
                &&& forall|j: int| 0 <= j < e.index ==> file_parses(#[trigger] sources@[j]@)
            },
    {
        let mut files: Vec<SourceFile> = Vec::new();
        let mut i: usize = 0;
        while i < sources.len()
            invariant
                i <= sources.len(),
                files.len() == i,
                forall|j: int|
                    0 <= j < i ==> {
                        &&& file_parses(#[trigger] sources@[j]@)
                        &&& files@[j].text_view() == sources@[j]@
                        &&& rust_syntax_preorder(sources@[j]@) == Some(flatten(files@[j].root_view(), 0))
                    },
            decreases sources.len() - i,
        {
            match SourceFile::parse(sources[i].clone()) {
                Some(f) => files.push(f),
                None => return Err(ParseFailure { index: i }),
            }
            i = i + 1;
        }
        Ok(Codebase { files })
    }

    /// The functions of all files, file after file.
    pub fn functions(&self) -> (r: Vec<Function<'_>>)
        ensures
            located_functions(r@) == codebase_functions(self.files_view()),
    {
        let mut out: Vec<Function<'_>> = Vec::new();
        let mut i: usize = 0;
        while i < self.files.len()
            invariant
                i <= self.files.len(),
                located_functions(out@) == codebase_functions(self.files@.take(i as int)),
            decreases self.files.len() - i,
        {
            let f = &self.files[i];
            let fs = f.functions();
            let ghost before = out@;
            let mut k: usize = 0;
            while k < fs.len()
                invariant
                    k <= fs.len(),
                    function_nodes(fs@) == functions_in_all(f.root_view().children@),
                    forall|m: int| 0 <= m < fs.len() ==> (#[trigger] fs@[m]).source_bytes() == encode_utf8(f.text_view()),
                    located_functions(out@) == located_functions(before) + functions_in_all(f.root_view().children@).take(
                        k as int,
                    ).map_values(|n: SyntaxNode| (encode_utf8(f.text_view()), n)),
                decreases fs.len() - k,
            {
                let ghost prev = out@;
                out.push(fs[k]);
                proof {
                    let g = |n: SyntaxNode| (encode_utf8(f.text_view()), n);
                    assert(function_nodes(fs@)[k as int] == fs@[k as int].syntax());
                    assert(functions_in_all(f.root_view().children@).take(k + 1) =~= functions_in_all(
                        f.root_view().children@,
                    ).take(k as int).push(fs@[k as int].syntax()));
                    assert(located_functions(out@) =~= located_functions(prev).push(
                        (fs@[k as int].source_bytes(), fs@[k as int].syntax()),
                    ));
                    assert(located_functions(out@) =~= located_functions(before) + functions_in_all(
                        f.root_view().children@,
                    ).take(k + 1).map_values(g));
                }
                k = k + 1;
            }
            proof {
                assert(function_nodes(fs@).len() == fs.len());
                assert(functions_in_all(f.root_view().children@).take(k as int) =~= functions_in_all(
                    f.root_view().children@,
                ));
                assert(self.files@.take(i + 1).drop_last() =~= self.files@.take(i as int));
                assert(self.files@.take(i + 1).last() == *f);
            }
            i = i + 1;
        }
        proof {
            assert(self.files@.take(i as int) =~= self.files@);
        }
        out
    }
    /// The impl blocks of all files, file after file.
    pub fn impl_blocks(&self) -> (r: Vec<ImplBlock<'_>>)
        ensures
            located_impl_blocks(r@) == codebase_impl_blocks(self.files_view()),
    {
        let mut out: Vec<ImplBlock<'_>> = Vec::new();
        let mut i: usize = 0;
        while i < self.files.len()
            invariant
                i <= self.files.len(),
                located_impl_blocks(out@) == codebase_impl_blocks(self.files@.take(i as int)),
            decreases self.files.len() - i,
        {
            let f = &self.files[i];
            let fs = f.impl_blocks();
            let ghost before = out@;
            let mut k: usize = 0;
            while k < fs.len()
                invariant
                    k <= fs.len(),
                    impl_nodes(fs@) == impl_items(f.root_view().children@),
                    forall|m: int| 0 <= m < fs.len() ==> (#[trigger] fs@[m]).source_bytes() == encode_utf8(f.text_view()),
                    located_impl_blocks(out@) == located_impl_blocks(before) + impl_items(f.root_view().children@).take(
                        k as int,
                    ).map_values(|n: SyntaxNode| (encode_utf8(f.text_view()), n)),
                decreases fs.len() - k,
            {
                let ghost prev = out@;
                out.push(fs[k]);
                proof {
                    let g = |n: SyntaxNode| (encode_utf8(f.text_view()), n);
                    assert(impl_nodes(fs@)[k as int] == fs@[k as int].syntax());
                    assert(impl_items(f.root_view().children@).take(k + 1) =~= impl_items(
                        f.root_view().children@,
                    ).take(k as int).push(fs@[k as int].syntax()));
                    assert(located_impl_blocks(out@) =~= located_impl_blocks(prev).push(
                        (fs@[k as int].source_bytes(), fs@[k as int].syntax()),
                    ));
                    assert(located_impl_blocks(out@) =~= located_impl_blocks(before) + impl_items(
                        f.root_view().children@,
                    ).take(k + 1).map_values(g));
                }
                k = k + 1;
            }
            proof {
                assert(impl_nodes(fs@).len() == fs.len());
                assert(impl_items(f.root_view().children@).take(k as int) =~= impl_items(
                    f.root_view().children@,
                ));
                assert(self.files@.take(i + 1).drop_last() =~= self.files@.take(i as int));
                assert(self.files@.take(i + 1).last() == *f);
            }
            i = i + 1;
        }
        proof {
            assert(self.files@.take(i as int) =~= self.files@);
        }
        out
    }
    /// The structs of all files, file after file.
    pub fn structs(&self) -> (r: Vec<Struct<'_>>)
        ensures
            located_structs(r@) == codebase_structs(self.files_view()),
    {
        let mut out: Vec<Struct<'_>> = Vec::new();
        let mut i: usize = 0;
        while i < self.files.len()
            invariant
                i <= self.files.len(),
                located_structs(out@) == codebase_structs(self.files@.take(i as int)),
            decreases self.files.len() - i,
        {
            let f = &self.files[i];
            let fs = f.structs();
            let ghost before = out@;
            let mut k: usize = 0;
            while k < fs.len()
                invariant
                    k <= fs.len(),
                    struct_nodes(fs@) == struct_items(f.root_view().children@),
                    forall|m: int| 0 <= m < fs.len() ==> (#[trigger] fs@[m]).source_bytes() == encode_utf8(f.text_view()),
                    located_structs(out@) == located_structs(before) + struct_items(f.root_view().children@).take(
                        k as int,
                    ).map_values(|n: SyntaxNode| (encode_utf8(f.text_view()), n)),
                decreases fs.len() - k,
            {
                let ghost prev = out@;
                out.push(fs[k]);
                proof {
                    let g = |n: SyntaxNode| (encode_utf8(f.text_view()), n);
                    assert(struct_nodes(fs@)[k as int] == fs@[k as int].syntax());
                    assert(struct_items(f.root_view().children@).take(k + 1) =~= struct_items(
                        f.root_view().children@,
                    ).take(k as int).push(fs@[k as int].syntax()));
                    assert(located_structs(out@) =~= located_structs(prev).push(
                        (fs@[k as int].source_bytes(), fs@[k as int].syntax()),
                    ));
                    assert(located_structs(out@) =~= located_structs(before) + struct_items(
                        f.root_view().children@,
                    ).take(k + 1).map_values(g));
                }
                k = k + 1;
            }
            proof {
                assert(struct_nodes(fs@).len() == fs.len());
                assert(struct_items(f.root_view().children@).take(k as int) =~= struct_items(
                    f.root_view().children@,
                ));
                assert(self.files@.take(i + 1).drop_last() =~= self.files@.take(i as int));
                assert(self.files@.take(i + 1).last() == *f);
            }
            i = i + 1;
        }
        proof {
            assert(self.files@.take(i as int) =~= self.files@);
        }
        out
    }
}

} // verus!
