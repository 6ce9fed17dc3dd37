# lci

A logical code interface for Rust crates: it parses Rust source files with
tree-sitter and lists their functions, impl blocks and structs, finds the uses
of a variable, the qualified paths in a function body, and the edits that rename an
identifier. The library is written in Verus and verified.

Layout:

- `src/syntax.rs`: the syntax tree of a file (`SyntaxNode`), built from the
  preorder listing that tree-sitter gives, with its well-formedness and the
  queries on it.
- `src/text.rs`: byte ranges, lines, trimming, ordering and joining of text.
- `src/pattern.rs`: regular expressions, run by the `regex` crate.
- `src/function.rs`, `src/impl_block.rs`, `src/struct_def.rs`: the items of a file.
- `src/codebase.rs`: parsed source files and collections of them.
- `src/prompt.rs`: the request to the messages API and the answer made of its reply.
- `src/lint.rs`: lint runs.
- `app/`: the command-line program: file system, HTTP, JSON and argument parsing.
- `tests/`: tests of the library.
