//! Logical code interface for Rust crates: functions, impl blocks and structs
//! read from tree-sitter syntax trees of Rust source files.

pub mod codebase;
pub mod function;
pub mod impl_block;
pub mod lint;
pub mod pattern;
pub mod prompt;
pub mod struct_def;
pub mod syntax;
pub mod text;

pub use codebase::{Codebase, ParseFailure, SourceFile};
pub use function::{Edit, Function};
pub use impl_block::ImplBlock;
pub use prompt::PromptResponse;
pub use struct_def::Struct;
