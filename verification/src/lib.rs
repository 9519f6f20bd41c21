//! A compiler for a tiny language of integer expressions, local variables,
//! `if`/`else` and `return`, which emits textual assembly for a stack machine
//! on one register architecture.
//!
//! Every stage is stated over a mathematical model and proved against it:
//! the lexer against a function from lines to tokens, the parser against the
//! grammar, and the generator against the instruction sequence of a tree.
//! That sequence, run on an abstract machine, is proved to compute what the
//! tree means.
//!
//! - [`token`], [`lexer`]: tokens and how a source is cut into them.
//! - [`stream`], [`grammar`], [`node`]: the token cursor, the grammar and
//!   the parser.
//! - [`machine`], [`gen`], [`text`]: instructions, their text and the
//!   generator; [`gen::compile_from_source`] runs the whole pipeline.
//! - [`semantics`]: the meaning of trees and the correctness of their code.
//! - [`result`]: errors.

pub mod gen;
pub mod grammar;
pub mod lexer;
pub mod machine;
pub mod node;
pub mod result;
pub mod semantics;
pub mod stream;
pub mod text;
pub mod token;

pub use gen::{compile_from_source, gen, gen_lval};
pub use result::CompileError;
