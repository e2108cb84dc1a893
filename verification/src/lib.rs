//! A verified front end for a small arithmetic-expression language.
//!
//! The pipeline runs in three stages, each a total function over plain
//! values: [`token::lex`] turns source text into a sequence of spanned
//! tokens, [`ast::Tokens::parse`] builds a span-annotated syntax tree by
//! recursive descent, and [`interpreter::eval`] folds the tree into a
//! signed 64-bit result. Every stage carries a contract that pins its
//! result down as a function of its input alone, so running the pipeline
//! twice on the same line provably yields the same answer.
//!
//! Beside the pipeline stand two smaller verified pieces: [`first`] and
//! [`utils`] sort and check slices whose length is a power of two, and
//! [`myvec`] is a little growable vector modelled by the sequence of its
//! contents.

pub mod ast;
pub mod errors;
pub mod first;
pub mod interpreter;
pub mod myvec;
pub mod token;
pub mod utils;
