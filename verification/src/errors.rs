//! The one error type that a whole lex-parse-evaluate run can report,
//! and the statement that a whole run is a function of the input alone.
//!
//! Each stage keeps its own positioned error; this enum tags which stage
//! failed, so a caller can hand one value around and still render the
//! right caret span.
use crate::ast::ParseError;
use crate::interpreter::InterpreterError;
use crate::token::LexError;
use vstd::prelude::*;

verus! {

#[derive(Debug, Clone, Copy, PartialEq, Eq, Hash)]
pub enum CompileError {
    Lexer(LexError),
    Parser(ParseError),
    Interpret(InterpreterError),
}

impl From<LexError> for CompileError {
    fn from(e: LexError) -> (r: Self)
        ensures
            r == CompileError::Lexer(e),
    {
        CompileError::Lexer(e)
    }
}

impl vstd::std_specs::convert::FromSpecImpl<LexError> for CompileError {
    open spec fn obeys_from_spec() -> bool {
        true
    }

    open spec fn from_spec(e: LexError) -> Self {
        CompileError::Lexer(e)
    }
}

impl From<ParseError> for CompileError {
    fn from(e: ParseError) -> (r: Self)
        ensures
            r == CompileError::Parser(e),
    {
        CompileError::Parser(e)
    }
}

impl vstd::std_specs::convert::FromSpecImpl<ParseError> for CompileError {
    open spec fn obeys_from_spec() -> bool {
        true
    }

    open spec fn from_spec(e: ParseError) -> Self {
        CompileError::Parser(e)
    }
}

/// What one whole run of the pipeline — lex, then parse, then evaluate —
/// yields on the bytes of a source line.
pub open spec fn spec_run(bytes: Seq<u8>) -> Result<i64, CompileError> {
    match crate::token::spec_lex(bytes) {
        Ok(tokens) => match crate::ast::spec_parse(tokens) {
            Ok(ast) => match crate::interpreter::spec_eval(ast) {
                Ok(value) => Ok(value),
                Err(e) => Err(CompileError::Interpret(e)),
            },
            Err(e) => Err(CompileError::Parser(e)),
        },
        Err(e) => Err(CompileError::Lexer(e)),
    }
}

/// Running the pipeline twice on the same source line always yields the
/// same result. The contract of each stage pins its outcome down as a
/// function of its input alone — [`crate::token::lex`] returns exactly
/// [`crate::token::spec_lex`] of the input's bytes, and likewise for the
/// parser and the evaluator — so any two runs that meet those contracts
/// arrive at one and the same value of [`spec_run`].
pub proof fn lemma_pipeline_deterministic(
    bytes: Seq<u8>,
    first: Result<i64, CompileError>,
    second: Result<i64, CompileError>,
)
    requires
        first == spec_run(bytes),
        second == spec_run(bytes),
    ensures
        first == second,
{
}

} // verus!
