use expr_parser::ast::ParseError;
use expr_parser::errors::CompileError;
use expr_parser::token::{LexError, Loc, Token};

#[test]
fn each_stage_error_converts_into_its_own_tag() {
    let lex_error = LexError::invalid_char('$', Loc::new(2, 3));
    assert_eq!(CompileError::from(lex_error), CompileError::Lexer(lex_error));

    let parse_error = ParseError::RedundantExpression(Token::number(2, Loc::new(2, 3)));
    assert_eq!(CompileError::from(parse_error), CompileError::Parser(parse_error));
}
