use expr_parser::ast::{AstKind, ParseError, Tokens};
use expr_parser::token::{lex, Loc, Token, TokenKind};

#[test]
fn unclosed_parenthesis_is_reported() {
    let tokens = lex("(1+2").unwrap();
    assert_eq!(
        Tokens::parse(tokens),
        Err(ParseError::UnclosedOpenParen(Token::lparen(Loc::new(0, 1))))
    );
}

#[test]
fn trailing_token_is_reported() {
    let tokens = lex("1 2").unwrap();
    assert_eq!(
        Tokens::parse(tokens),
        Err(ParseError::RedundantExpression(Token::number(2, Loc::new(2, 3))))
    );
}

#[test]
fn empty_input_is_reported_as_end_of_input() {
    assert_eq!(Tokens::parse(vec![]), Err(ParseError::EOF));
}

#[test]
fn an_inner_failure_is_returned_as_is() {
    let tokens = lex(")(").unwrap();
    assert_eq!(
        Tokens::parse(tokens),
        Err(ParseError::UnexpectedToken(Token::rparen(Loc::new(0, 1))))
    );
}

#[test]
fn operator_in_operand_position_is_unexpected() {
    let tokens = lex("1+*").unwrap();
    assert_eq!(
        Tokens::parse(tokens),
        Err(ParseError::UnexpectedToken(Token::asterisk(Loc::new(2, 3))))
    );
}

#[test]
fn binary_operators_fold_from_the_left() {
    let ast = Tokens::parse(lex("1-2-3").unwrap()).unwrap();
    assert_eq!(ast.loc, Loc::new(0, 5));
    match ast.value {
        AstKind::BinOperator { operator, lhs, rhs } => {
            assert_eq!(operator.value, expr_parser::ast::BinOperatorKind::Sub);
            assert_eq!(operator.loc, Loc::new(3, 4));
            assert_eq!(lhs.loc, Loc::new(0, 3));
            assert!(matches!(lhs.value, AstKind::BinOperator { .. }));
            assert_eq!(rhs.loc, Loc::new(4, 5));
            assert!(matches!(rhs.value, AstKind::Number(3)));
        }
        other => panic!("expected a binary node, got {:?}", other),
    }
}

#[test]
fn root_span_merges_the_number_leaves() {
    let ast = Tokens::parse(lex("1+2*3").unwrap()).unwrap();
    assert_eq!(ast.loc, Loc::new(0, 5));
    let ast = Tokens::parse(lex("(1+2)*3").unwrap()).unwrap();
    assert_eq!(ast.loc, Loc::new(1, 7));
    let ast = Tokens::parse(lex("- 10").unwrap()).unwrap();
    assert_eq!(ast.loc, Loc::new(2, 4));
}

#[test]
fn unary_sign_wraps_the_following_atom() {
    let ast = Tokens::parse(lex("-10").unwrap()).unwrap();
    match ast.value {
        AstKind::UniOperator { operator, tree } => {
            assert_eq!(operator.value, expr_parser::ast::UniOperatorKind::Minus);
            assert_eq!(operator.loc, Loc::new(0, 1));
            assert!(matches!(tree.value, AstKind::Number(10)));
            assert_eq!(tree.loc, Loc::new(1, 3));
        }
        other => panic!("expected a unary node, got {:?}", other),
    }
}

#[test]
fn tokens_can_be_built_by_hand() {
    let tokens = vec![
        Token::new(TokenKind::Number(5), Loc::new(0, 1)),
        Token::asterisk(Loc::new(1, 2)),
        Token::number(6, Loc::new(2, 3)),
    ];
    let ast = Tokens::parse(tokens).unwrap();
    assert_eq!(ast.loc, Loc::new(0, 3));
    assert!(matches!(ast.value, AstKind::BinOperator { .. }));
}
