use expr_parser::token::{ignore_spaces, lex, literals_fit, number, LexError, Loc, Token};

#[test]
fn test_lexer() {
    assert_eq!(
        lex("1 + 2 + 3 - -10"),
        Ok(vec![
            Token::number(1, Loc::new(0, 1)),
            Token::plus(Loc::new(2, 3)),
            Token::number(2, Loc::new(4, 5)),
            Token::plus(Loc::new(6, 7)),
            Token::number(3, Loc::new(8, 9)),
            Token::minus(Loc::new(10, 11)),
            Token::minus(Loc::new(12, 13)),
            Token::number(10, Loc::new(13, 15)),
        ])
    )
}

#[test]
fn digit_run_is_one_token() {
    assert_eq!(lex("0042"), Ok(vec![Token::number(42, Loc::new(0, 4))]));
    assert_eq!(
        lex("18446744073709551615"),
        Ok(vec![Token::number(u64::MAX, Loc::new(0, 20))])
    );
}

#[test]
fn invalid_char_is_reported_at_its_offset() {
    assert_eq!(
        lex("1+$"),
        Err(LexError::invalid_char('$', Loc::new(2, 3)))
    );
    assert_eq!(
        lex("a"),
        Err(LexError::invalid_char('a', Loc::new(0, 1)))
    );
}

#[test]
fn literals_fit_draws_the_line_at_u64_max() {
    assert!(literals_fit(""));
    assert!(literals_fit("1+2*3"));
    assert!(literals_fit("18446744073709551615"));
    assert!(!literals_fit("18446744073709551616"));
    assert!(!literals_fit("1+99999999999999999999"));
    assert!(literals_fit("$18446744073709551615$"));
}

#[test]
fn whitespace_is_skipped_silently() {
    assert_eq!(lex(""), Ok(vec![]));
    assert_eq!(lex(" \t\n"), Ok(vec![]));
    assert_eq!(
        lex("\t( 7 )"),
        Ok(vec![
            Token::lparen(Loc::new(1, 2)),
            Token::number(7, Loc::new(3, 4)),
            Token::rparen(Loc::new(5, 6)),
        ])
    );
}

#[test]
fn number_lexes_the_maximal_digit_run() {
    assert_eq!(
        number(b"42+1", 0),
        Ok((Token::number(42, Loc::new(0, 2)), 2))
    );
    assert_eq!(
        number(b"a907", 1),
        Ok((Token::number(907, Loc::new(1, 4)), 4))
    );
}

#[test]
fn ignore_spaces_skips_the_maximal_whitespace_run() {
    assert_eq!(ignore_spaces(b"  \t7", 0), Ok(((), 3)));
    assert_eq!(ignore_spaces(b"7 ", 0), Ok(((), 0)));
    assert_eq!(ignore_spaces(b"", 0), Ok(((), 0)));
    assert_eq!(ignore_spaces(b"x", 5), Ok(((), 5)));
}

#[test]
fn merge_takes_the_smallest_covering_location() {
    assert_eq!(Loc::new(2, 5).merge(&Loc::new(0, 3)), Loc::new(0, 5));
    assert_eq!(Loc::new(1, 2).merge(&Loc::new(1, 2)), Loc::new(1, 2));
    assert_eq!(Loc::new(0, 1).merge(&Loc::new(4, 6)), Loc::new(0, 6));
}

#[test]
fn every_operator_lexes_to_its_own_kind() {
    assert_eq!(
        lex("+-*/()"),
        Ok(vec![
            Token::plus(Loc::new(0, 1)),
            Token::minus(Loc::new(1, 2)),
            Token::asterisk(Loc::new(2, 3)),
            Token::slash(Loc::new(3, 4)),
            Token::lparen(Loc::new(4, 5)),
            Token::rparen(Loc::new(5, 6)),
        ])
    );
}
