use expr_parser::ast::Tokens;
use expr_parser::interpreter::{eval, Interpreter, InterpreterError, InterpreterErrorKind};
use expr_parser::token::{lex, Loc};

fn run(line: &str) -> Result<i64, InterpreterError> {
    let tokens = lex(line).expect("lexing should succeed");
    let ast = Tokens::parse(tokens).expect("parsing should succeed");
    eval(&ast)
}

#[test]
fn multiplication_binds_tighter_than_addition() {
    assert_eq!(run("1+2*3"), Ok(7));
}

#[test]
fn parentheses_override_precedence() {
    assert_eq!(run("(1+2)*3"), Ok(9));
}

#[test]
fn division_is_left_associative() {
    assert_eq!(run("8/2/2"), Ok(2));
}

#[test]
fn division_by_zero_carries_the_span_of_the_expression() {
    assert_eq!(
        run("1/0"),
        Err(InterpreterError::new(
            InterpreterErrorKind::DivisionByZero,
            Loc::new(0, 3),
        ))
    );
    assert_eq!(
        run("2*(9/(3-3))"),
        Err(InterpreterError::new(
            InterpreterErrorKind::DivisionByZero,
            Loc::new(3, 9),
        ))
    );
}

#[test]
fn unary_signs_negate_or_keep_the_operand() {
    assert_eq!(run("-10"), Ok(-10));
    assert_eq!(run("+10"), Ok(10));
    assert_eq!(run("1 + 2 + 3 - -10"), Ok(16));
}

#[test]
fn division_truncates_toward_zero() {
    assert_eq!(run("-7/2"), Ok(-3));
    assert_eq!(run("7/-2"), Ok(-3));
    assert_eq!(run("-7/-2"), Ok(3));
}

#[test]
fn literals_wrap_into_signed_sixty_four_bits() {
    assert_eq!(run("9223372036854775807"), Ok(i64::MAX));
    assert_eq!(run("9223372036854775808"), Ok(i64::MIN));
    assert_eq!(run("-9223372036854775808"), Ok(i64::MIN));
    assert_eq!(run("18446744073709551615"), Ok(-1));
}

#[test]
fn arithmetic_wraps_on_overflow() {
    assert_eq!(run("9223372036854775807+1"), Ok(i64::MIN));
    assert_eq!(run("-9223372036854775808/-1"), Ok(i64::MIN));
    assert_eq!(run("-9223372036854775808*-1"), Ok(i64::MIN));
}

#[test]
fn the_interpreter_walks_a_borrowed_tree() {
    let ast = Tokens::parse(lex("6*7").unwrap()).unwrap();
    let interpreter = Interpreter::new(&ast);
    assert_eq!(interpreter.eval(), Ok(42));
    assert_eq!(interpreter.eval(), Ok(42));
}

#[test]
fn the_pipeline_is_deterministic() {
    let line = "(8-3)*(2+2)/-2";
    assert_eq!(run(line), run(line));
    assert_eq!(run(line), Ok(-10));
}
