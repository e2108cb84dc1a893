//! The evaluator: a post-order walk that folds a syntax tree into a
//! signed 64-bit result.
//!
//! Arithmetic follows two's-complement wrapping semantics throughout:
//! a number literal is reinterpreted from `u64` to `i64`, and negation,
//! addition, subtraction, multiplication and truncating division wrap on
//! overflow. Division by zero is the one reported failure; its error
//! carries the location of the whole offending binary expression. The
//! result is pinned down by the specification function [`spec_eval`].
use crate::ast::{Ast, AstKind, BinOperator, BinOperatorKind, UniOperator, UniOperatorKind};
use crate::token::Annotation;
use vstd::prelude::*;

verus! {

#[derive(Debug, Clone, Copy, PartialEq, Eq, Hash)]
pub enum InterpreterErrorKind {
    DivisionByZero,
}

pub type InterpreterError = Annotation<InterpreterErrorKind>;

/// Walks one borrowed syntax tree.
pub struct Interpreter<'a> {
    ast: &'a Ast,
}

pub type InterpreterResult = Result<i64, InterpreterError>;

/// The `i64` whose two's-complement bits are those of `n`.
pub open spec fn u64_to_i64(n: u64) -> int {
    if n <= i64::MAX {
        n as int
    } else {
        n - 0x1_0000_0000_0000_0000
    }
}

/// Truncating integer division: the quotient of the magnitudes, with the
/// sign of the exact quotient.
pub open spec fn spec_trunc_div(x: int, d: int) -> int {
    if x == 0 {
        0
    } else if x > 0 && d > 0 {
        x / d
    } else if x < 0 && d < 0 {
        (x * -1) / (d * -1)
    } else if x < 0 {
        ((x * -1) / d) * -1
    } else {
        (x / (d * -1)) * -1
    }
}

/// Truncating division on `i64`, wrapping on its one overflow case.
pub open spec fn spec_div_wrap(a: i64, b: i64) -> i64 {
    if a == i64::MIN && b == -1 {
        i64::MIN
    } else {
        spec_trunc_div(a as int, b as int) as i64
    }
}

/// What a unary operator does to its operand's value.
pub open spec fn spec_eval_uni(op: UniOperator, v: i64) -> i64 {
    match op.value {
        UniOperatorKind::Plus => v,
        UniOperatorKind::Minus => vstd::wrapping::i64_specs::wrapping_sub(0, v),
    }
}

/// What a binary operator does to its operands' values.
pub open spec fn spec_eval_bin(op: BinOperator, l: i64, r: i64) -> Result<
    i64,
    InterpreterErrorKind,
> {
    match op.value {
        BinOperatorKind::Add => Ok(vstd::wrapping::i64_specs::wrapping_add(l, r)),
        BinOperatorKind::Sub => Ok(vstd::wrapping::i64_specs::wrapping_sub(l, r)),
        BinOperatorKind::Mul => Ok(vstd::wrapping::i64_specs::wrapping_mul(l, r)),
        BinOperatorKind::Div => if r == 0 {
            Err(InterpreterErrorKind::DivisionByZero)
        } else {
            Ok(spec_div_wrap(l, r))
        },
    }
}

/// What evaluating a tree yields: the left operand of a binary node is
/// folded strictly before the right one, and the first failure wins.
pub open spec fn spec_eval(ast: Ast) -> Result<i64, InterpreterError>
    decreases ast,
{
    match ast.value {
        AstKind::Number(num) => Ok(u64_to_i64(num) as i64),
        AstKind::UniOperator { operator, tree } => match spec_eval(*tree) {
            Ok(v) => Ok(spec_eval_uni(operator, v)),
            Err(e) => Err(e),
        },
        AstKind::BinOperator { operator, lhs, rhs } => match spec_eval(*lhs) {
            Ok(l) => match spec_eval(*rhs) {
                Ok(r) => match spec_eval_bin(operator, l, r) {
                    Ok(v) => Ok(v),
                    Err(k) => Err(Annotation { value: k, loc: ast.loc }),
                },
                Err(e) => Err(e),
            },
            Err(e) => Err(e),
        },
    }
}

/// Truncating division stays inside `i64` except on `i64::MIN / -1`,
/// where the exact quotient is one past `i64::MAX`.
proof fn lemma_trunc_div_cases(x: int, d: int)
    requires
        i64::MIN <= x <= i64::MAX,
        i64::MIN <= d <= i64::MAX,
        d != 0,
    ensures
        x == i64::MIN && d == -1 ==> spec_trunc_div(x, d) == 0x8000_0000_0000_0000,
        !(x == i64::MIN && d == -1) ==> i64::MIN <= spec_trunc_div(x, d) <= i64::MAX,
{
    if x == i64::MIN && d == -1 {
        vstd::arithmetic::div_mod::lemma_div_basics(x * -1);
    } else if x == 0 {
    } else if x > 0 && d > 0 {
        vstd::arithmetic::div_mod::lemma_div_basics_4(x, d);
        vstd::arithmetic::div_mod::lemma_div_basics_5(x, d);
    } else if x < 0 && d < 0 {
        vstd::arithmetic::div_mod::lemma_div_basics_4(x * -1, d * -1);
        vstd::arithmetic::div_mod::lemma_div_basics_5(x * -1, d * -1);
        if x == i64::MIN {
            vstd::arithmetic::div_mod::lemma_div_is_ordered_by_denominator(x * -1, 2, d * -1);
            assert((0x8000_0000_0000_0000int) / 2 == 0x4000_0000_0000_0000) by (nonlinear_arith);
        }
    } else if x < 0 {
        vstd::arithmetic::div_mod::lemma_div_basics_4(x * -1, d);
        vstd::arithmetic::div_mod::lemma_div_basics_5(x * -1, d);
    } else {
        vstd::arithmetic::div_mod::lemma_div_basics_4(x, d * -1);
        vstd::arithmetic::div_mod::lemma_div_basics_5(x, d * -1);
    }
}

impl<'a> Interpreter<'a> {
    /// The tree this interpreter walks.
    pub closed spec fn ast_view(&self) -> Ast {
        *self.ast
    }

    pub fn new(ast: &'a Ast) -> (r: Interpreter<'a>)
        ensures
            r.ast_view() == *ast,
    {
        Self { ast }
    }

    /// Evaluate the borrowed tree; the result is exactly [`spec_eval`].
    pub fn eval(&self) -> (r: Result<i64, InterpreterError>)
        ensures
            r == spec_eval(self.ast_view()),
        decreases self.ast_view(),
    {
        match &self.ast.value {
            AstKind::Number(num) => {
                let n: u64 = *num;
                if n < 0x8000_0000_0000_0000u64 {
                    Ok(n as i64)
                } else {
                    Ok(i64::MIN + ((n - 0x8000_0000_0000_0000u64) as i64))
                }
            },
            AstKind::UniOperator { operator, tree } => {
                let num = match Interpreter::new(tree).eval() {
                    Ok(v) => v,
                    Err(e) => {
                        return Err(e);
                    },
                };
                Ok(self.eval_uni_operator(operator, num))
            },
            AstKind::BinOperator { operator, lhs, rhs } => {
                let left = match Interpreter::new(lhs).eval() {
                    Ok(v) => v,
                    Err(e) => {
                        return Err(e);
                    },
                };
                let right = match Interpreter::new(rhs).eval() {
                    Ok(v) => v,
                    Err(e) => {
                        return Err(e);
                    },
                };
                match self.eval_bin_operator(operator, left, right) {
                    Ok(v) => Ok(v),
                    Err(error_kind) => Err(InterpreterError::new(error_kind, self.ast.loc)),
                }
            },
        }
    }

    fn eval_uni_operator(&self, uniop: &UniOperator, num: i64) -> (r: i64)
        ensures
            r == spec_eval_uni(*uniop, num),
    {
        match uniop.value {
            UniOperatorKind::Plus => num,
            UniOperatorKind::Minus => (0i64).wrapping_sub(num),
        }
    }

    fn eval_bin_operator(&self, binop: &BinOperator, left: i64, right: i64) -> (r: Result<
        i64,
        InterpreterErrorKind,
    >)
        ensures
            r == spec_eval_bin(*binop, left, right),
    {
        match binop.value {
            BinOperatorKind::Add => Ok(left.wrapping_add(right)),
            BinOperatorKind::Sub => Ok(left.wrapping_sub(right)),
            BinOperatorKind::Mul => Ok(left.wrapping_mul(right)),
            BinOperatorKind::Div => {
                if right == 0 {
                    Err(InterpreterErrorKind::DivisionByZero)
                } else {
                    proof {
                        lemma_trunc_div_cases(left as int, right as int);
                    }
                    match left.checked_div(right) {
                        Some(v) => Ok(v),
                        None => Ok(i64::MIN),
                    }
                }
            },
        }
    }
}

/// Evaluate a syntax tree; the result is exactly [`spec_eval`].
pub fn eval(ast: &Ast) -> (r: InterpreterResult)
    ensures
        r == spec_eval(*ast),
{
    Interpreter::new(ast).eval()
}

} // verus!
