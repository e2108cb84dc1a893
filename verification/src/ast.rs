//! The syntax tree and the recursive-descent parser.
//!
//! The grammar, lowest precedence first:
//!
//! ```text
//! expr  = add ;
//! add   = mul ("+" mul | "-" mul)* ;
//! mul   = unary ("*" unary | "/" unary)* ;
//! unary = ("+" | "-")? atom ;
//! atom  = number | "(" add ")" ;
//! ```
//!
//! Binary operators are left-associative: the `add` and `mul` rules fold
//! their operands into the tree from the left. The parser looks one token
//! ahead, never backtracks, and stops at the first failure. Its result is
//! pinned down by the specification function [`spec_parse`], which also
//! settles exactly how many tokens each rule consumes.
use crate::token::{Annotation, Loc, Token, TokenKind};
use vstd::prelude::*;

verus! {

#[derive(Debug, PartialEq, Eq, Hash)]
pub enum AstKind {
    Number(u64),
    UniOperator { operator: UniOperator, tree: Box<Ast> },
    BinOperator { operator: BinOperator, lhs: Box<Ast>, rhs: Box<Ast> },
}

pub type Ast = Annotation<AstKind>;

impl Ast {
    fn number(num: u64, loc: Loc) -> (r: Self)
        ensures
            r == spec_number_ast(num, loc),
    {
        Self::new(AstKind::Number(num), loc)
    }

    fn uni_operator(op: UniOperator, tree: Ast, loc: Loc) -> (r: Self)
        ensures
            r == spec_uni_ast(op, tree, loc),
    {
        Self::new(AstKind::UniOperator { operator: op, tree: Box::new(tree) }, loc)
    }

    fn bin_operator(op: BinOperator, lhs: Ast, rhs: Ast, loc: Loc) -> (r: Self)
        ensures
            r == spec_bin_ast(op, lhs, rhs, loc),
    {
        Self::new(AstKind::BinOperator { operator: op, lhs: Box::new(lhs), rhs: Box::new(rhs) }, loc)
    }
}

#[derive(Debug, Clone, Copy, PartialEq, Eq, Hash)]
pub enum UniOperatorKind {
    Plus,
    Minus,
}

pub type UniOperator = Annotation<UniOperatorKind>;

impl UniOperator {
    pub fn plus(loc: Loc) -> (r: Self)
        ensures
            r == (Annotation { value: UniOperatorKind::Plus, loc }),
    {
        Self::new(UniOperatorKind::Plus, loc)
    }

    pub fn minus(loc: Loc) -> (r: Self)
        ensures
            r == (Annotation { value: UniOperatorKind::Minus, loc }),
    {
        Self::new(UniOperatorKind::Minus, loc)
    }
}

#[derive(Debug, Clone, Copy, PartialEq, Eq, Hash)]
pub enum BinOperatorKind {
    Add,
    Sub,
    Mul,
    Div,
}

pub type BinOperator = Annotation<BinOperatorKind>;

impl BinOperator {
    pub fn add(loc: Loc) -> (r: Self)
        ensures
            r == (Annotation { value: BinOperatorKind::Add, loc }),
    {
        Self::new(BinOperatorKind::Add, loc)
    }

    pub fn sub(loc: Loc) -> (r: Self)
        ensures
            r == (Annotation { value: BinOperatorKind::Sub, loc }),
    {
        Self::new(BinOperatorKind::Sub, loc)
    }

    pub fn mul(loc: Loc) -> (r: Self)
        ensures
            r == (Annotation { value: BinOperatorKind::Mul, loc }),
    {
        Self::new(BinOperatorKind::Mul, loc)
    }

    pub fn div(loc: Loc) -> (r: Self)
        ensures
            r == (Annotation { value: BinOperatorKind::Div, loc }),
    {
        Self::new(BinOperatorKind::Div, loc)
    }
}

#[derive(Debug, Clone, Copy, PartialEq, Eq, Hash)]
pub enum ParseError {
    UnexpectedToken(Token),
    NotExpression(Token),
    NotOperator(Token),
    UnclosedOpenParen(Token),
    RedundantExpression(Token),
    EOF,
}

/// A token sequence, as handed from the lexer to the parser.
pub struct Tokens(pub Vec<Token>);

pub type ParseResult = Result<Ast, ParseError>;

pub open spec fn spec_number_ast(num: u64, loc: Loc) -> Ast {
    Annotation { value: AstKind::Number(num), loc }
}

pub open spec fn spec_uni_ast(op: UniOperator, tree: Ast, loc: Loc) -> Ast {
    Annotation { value: AstKind::UniOperator { operator: op, tree: Box::new(tree) }, loc }
}

pub open spec fn spec_bin_ast(op: BinOperator, lhs: Ast, rhs: Ast, loc: Loc) -> Ast {
    Annotation {
        value: AstKind::BinOperator { operator: op, lhs: Box::new(lhs), rhs: Box::new(rhs) },
        loc,
    }
}

/// Tokens that open an `add`-level fold step, and also the unary signs.
pub open spec fn is_add_op(k: TokenKind) -> bool {
    k == TokenKind::Plus || k == TokenKind::Minus
}

/// Tokens that open a `mul`-level fold step.
pub open spec fn is_mul_op(k: TokenKind) -> bool {
    k == TokenKind::Asterisk || k == TokenKind::Slash
}

pub open spec fn spec_add_op_of(t: Token) -> BinOperator {
    if t.value is Plus {
        Annotation { value: BinOperatorKind::Add, loc: t.loc }
    } else {
        Annotation { value: BinOperatorKind::Sub, loc: t.loc }
    }
}

pub open spec fn spec_mul_op_of(t: Token) -> BinOperator {
    if t.value is Asterisk {
        Annotation { value: BinOperatorKind::Mul, loc: t.loc }
    } else {
        Annotation { value: BinOperatorKind::Div, loc: t.loc }
    }
}

pub open spec fn spec_uni_op_of(t: Token) -> UniOperator {
    if t.value is Plus {
        Annotation { value: UniOperatorKind::Plus, loc: t.loc }
    } else {
        Annotation { value: UniOperatorKind::Minus, loc: t.loc }
    }
}

/// What the `atom` rule yields from position `pos`: the parse result and
/// the position of the first token it did not consume.
pub open spec fn spec_parse_atom(toks: Seq<Token>, pos: int) -> (Result<Ast, ParseError>, int)
    decreases toks.len() - pos, 0int when 0 <= pos <= toks.len()
{
    if pos >= toks.len() {
        (Err(ParseError::EOF), pos)
    } else {
        let t = toks[pos];
        match t.value {
            TokenKind::Number(num) => (Ok(spec_number_ast(num, t.loc)), pos + 1),
            TokenKind::LParen => {
                let r = spec_parse_add(toks, pos + 1);
                match r.0 {
                    Ok(ast) => {
                        if r.1 < toks.len() {
                            if toks[r.1].value is RParen {
                                (Ok(ast), r.1 + 1)
                            } else {
                                (Err(ParseError::RedundantExpression(t)), r.1 + 1)
                            }
                        } else {
                            (Err(ParseError::UnclosedOpenParen(t)), r.1)
                        }
                    },
                    Err(e) => (Err(e), r.1),
                }
            },
            _ => (Err(ParseError::UnexpectedToken(t)), pos + 1),
        }
    }
}

/// What the `unary` rule yields from position `pos`. A sign wraps the
/// following atom; the wrapper keeps the atom's own location.
pub open spec fn spec_parse_unary(toks: Seq<Token>, pos: int) -> (Result<Ast, ParseError>, int)
    decreases toks.len() - pos, 1int when 0 <= pos <= toks.len()
{
    if pos < toks.len() && is_add_op(toks[pos].value) {
        let op = spec_uni_op_of(toks[pos]);
        let r = spec_parse_atom(toks, pos + 1);
        match r.0 {
            Ok(ast) => (Ok(spec_uni_ast(op, ast, ast.loc)), r.1),
            Err(e) => r,
        }
    } else {
        spec_parse_atom(toks, pos)
    }
}

/// The left fold of the `mul` rule: `acc` so far, then any number of
/// `"*" unary` or `"/" unary` steps.
pub open spec fn spec_parse_mul_rest(toks: Seq<Token>, pos: int, acc: Ast) -> (
    Result<Ast, ParseError>,
    int,
)
    decreases toks.len() - pos, 2int when 0 <= pos <= toks.len()
{
    if pos < toks.len() && is_mul_op(toks[pos].value) {
        let op = spec_mul_op_of(toks[pos]);
        let r = spec_parse_unary(toks, pos + 1);
        match r.0 {
            Ok(rhs) => {
                let folded = spec_bin_ast(op, acc, rhs, acc.loc.spec_merge(rhs.loc));
                if pos < r.1 <= toks.len() {
                    spec_parse_mul_rest(toks, r.1, folded)
                } else {
                    (Ok(folded), r.1)
                }
            },
            Err(e) => r,
        }
    } else {
        (Ok(acc), pos)
    }
}

/// What the `mul` rule yields from position `pos`.
pub open spec fn spec_parse_mul(toks: Seq<Token>, pos: int) -> (Result<Ast, ParseError>, int)
    decreases toks.len() - pos, 3int when 0 <= pos <= toks.len()
{
    let r = spec_parse_unary(toks, pos);
    match r.0 {
        Ok(ast) => {
            if pos <= r.1 <= toks.len() {
                spec_parse_mul_rest(toks, r.1, ast)
            } else {
                r
            }
        },
        Err(e) => r,
    }
}

/// The left fold of the `add` rule: `acc` so far, then any number of
/// `"+" mul` or `"-" mul` steps.
pub open spec fn spec_parse_add_rest(toks: Seq<Token>, pos: int, acc: Ast) -> (
    Result<Ast, ParseError>,
    int,
)
    decreases toks.len() - pos, 4int when 0 <= pos <= toks.len()
{
    if pos < toks.len() && is_add_op(toks[pos].value) {
        let op = spec_add_op_of(toks[pos]);
        let r = spec_parse_mul(toks, pos + 1);
        match r.0 {
            Ok(rhs) => {
                let folded = spec_bin_ast(op, acc, rhs, acc.loc.spec_merge(rhs.loc));
                if pos < r.1 <= toks.len() {
                    spec_parse_add_rest(toks, r.1, folded)
                } else {
                    (Ok(folded), r.1)
                }
            },
            Err(e) => r,
        }
    } else {
        (Ok(acc), pos)
    }
}

/// What the `add` rule yields from position `pos`.
pub open spec fn spec_parse_add(toks: Seq<Token>, pos: int) -> (Result<Ast, ParseError>, int)
    decreases toks.len() - pos, 5int when 0 <= pos <= toks.len()
{
    let r = spec_parse_mul(toks, pos);
    match r.0 {
        Ok(ast) => {
            if pos <= r.1 <= toks.len() {
                spec_parse_add_rest(toks, r.1, ast)
            } else {
                r
            }
        },
        Err(e) => r,
    }
}

/// What parsing a whole token sequence yields: the `add` tree when it
/// consumes every token; a trailing-token error carrying the first
/// leftover token when the tree stops short of the end; and, when a
/// sub-parse fails, that first failure returned as-is.
pub open spec fn spec_parse(toks: Seq<Token>) -> Result<Ast, ParseError> {
    let r = spec_parse_add(toks, 0);
    match r.0 {
        Ok(ast) => {
            if r.1 < toks.len() {
                Err(ParseError::RedundantExpression(toks[r.1]))
            } else {
                Ok(ast)
            }
        },
        Err(e) => Err(e),
    }
}

/// The `atom` rule never rewinds the cursor, never runs past the end,
/// and consumes at least one token when it succeeds.
pub proof fn lemma_parse_atom_progress(toks: Seq<Token>, pos: int)
    requires
        0 <= pos <= toks.len(),
    ensures
        ({
            let r = spec_parse_atom(toks, pos);
            pos <= r.1 <= toks.len() && (r.0 is Ok ==> r.1 > pos)
        }),
    decreases toks.len() - pos, 0int,
{
    if pos < toks.len() && toks[pos].value is LParen {
        lemma_parse_add_progress(toks, pos + 1);
    }
}

/// The `unary` rule never rewinds the cursor, never runs past the end,
/// and consumes at least one token when it succeeds.
pub proof fn lemma_parse_unary_progress(toks: Seq<Token>, pos: int)
    requires
        0 <= pos <= toks.len(),
    ensures
        ({
            let r = spec_parse_unary(toks, pos);
            pos <= r.1 <= toks.len() && (r.0 is Ok ==> r.1 > pos)
        }),
    decreases toks.len() - pos, 1int,
{
    if pos < toks.len() && is_add_op(toks[pos].value) {
        lemma_parse_atom_progress(toks, pos + 1);
    } else {
        lemma_parse_atom_progress(toks, pos);
    }
}

/// The `mul` fold never rewinds the cursor and never runs past the end.
pub proof fn lemma_parse_mul_rest_progress(toks: Seq<Token>, pos: int, acc: Ast)
    requires
        0 <= pos <= toks.len(),
    ensures
        ({
            let r = spec_parse_mul_rest(toks, pos, acc);
            pos <= r.1 <= toks.len()
        }),
    decreases toks.len() - pos, 2int,
{
    if pos < toks.len() && is_mul_op(toks[pos].value) {
        lemma_parse_unary_progress(toks, pos + 1);
        let r = spec_parse_unary(toks, pos + 1);
        match r.0 {
            Ok(rhs) => {
                let op = spec_mul_op_of(toks[pos]);
                let folded = spec_bin_ast(op, acc, rhs, acc.loc.spec_merge(rhs.loc));
                lemma_parse_mul_rest_progress(toks, r.1, folded);
            },
            Err(_) => {},
        }
    }
}

/// The `mul` rule never rewinds the cursor, never runs past the end,
/// and consumes at least one token when it succeeds.
pub proof fn lemma_parse_mul_progress(toks: Seq<Token>, pos: int)
    requires
        0 <= pos <= toks.len(),
    ensures
        ({
            let r = spec_parse_mul(toks, pos);
            pos <= r.1 <= toks.len() && (r.0 is Ok ==> r.1 > pos)
        }),
    decreases toks.len() - pos, 3int,
{
    lemma_parse_unary_progress(toks, pos);
    let r = spec_parse_unary(toks, pos);
    match r.0 {
        Ok(ast) => {
            lemma_parse_mul_rest_progress(toks, r.1, ast);
        },
        Err(_) => {},
    }
}

/// The `add` fold never rewinds the cursor and never runs past the end.
pub proof fn lemma_parse_add_rest_progress(toks: Seq<Token>, pos: int, acc: Ast)
    requires
        0 <= pos <= toks.len(),
    ensures
        ({
            let r = spec_parse_add_rest(toks, pos, acc);
            pos <= r.1 <= toks.len()
        }),
    decreases toks.len() - pos, 4int,
{
    if pos < toks.len() && is_add_op(toks[pos].value) {
        lemma_parse_mul_progress(toks, pos + 1);
        let r = spec_parse_mul(toks, pos + 1);
        match r.0 {
            Ok(rhs) => {
                let op = spec_add_op_of(toks[pos]);
                let folded = spec_bin_ast(op, acc, rhs, acc.loc.spec_merge(rhs.loc));
                lemma_parse_add_rest_progress(toks, r.1, folded);
            },
            Err(_) => {},
        }
    }
}

/// The `add` rule never rewinds the cursor, never runs past the end,
/// and consumes at least one token when it succeeds.
pub proof fn lemma_parse_add_progress(toks: Seq<Token>, pos: int)
    requires
        0 <= pos <= toks.len(),
    ensures
        ({
            let r = spec_parse_add(toks, pos);
            pos <= r.1 <= toks.len() && (r.0 is Ok ==> r.1 > pos)
        }),
    decreases toks.len() - pos, 5int,
{
    lemma_parse_mul_progress(toks, pos);
    let r = spec_parse_mul(toks, pos);
    match r.0 {
        Ok(ast) => {
            lemma_parse_add_rest_progress(toks, r.1, ast);
        },
        Err(_) => {},
    }
}

/// The merge of the locations of all number leaves in the tree.
pub open spec fn leaf_span(ast: Ast) -> Loc
    decreases ast,
{
    match ast.value {
        AstKind::Number(_) => ast.loc,
        AstKind::UniOperator { operator, tree } => leaf_span(*tree),
        AstKind::BinOperator { operator, lhs, rhs } => leaf_span(*lhs).spec_merge(leaf_span(*rhs)),
    }
}

/// Every node of the tree — the root included — is annotated with
/// exactly the merge of the locations of the number leaves beneath it.
pub open spec fn spans_exact(ast: Ast) -> bool
    decreases ast,
{
    ast.loc == leaf_span(ast) && match ast.value {
        AstKind::Number(_) => true,
        AstKind::UniOperator { operator, tree } => spans_exact(*tree),
        AstKind::BinOperator { operator, lhs, rhs } => spans_exact(*lhs) && spans_exact(*rhs),
    }
}

proof fn lemma_parse_atom_spans(toks: Seq<Token>, pos: int)
    requires
        0 <= pos <= toks.len(),
    ensures
        (match spec_parse_atom(toks, pos).0 {
            Ok(ast) => spans_exact(ast),
            Err(_) => true,
        }),
    decreases toks.len() - pos, 0int,
{
    if pos < toks.len() && toks[pos].value is LParen {
        lemma_parse_add_spans(toks, pos + 1);
    }
}

proof fn lemma_parse_unary_spans(toks: Seq<Token>, pos: int)
    requires
        0 <= pos <= toks.len(),
    ensures
        (match spec_parse_unary(toks, pos).0 {
            Ok(ast) => spans_exact(ast),
            Err(_) => true,
        }),
    decreases toks.len() - pos, 1int,
{
    if pos < toks.len() && is_add_op(toks[pos].value) {
        lemma_parse_atom_spans(toks, pos + 1);
    } else {
        lemma_parse_atom_spans(toks, pos);
    }
}

proof fn lemma_parse_mul_rest_spans(toks: Seq<Token>, pos: int, acc: Ast)
    requires
        0 <= pos <= toks.len(),
        spans_exact(acc),
    ensures
        (match spec_parse_mul_rest(toks, pos, acc).0 {
            Ok(ast) => spans_exact(ast),
            Err(_) => true,
        }),
    decreases toks.len() - pos, 2int,
{
    if pos < toks.len() && is_mul_op(toks[pos].value) {
        lemma_parse_unary_spans(toks, pos + 1);
        lemma_parse_unary_progress(toks, pos + 1);
        let r = spec_parse_unary(toks, pos + 1);
        match r.0 {
            Ok(rhs) => {
                let op = spec_mul_op_of(toks[pos]);
                let folded = spec_bin_ast(op, acc, rhs, acc.loc.spec_merge(rhs.loc));
                assert(spans_exact(folded));
                if pos < r.1 <= toks.len() {
                    lemma_parse_mul_rest_spans(toks, r.1, folded);
                }
            },
            Err(_) => {},
        }
    }
}

proof fn lemma_parse_mul_spans(toks: Seq<Token>, pos: int)
    requires
        0 <= pos <= toks.len(),
    ensures
        (match spec_parse_mul(toks, pos).0 {
            Ok(ast) => spans_exact(ast),
            Err(_) => true,
        }),
    decreases toks.len() - pos, 3int,
{
    lemma_parse_unary_spans(toks, pos);
    lemma_parse_unary_progress(toks, pos);
    let r = spec_parse_unary(toks, pos);
    match r.0 {
        Ok(ast) => {
            lemma_parse_mul_rest_spans(toks, r.1, ast);
        },
        Err(_) => {},
    }
}

proof fn lemma_parse_add_rest_spans(toks: Seq<Token>, pos: int, acc: Ast)
    requires
        0 <= pos <= toks.len(),
        spans_exact(acc),
    ensures
        (match spec_parse_add_rest(toks, pos, acc).0 {
            Ok(ast) => spans_exact(ast),
            Err(_) => true,
        }),
    decreases toks.len() - pos, 4int,
{
    if pos < toks.len() && is_add_op(toks[pos].value) {
        lemma_parse_mul_spans(toks, pos + 1);
        lemma_parse_mul_progress(toks, pos + 1);
        let r = spec_parse_mul(toks, pos + 1);
        match r.0 {
            Ok(rhs) => {
                let op = spec_add_op_of(toks[pos]);
                let folded = spec_bin_ast(op, acc, rhs, acc.loc.spec_merge(rhs.loc));
                assert(spans_exact(folded));
                if pos < r.1 <= toks.len() {
                    lemma_parse_add_rest_spans(toks, r.1, folded);
                }
            },
            Err(_) => {},
        }
    }
}

proof fn lemma_parse_add_spans(toks: Seq<Token>, pos: int)
    requires
        0 <= pos <= toks.len(),
    ensures
        (match spec_parse_add(toks, pos).0 {
            Ok(ast) => spans_exact(ast),
            Err(_) => true,
        }),
    decreases toks.len() - pos, 5int,
{
    lemma_parse_mul_spans(toks, pos);
    lemma_parse_mul_progress(toks, pos);
    let r = spec_parse_mul(toks, pos);
    match r.0 {
        Ok(ast) => {
            lemma_parse_add_rest_spans(toks, r.1, ast);
        },
        Err(_) => {},
    }
}

/// Every tree the parser yields is exactly spanned: the location of each
/// node — the root included — is the merge of the locations of the
/// number-token leaves it was built from.
pub proof fn lemma_parse_spans(toks: Seq<Token>)
    ensures
        (match spec_parse(toks) {
            Ok(ast) => spans_exact(ast),
            Err(_) => true,
        }),
{
    lemma_parse_add_spans(toks, 0);
}

fn is_add_op_token(k: &TokenKind) -> (r: bool)
    ensures
        r == is_add_op(*k),
{
    match k {
        TokenKind::Plus | TokenKind::Minus => true,
        _ => false,
    }
}

fn is_mul_op_token(k: &TokenKind) -> (r: bool)
    ensures
        r == is_mul_op(*k),
{
    match k {
        TokenKind::Asterisk | TokenKind::Slash => true,
        _ => false,
    }
}

impl Tokens {
    /// Parse a whole token sequence into one syntax tree.
    ///
    /// The result is exactly [`spec_parse`] applied to the sequence: the
    /// tree of the `add` rule when it consumes every token, and the first
    /// error the grammar meets otherwise.
    pub fn parse(tokens: Vec<Token>) -> (r: ParseResult)
        ensures
            r == spec_parse(tokens@),
    {
        let mut pos: usize = 0;
        let result = Self::parse_expr(&tokens, &mut pos);
        proof {
            lemma_parse_add_progress(tokens@, 0);
        }
        match result {
            Ok(ast) => {
                if pos < tokens.len() {
                    Err(ParseError::RedundantExpression(tokens[pos]))
                } else {
                    Ok(ast)
                }
            },
            Err(e) => Err(e),
        }
    }

    // expr = add ;
    fn parse_expr(tokens: &Vec<Token>, pos: &mut usize) -> (r: ParseResult)
        requires
            *old(pos) <= tokens@.len(),
        ensures
            ({
                let sr = spec_parse_add(tokens@, *old(pos) as int);
                r == sr.0 && *final(pos) as int == sr.1
            }),
        decreases tokens@.len() - *pos, 6int,
    {
        Self::parse_add(tokens, pos)
    }

    // add = mul ("+" mul | "-" mul)* ;
    #[verifier::loop_isolation(false)]
    fn parse_add(tokens: &Vec<Token>, pos: &mut usize) -> (r: ParseResult)
        requires
            *old(pos) <= tokens@.len(),
        ensures
            ({
                let sr = spec_parse_add(tokens@, *old(pos) as int);
                r == sr.0 && *final(pos) as int == sr.1
            }),
        decreases tokens@.len() - *pos, 5int,
    {
        let ghost start = *pos as int;
        let mut ast = match Self::parse_mul(tokens, pos) {
            Ok(a) => a,
            Err(e) => {
                return Err(e);
            },
        };
        proof {
            lemma_parse_mul_progress(tokens@, start);
        }
        loop
            invariant
                start < *pos as int,
                *pos <= tokens@.len(),
                spec_parse_add(tokens@, start) == spec_parse_add_rest(tokens@, *pos as int, ast),
            decreases tokens@.len() - *pos,
        {
            if !(*pos < tokens.len() && is_add_op_token(&tokens[*pos].value)) {
                break;
            }
            let op_token = tokens[*pos];
            let operator = match op_token.value {
                TokenKind::Plus => BinOperator::add(op_token.loc),
                _ => BinOperator::sub(op_token.loc),
            };
            let ghost fold_pos = *pos as int;
            *pos = *pos + 1;
            let rhs = match Self::parse_mul(tokens, pos) {
                Ok(a) => a,
                Err(e) => {
                    return Err(e);
                },
            };
            proof {
                lemma_parse_mul_progress(tokens@, fold_pos + 1);
            }
            let location = ast.loc.merge(&rhs.loc);
            ast = Ast::bin_operator(operator, ast, rhs, location);
        }
        Ok(ast)
    }

    // mul = unary ("*" unary | "/" unary)* ;
    #[verifier::loop_isolation(false)]
    fn parse_mul(tokens: &Vec<Token>, pos: &mut usize) -> (r: ParseResult)
        requires
            *old(pos) <= tokens@.len(),
        ensures
            ({
                let sr = spec_parse_mul(tokens@, *old(pos) as int);
                r == sr.0 && *final(pos) as int == sr.1
            }),
        decreases tokens@.len() - *pos, 3int,
    {
        let ghost start = *pos as int;
        let mut ast = match Self::parse_unary(tokens, pos) {
            Ok(a) => a,
            Err(e) => {
                return Err(e);
            },
        };
        proof {
            lemma_parse_unary_progress(tokens@, start);
        }
        loop
            invariant
                start < *pos as int,
                *pos <= tokens@.len(),
                spec_parse_mul(tokens@, start) == spec_parse_mul_rest(tokens@, *pos as int, ast),
            decreases tokens@.len() - *pos,
        {
            if !(*pos < tokens.len() && is_mul_op_token(&tokens[*pos].value)) {
                break;
            }
            let op_token = tokens[*pos];
            let operator = match op_token.value {
                TokenKind::Asterisk => BinOperator::mul(op_token.loc),
                _ => BinOperator::div(op_token.loc),
            };
            let ghost fold_pos = *pos as int;
            *pos = *pos + 1;
            let rhs = match Self::parse_unary(tokens, pos) {
                Ok(a) => a,
                Err(e) => {
                    return Err(e);
                },
            };
            proof {
                lemma_parse_unary_progress(tokens@, fold_pos + 1);
            }
            let location = ast.loc.merge(&rhs.loc);
            ast = Ast::bin_operator(operator, ast, rhs, location);
        }
        Ok(ast)
    }

    // unary = ("+" | "-")? atom ;
    fn parse_unary(tokens: &Vec<Token>, pos: &mut usize) -> (r: ParseResult)
        requires
            *old(pos) <= tokens@.len(),
        ensures
            ({
                let sr = spec_parse_unary(tokens@, *old(pos) as int);
                r == sr.0 && *final(pos) as int == sr.1
            }),
        decreases tokens@.len() - *pos, 1int,
    {
        if *pos < tokens.len() && is_add_op_token(&tokens[*pos].value) {
            let op_token = tokens[*pos];
            let operator = match op_token.value {
                TokenKind::Plus => UniOperator::plus(op_token.loc),
                _ => UniOperator::minus(op_token.loc),
            };
            *pos = *pos + 1;
            let ast = match Self::parse_atom(tokens, pos) {
                Ok(a) => a,
                Err(e) => {
                    return Err(e);
                },
            };
            let location = ast.loc.merge(&ast.loc);
            Ok(Ast::uni_operator(operator, ast, location))
        } else {
            Self::parse_atom(tokens, pos)
        }
    }

    // atom = number | "(" add ")" ;
    fn parse_atom(tokens: &Vec<Token>, pos: &mut usize) -> (r: ParseResult)
        requires
            *old(pos) <= tokens@.len(),
        ensures
            ({
                let sr = spec_parse_atom(tokens@, *old(pos) as int);
                r == sr.0 && *final(pos) as int == sr.1
            }),
        decreases tokens@.len() - *pos, 0int,
    {
        if *pos >= tokens.len() {
            return Err(ParseError::EOF);
        }
        let t = tokens[*pos];
        *pos = *pos + 1;
        match t.value {
            TokenKind::Number(num) => Ok(Ast::number(num, t.loc)),
            TokenKind::LParen => {
                let ghost inner_start = *pos as int;
                let add = match Self::parse_add(tokens, pos) {
                    Ok(a) => a,
                    Err(e) => {
                        return Err(e);
                    },
                };
                proof {
                    lemma_parse_add_progress(tokens@, inner_start);
                }
                if *pos < tokens.len() {
                    let next = tokens[*pos];
                    *pos = *pos + 1;
                    match next.value {
                        TokenKind::RParen => Ok(add),
                        _ => Err(ParseError::RedundantExpression(t)),
                    }
                } else {
                    Err(ParseError::UnclosedOpenParen(t))
                }
            },
            _ => Err(ParseError::UnexpectedToken(t)),
        }
    }
}

} // verus!
