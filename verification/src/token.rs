//! Source locations, tokens, and the lexer.
//!
//! A [`Loc`] is a half-open `[start, end)` byte range into the source
//! text. The lexer walks the UTF-8 bytes of the input left to right,
//! emitting one [`Token`] per number literal, operator or parenthesis,
//! skipping whitespace, and stopping at the first byte it cannot read.
//! Its result is pinned down, token by token, by the specification
//! function [`spec_lex`].
use vstd::prelude::*;
use vstd::string::StringSliceAdditionalSpecFns;

verus! {

/// Half-open `[start, end)` byte range into the source text.
#[derive(Debug, Clone, Copy, PartialEq, Eq, Hash)]
pub struct Loc {
    pub start: usize,
    pub end: usize,
}

impl Loc {
    pub fn new(start: usize, end: usize) -> (r: Self)
        ensures
            r == (Loc { start, end }),
    {
        Self { start, end }
    }

    /// The smallest location containing both `self` and `other`.
    pub fn merge(&self, other: &Loc) -> (r: Self)
        ensures
            r == self.spec_merge(*other),
    {
        Loc {
            start: if self.start <= other.start {
                self.start
            } else {
                other.start
            },
            end: if self.end >= other.end {
                self.end
            } else {
                other.end
            },
        }
    }

    pub open spec fn spec_merge(self, other: Loc) -> Loc {
        Loc {
            start: if self.start <= other.start {
                self.start
            } else {
                other.start
            },
            end: if self.end >= other.end {
                self.end
            } else {
                other.end
            },
        }
    }

    /// Well-formed locations never end before they start.
    pub open spec fn wf(self) -> bool {
        self.start <= self.end
    }
}

/// A value of any kind paired with the location it came from.
#[derive(Debug, Clone, Copy, PartialEq, Eq, Hash)]
pub struct Annotation<T> {
    pub value: T,
    pub loc: Loc,
}

impl<T> Annotation<T> {
    pub fn new(value: T, loc: Loc) -> (r: Self)
        ensures
            r == (Annotation { value, loc }),
    {
        Self { value, loc }
    }
}

#[derive(Debug, Clone, Copy, PartialEq, Eq, Hash)]
pub enum TokenKind {
    Number(u64),
    Plus,
    Minus,
    Asterisk,
    Slash,
    LParen,
    RParen,
}

pub type Token = Annotation<TokenKind>;

/// A token of kind `k` spanning `[start, end)`.
pub open spec fn spec_token(k: TokenKind, start: int, end: int) -> Token {
    Annotation { value: k, loc: Loc { start: start as usize, end: end as usize } }
}

impl Token {
    pub fn number(n: u64, loc: Loc) -> (r: Self)
        ensures
            r == (Annotation { value: TokenKind::Number(n), loc }),
    {
        Self::new(TokenKind::Number(n), loc)
    }

    pub fn plus(loc: Loc) -> (r: Self)
        ensures
            r == (Annotation { value: TokenKind::Plus, loc }),
    {
        Self::new(TokenKind::Plus, loc)
    }

    pub fn minus(loc: Loc) -> (r: Self)
        ensures
            r == (Annotation { value: TokenKind::Minus, loc }),
    {
        Self::new(TokenKind::Minus, loc)
    }

    pub fn asterisk(loc: Loc) -> (r: Self)
        ensures
            r == (Annotation { value: TokenKind::Asterisk, loc }),
    {
        Self::new(TokenKind::Asterisk, loc)
    }

    pub fn slash(loc: Loc) -> (r: Self)
        ensures
            r == (Annotation { value: TokenKind::Slash, loc }),
    {
        Self::new(TokenKind::Slash, loc)
    }

    pub fn lparen(loc: Loc) -> (r: Self)
        ensures
            r == (Annotation { value: TokenKind::LParen, loc }),
    {
        Self::new(TokenKind::LParen, loc)
    }

    pub fn rparen(loc: Loc) -> (r: Self)
        ensures
            r == (Annotation { value: TokenKind::RParen, loc }),
    {
        Self::new(TokenKind::RParen, loc)
    }
}

#[derive(Debug, Clone, Copy, PartialEq, Eq, Hash)]
pub enum LexErrorKind {
    InvalidChar(char),
    EOF,
}

pub type LexError = Annotation<LexErrorKind>;

impl LexError {
    pub fn invalid_char(c: char, loc: Loc) -> (r: Self)
        ensures
            r == (Annotation { value: LexErrorKind::InvalidChar(c), loc }),
    {
        Self::new(LexErrorKind::InvalidChar(c), loc)
    }

    pub fn eof(loc: Loc) -> (r: Self)
        ensures
            r == (Annotation { value: LexErrorKind::EOF, loc }),
    {
        Self::new(LexErrorKind::EOF, loc)
    }
}

pub type LexResult<T> = Result<(T, usize), LexError>;

pub const BYTE_ZERO: u8 = 0x30;

pub const BYTE_NINE: u8 = 0x39;

pub const BYTE_PLUS: u8 = 0x2b;

pub const BYTE_MINUS: u8 = 0x2d;

pub const BYTE_ASTERISK: u8 = 0x2a;

pub const BYTE_SLASH: u8 = 0x2f;

pub const BYTE_LPAREN: u8 = 0x28;

pub const BYTE_RPAREN: u8 = 0x29;

pub const BYTE_SPACE: u8 = 0x20;

pub const BYTE_NEWLINE: u8 = 0x0a;

pub const BYTE_TAB: u8 = 0x09;

pub open spec fn is_digit_byte(b: u8) -> bool {
    BYTE_ZERO <= b && b <= BYTE_NINE
}

pub open spec fn is_space_byte(b: u8) -> bool {
    b == BYTE_SPACE || b == BYTE_NEWLINE || b == BYTE_TAB
}

/// First position at or after `pos` that does not hold a digit.
pub open spec fn digit_run_end(s: Seq<u8>, pos: int) -> int
    decreases s.len() - pos when 0 <= pos <= s.len()
{
    if pos < s.len() && is_digit_byte(s[pos]) {
        digit_run_end(s, pos + 1)
    } else {
        pos
    }
}

/// First position at or after `pos` that does not hold whitespace;
/// a position past the end is returned unchanged.
pub open spec fn space_run_end(s: Seq<u8>, pos: int) -> int
    decreases s.len() - pos when 0 <= pos
{
    if pos < s.len() && is_space_byte(s[pos]) {
        space_run_end(s, pos + 1)
    } else {
        pos
    }
}

pub proof fn lemma_digit_run_end(s: Seq<u8>, pos: int)
    requires
        0 <= pos <= s.len(),
    ensures
        pos <= digit_run_end(s, pos) <= s.len(),
        forall|j: int| pos <= j < digit_run_end(s, pos) ==> is_digit_byte(s[j]),
        digit_run_end(s, pos) < s.len() ==> !is_digit_byte(s[digit_run_end(s, pos)]),
        pos < s.len() && is_digit_byte(s[pos]) ==> digit_run_end(s, pos) > pos,
    decreases s.len() - pos,
{
    if pos < s.len() && is_digit_byte(s[pos]) {
        lemma_digit_run_end(s, pos + 1);
    }
}

pub proof fn lemma_space_run_end(s: Seq<u8>, pos: int)
    requires
        0 <= pos <= s.len(),
    ensures
        pos <= space_run_end(s, pos) <= s.len(),
        forall|j: int| pos <= j < space_run_end(s, pos) ==> is_space_byte(s[j]),
        space_run_end(s, pos) < s.len() ==> !is_space_byte(s[space_run_end(s, pos)]),
        pos < s.len() && is_space_byte(s[pos]) ==> space_run_end(s, pos) > pos,
    decreases s.len() - pos,
{
    if pos < s.len() && is_space_byte(s[pos]) {
        lemma_space_run_end(s, pos + 1);
    }
}

/// The unsigned integer denoted by a sequence of digit bytes,
/// most significant digit first.
pub open spec fn digits_value(s: Seq<u8>) -> nat
    decreases s.len(),
{
    if s.len() == 0 {
        0
    } else {
        digits_value(s.drop_last()) * 10 + (s.last() - BYTE_ZERO) as nat
    }
}

/// Extending a digit sequence on the right can only grow its value.
pub proof fn lemma_digits_value_prefix(s: Seq<u8>, i: int, j: int, k: int)
    requires
        0 <= i <= j <= k <= s.len(),
    ensures
        digits_value(s.subrange(i, j)) <= digits_value(s.subrange(i, k)),
    decreases k - j,
{
    if j < k {
        lemma_digits_value_prefix(s, i, j + 1, k);
        assert(s.subrange(i, j + 1).drop_last() =~= s.subrange(i, j));
        assert(digits_value(s.subrange(i, j)) <= digits_value(s.subrange(i, j + 1)));
    } else {
        assert(s.subrange(i, j) =~= s.subrange(i, k));
    }
}

/// The value of the maximal digit run starting at `pos`.
pub open spec fn run_value(s: Seq<u8>, pos: int) -> nat {
    digits_value(s.subrange(pos, digit_run_end(s, pos)))
}

/// The number literal starting at `pos` denotes a value that fits in a `u64`.
pub open spec fn number_fits(s: Seq<u8>, pos: int) -> bool {
    run_value(s, pos) <= u64::MAX
}

/// Every number literal in the input denotes a value that fits in a `u64`.
/// Lexing a larger literal is out of this library's scope.
pub open spec fn lex_fits(s: Seq<u8>) -> bool {
    forall|i: int|
        0 <= i < s.len() && is_digit_byte(s[i]) && (i == 0 || !is_digit_byte(s[i - 1]))
            ==> #[trigger] number_fits(s, i)
}

/// The token stream (or error) that lexing produces from position `pos` on.
pub open spec fn spec_lex_from(s: Seq<u8>, pos: int) -> Result<Seq<Token>, LexError>
    decreases s.len() - pos when 0 <= pos <= s.len() via spec_lex_from_decreases
{
    if pos >= s.len() {
        Ok(Seq::empty())
    } else {
        let b = s[pos];
        if is_digit_byte(b) {
            let end = digit_run_end(s, pos);
            let tok = spec_token(TokenKind::Number((run_value(s, pos) % 0x1_0000_0000_0000_0000)
                as u64), pos, end);
            spec_lex_cons(tok, spec_lex_from(s, end))
        } else if b == BYTE_PLUS {
            spec_lex_cons(spec_token(TokenKind::Plus, pos, pos + 1), spec_lex_from(s, pos + 1))
        } else if b == BYTE_MINUS {
            spec_lex_cons(spec_token(TokenKind::Minus, pos, pos + 1), spec_lex_from(s, pos + 1))
        } else if b == BYTE_ASTERISK {
            spec_lex_cons(spec_token(TokenKind::Asterisk, pos, pos + 1), spec_lex_from(s, pos + 1))
        } else if b == BYTE_SLASH {
            spec_lex_cons(spec_token(TokenKind::Slash, pos, pos + 1), spec_lex_from(s, pos + 1))
        } else if b == BYTE_LPAREN {
            spec_lex_cons(spec_token(TokenKind::LParen, pos, pos + 1), spec_lex_from(s, pos + 1))
        } else if b == BYTE_RPAREN {
            spec_lex_cons(spec_token(TokenKind::RParen, pos, pos + 1), spec_lex_from(s, pos + 1))
        } else if is_space_byte(b) {
            spec_lex_from(s, pos + 1)
        } else {
            Err(Annotation {
                value: LexErrorKind::InvalidChar(b as char),
                loc: Loc { start: pos as usize, end: (pos + 1) as usize },
            })
        }
    }
}

#[via_fn]
proof fn spec_lex_from_decreases(s: Seq<u8>, pos: int) {
    if 0 <= pos < s.len() && is_digit_byte(s[pos]) {
        lemma_digit_run_end(s, pos);
    }
}

pub open spec fn spec_lex_cons(tok: Token, rest: Result<Seq<Token>, LexError>) -> Result<
    Seq<Token>,
    LexError,
> {
    match rest {
        Ok(toks) => Ok(seq![tok] + toks),
        Err(e) => Err(e),
    }
}

/// The token stream (or error) that lexing the whole input produces.
pub open spec fn spec_lex(s: Seq<u8>) -> Result<Seq<Token>, LexError> {
    spec_lex_from(s, 0)
}

/// A run of digits lexes to exactly one number token: it spans the whole
/// input `[0, len)` and its value is the input read as an unsigned integer.
pub proof fn lemma_lex_digit_run(s: Seq<u8>)
    requires
        0 < s.len() <= usize::MAX,
        forall|i: int| 0 <= i < s.len() ==> is_digit_byte(s[i]),
        digits_value(s) <= u64::MAX,
    ensures
        lex_fits(s),
        spec_lex(s) == Ok::<Seq<Token>, LexError>(
            seq![spec_token(TokenKind::Number(digits_value(s) as u64), 0, s.len() as int)],
        ),
{
    lemma_digit_run_end(s, 0);
    assert(digit_run_end(s, 0) == s.len()) by {
        if digit_run_end(s, 0) < s.len() {
            assert(is_digit_byte(s[digit_run_end(s, 0)]));
        }
    }
    assert(s.subrange(0, s.len() as int) =~= s);
    assert(run_value(s, 0) == digits_value(s));
    assert(lex_fits(s)) by {
        assert(forall|i: int|
            0 <= i < s.len() && #[trigger] is_digit_byte(s[i]) && (i == 0 || !is_digit_byte(
                s[i - 1],
            )) ==> i == 0);
    }
    vstd::arithmetic::div_mod::lemma_small_mod(digits_value(s), 0x1_0000_0000_0000_0000);
    assert(spec_lex_from(s, s.len() as int) == Ok::<Seq<Token>, LexError>(Seq::empty()));
    assert(seq![spec_token(TokenKind::Number(digits_value(s) as u64), 0, s.len() as int)]
        + Seq::<Token>::empty() =~= seq![
        spec_token(TokenKind::Number(digits_value(s) as u64), 0, s.len() as int),
    ]);
}

/// Whether every number literal of the input denotes a value that fits
/// in a `u64`: exactly the condition [`lex`] asks of its input. A caller
/// with an arbitrary line checks it here first and decides for itself
/// what an oversized literal should do.
pub fn literals_fit(input: &str) -> (r: bool)
    ensures
        r == lex_fits(input.spec_bytes()),
{
    let input_bytes: &[u8] = input.as_bytes();
    let ghost s = input_bytes@;
    let n = input_bytes.len();
    let mut position: usize = 0;
    while position < n
        invariant
            s == input.spec_bytes(),
            s == input_bytes@,
            n == s.len(),
            position <= n,
            position < n && is_digit_byte(s[position as int]) ==> (position == 0
                || !is_digit_byte(s[position as int - 1])),
            forall|j: int|
                0 <= j < position && is_digit_byte(s[j]) && (j == 0 || !is_digit_byte(s[j - 1]))
                    ==> #[trigger] number_fits(s, j),
        decreases n - position,
    {
        let b = input_bytes[position];
        if BYTE_ZERO <= b && b <= BYTE_NINE {
            let ghost start = position as int;
            proof {
                lemma_digit_run_end(s, start);
            }
            let ghost run_end = digit_run_end(s, start);
            let mut end = position;
            let mut value: u64 = 0;
            let mut overflow = false;
            while end < n && BYTE_ZERO <= input_bytes[end] && input_bytes[end] <= BYTE_NINE
                invariant
                    s == input_bytes@,
                    n == s.len(),
                    start == position as int,
                    position <= end <= run_end <= n,
                    run_end == digit_run_end(s, start),
                    forall|j: int| start <= j < run_end ==> is_digit_byte(s[j]),
                    run_end < n ==> !is_digit_byte(s[run_end]),
                    !overflow ==> value == digits_value(s.subrange(start, end as int)),
                    overflow ==> digits_value(s.subrange(start, end as int)) > u64::MAX,
                decreases n - end,
            {
                let d = (input_bytes[end] - BYTE_ZERO) as u64;
                proof {
                    assert(is_digit_byte(s[end as int]));
                    assert(end < run_end) by {
                        if end == run_end {
                            assert(!is_digit_byte(s[end as int]));
                        }
                    }
                    assert(s.subrange(start, end + 1).drop_last() =~= s.subrange(
                        start,
                        end as int,
                    ));
                }
                if !overflow {
                    match value.checked_mul(10) {
                        Some(v10) => match v10.checked_add(d) {
                            Some(v) => {
                                value = v;
                            },
                            None => {
                                overflow = true;
                            },
                        },
                        None => {
                            overflow = true;
                        },
                    }
                }
                end = end + 1;
            }
            proof {
                assert(end == run_end) by {
                    if end < run_end {
                        assert(is_digit_byte(s[end as int]));
                    }
                }
            }
            if overflow {
                proof {
                    assert(!number_fits(s, start));
                    assert(is_digit_byte(s[start]));
                    assert(start == 0 || !is_digit_byte(s[start - 1]));
                    assert(!lex_fits(s));
                }
                return false;
            }
            proof {
                assert(number_fits(s, start));
            }
            position = end;
        } else {
            position = position + 1;
        }
    }
    true
}

/// Consume one expected byte, or report why it could not be consumed.
fn consume_byte(input_bytes: &[u8], position: usize, expected: u8) -> (r: LexResult<u8>)
    ensures
        r == (if input_bytes@.len() <= position {
            Err::<(u8, usize), LexError>(
                Annotation {
                    value: LexErrorKind::EOF,
                    loc: Loc { start: position, end: position },
                },
            )
        } else if input_bytes@[position as int] != expected {
            Err::<(u8, usize), LexError>(
                Annotation {
                    value: LexErrorKind::InvalidChar(input_bytes@[position as int] as char),
                    loc: Loc { start: position, end: position },
                },
            )
        } else {
            Ok::<(u8, usize), LexError>((expected, (position + 1) as usize))
        }),
{
    if input_bytes.len() <= position {
        Err(LexError::eof(Loc::new(position, position)))
    } else if input_bytes[position] != expected {
        Err(LexError::invalid_char(input_bytes[position] as char, Loc::new(position, position)))
    } else {
        Ok((expected, position + 1))
    }
}

/// What one of the single-byte token lexers returns: the token for kind
/// `k` when the expected byte stands at `position`, and the error from
/// [`consume_byte`] otherwise.
pub open spec fn spec_single_byte_lex(
    s: Seq<u8>,
    position: usize,
    expected: u8,
    k: TokenKind,
) -> LexResult<Token> {
    if s.len() <= position {
        Err(Annotation { value: LexErrorKind::EOF, loc: Loc { start: position, end: position } })
    } else if s[position as int] != expected {
        Err(
            Annotation {
                value: LexErrorKind::InvalidChar(s[position as int] as char),
                loc: Loc { start: position, end: position },
            },
        )
    } else {
        Ok((spec_token(k, position as int, position + 1), (position + 1) as usize))
    }
}

fn plus(input_bytes: &[u8], position: usize) -> (r: LexResult<Token>)
    ensures
        r == spec_single_byte_lex(input_bytes@, position, BYTE_PLUS, TokenKind::Plus),
{
    match consume_byte(input_bytes, position, BYTE_PLUS) {
        Ok((_, end)) => Ok((Token::plus(Loc::new(position, end)), end)),
        Err(e) => Err(e),
    }
}

fn minus(input_bytes: &[u8], position: usize) -> (r: LexResult<Token>)
    ensures
        r == spec_single_byte_lex(input_bytes@, position, BYTE_MINUS, TokenKind::Minus),
{
    match consume_byte(input_bytes, position, BYTE_MINUS) {
        Ok((_, end)) => Ok((Token::minus(Loc::new(position, end)), end)),
        Err(e) => Err(e),
    }
}

fn asterisk(input_bytes: &[u8], position: usize) -> (r: LexResult<Token>)
    ensures
        r == spec_single_byte_lex(input_bytes@, position, BYTE_ASTERISK, TokenKind::Asterisk),
{
    match consume_byte(input_bytes, position, BYTE_ASTERISK) {
        Ok((_, end)) => Ok((Token::asterisk(Loc::new(position, end)), end)),
        Err(e) => Err(e),
    }
}

fn slash(input_bytes: &[u8], position: usize) -> (r: LexResult<Token>)
    ensures
        r == spec_single_byte_lex(input_bytes@, position, BYTE_SLASH, TokenKind::Slash),
{
    match consume_byte(input_bytes, position, BYTE_SLASH) {
        Ok((_, end)) => Ok((Token::slash(Loc::new(position, end)), end)),
        Err(e) => Err(e),
    }
}

fn lparen(input_bytes: &[u8], position: usize) -> (r: LexResult<Token>)
    ensures
        r == spec_single_byte_lex(input_bytes@, position, BYTE_LPAREN, TokenKind::LParen),
{
    match consume_byte(input_bytes, position, BYTE_LPAREN) {
        Ok((_, end)) => Ok((Token::lparen(Loc::new(position, end)), end)),
        Err(e) => Err(e),
    }
}

fn rparen(input_bytes: &[u8], position: usize) -> (r: LexResult<Token>)
    ensures
        r == spec_single_byte_lex(input_bytes@, position, BYTE_RPAREN, TokenKind::RParen),
{
    match consume_byte(input_bytes, position, BYTE_RPAREN) {
        Ok((_, end)) => Ok((Token::rparen(Loc::new(position, end)), end)),
        Err(e) => Err(e),
    }
}

/// Lex the maximal digit run starting at `position` into one number token.
pub fn number(input_bytes: &[u8], position: usize) -> (r: LexResult<Token>)
    requires
        position < input_bytes@.len(),
        is_digit_byte(input_bytes@[position as int]),
        number_fits(input_bytes@, position as int),
    ensures
        ({
            let s = input_bytes@;
            let end = digit_run_end(s, position as int);
            r == Ok::<(Token, usize), LexError>(
                (
                    spec_token(
                        TokenKind::Number((run_value(s, position as int)
                            % 0x1_0000_0000_0000_0000) as u64),
                        position as int,
                        end,
                    ),
                    end as usize,
                ),
            )
        }),
{
    let ghost s = input_bytes@;
    let ghost run_end = digit_run_end(s, position as int);
    proof {
        lemma_digit_run_end(s, position as int);
    }
    let n = input_bytes.len();
    let mut end = position;
    let mut value: u64 = 0;
    while end < n && BYTE_ZERO <= input_bytes[end] && input_bytes[end] <= BYTE_NINE
        invariant
            s == input_bytes@,
            n == s.len(),
            position <= end <= run_end <= n,
            run_end == digit_run_end(s, position as int),
            number_fits(s, position as int),
            forall|j: int| position <= j < run_end ==> is_digit_byte(s[j]),
            run_end < n ==> !is_digit_byte(s[run_end]),
            value == digits_value(s.subrange(position as int, end as int)),
        decreases n - end,
    {
        let b = input_bytes[end];
        proof {
            assert(is_digit_byte(s[end as int]));
            assert(end < run_end) by {
                if end == run_end {
                    assert(!is_digit_byte(s[end as int]));
                }
            }
            assert(s.subrange(position as int, end + 1).drop_last() =~= s.subrange(
                position as int,
                end as int,
            ));
            assert(digits_value(s.subrange(position as int, end + 1)) == value * 10 + (b
                - BYTE_ZERO) as nat);
            lemma_digits_value_prefix(s, position as int, end + 1, run_end);
            assert(value * 10 + (b - BYTE_ZERO) as nat <= run_value(s, position as int));
        }
        value = value * 10 + ((b - BYTE_ZERO) as u64);
        end = end + 1;
    }
    proof {
        assert(end == run_end) by {
            if end < run_end {
                assert(is_digit_byte(s[end as int]));
            }
        }
        assert(run_value(s, position as int) % 0x1_0000_0000_0000_0000 == run_value(
            s,
            position as int,
        )) by {
            vstd::arithmetic::div_mod::lemma_small_mod(
                run_value(s, position as int),
                0x1_0000_0000_0000_0000,
            );
        }
    }
    Ok((Token::number(value, Loc::new(position, end)), end))
}

/// Skip the maximal whitespace run starting at `position`; a position
/// at or past the end of the input comes back unchanged.
pub fn ignore_spaces(input_bytes: &[u8], position: usize) -> (r: LexResult<()>)
    ensures
        r == Ok::<((), usize), LexError>(
            ((), space_run_end(input_bytes@, position as int) as usize),
        ),
{
    let ghost s = input_bytes@;
    let n = input_bytes.len();
    if position >= n {
        return Ok(((), position));
    }
    let ghost run_end = space_run_end(s, position as int);
    proof {
        lemma_space_run_end(s, position as int);
    }
    let mut end = position;
    while end < n && (input_bytes[end] == BYTE_SPACE || input_bytes[end] == BYTE_NEWLINE
        || input_bytes[end] == BYTE_TAB)
        invariant
            s == input_bytes@,
            n == s.len(),
            position <= end <= run_end <= n,
            run_end == space_run_end(s, position as int),
            forall|j: int| position <= j < run_end ==> is_space_byte(s[j]),
            run_end < n ==> !is_space_byte(s[run_end]),
        decreases n - end,
    {
        proof {
            assert(is_space_byte(s[end as int]));
            assert(end < run_end) by {
                if end == run_end {
                    assert(!is_space_byte(s[end as int]));
                }
            }
        }
        end = end + 1;
    }
    proof {
        assert(end == run_end) by {
            if end < run_end {
                assert(is_space_byte(s[end as int]));
            }
        }
    }
    Ok(((), end))
}

/// Skipping a whitespace run one byte at a time does not change what the
/// rest of the input lexes to.
proof fn lemma_lex_skip_spaces(s: Seq<u8>, pos: int)
    requires
        0 <= pos <= s.len(),
    ensures
        spec_lex_from(s, pos) == spec_lex_from(s, space_run_end(s, pos)),
    decreases s.len() - pos,
{
    if pos < s.len() && is_space_byte(s[pos]) {
        lemma_lex_skip_spaces(s, pos + 1);
    }
}

/// Lex a whole source line into its token sequence, or fail on the first
/// byte that fits no token.
///
/// The result is exactly [`spec_lex`] applied to the UTF-8 bytes of the
/// input; number literals are required up front to fit in a `u64`.
pub fn lex(input: &str) -> (r: Result<Vec<Token>, LexError>)
    requires
        lex_fits(input.spec_bytes()),
    ensures
        ({
            let s = input.spec_bytes();
            match r {
                Ok(v) => spec_lex(s) == Ok::<Seq<Token>, LexError>(v@),
                Err(e) => spec_lex(s) == Err::<Seq<Token>, LexError>(e),
            }
        }),
{
    let mut tokens: Vec<Token> = Vec::new();
    let input_bytes: &[u8] = input.as_bytes();
    let ghost s = input_bytes@;
    let n = input_bytes.len();
    let mut position: usize = 0;
    while position < n
        invariant
            s == input.spec_bytes(),
            s == input_bytes@,
            n == s.len(),
            lex_fits(s),
            position <= n,
            position < n && is_digit_byte(s[position as int]) ==> (position == 0
                || !is_digit_byte(s[position as int - 1])),
            (match spec_lex_from(s, position as int) {
                Ok(rest) => spec_lex(s) == Ok::<Seq<Token>, LexError>(tokens@ + rest),
                Err(e) => spec_lex(s) == Err::<Seq<Token>, LexError>(e),
            }),
        decreases n - position,
    {
        let ghost tokens_before = tokens@;
        let b = input_bytes[position];
        if BYTE_ZERO <= b && b <= BYTE_NINE {
            proof {
                lemma_digit_run_end(s, position as int);
            }
            match number(input_bytes, position) {
                Ok((token, new_position)) => {
                    tokens.push(token);
                    proof {
                        lemma_lex_glue(s, position as int, tokens_before, token, new_position as int);
                    }
                    position = new_position;
                },
                Err(e) => {
                    return Err(e);
                },
            }
        } else if b == BYTE_PLUS {
            match plus(input_bytes, position) {
                Ok((token, new_position)) => {
                    tokens.push(token);
                    proof {
                        lemma_lex_glue(s, position as int, tokens_before, token, new_position as int);
                    }
                    position = new_position;
                },
                Err(e) => {
                    return Err(e);
                },
            }
        } else if b == BYTE_MINUS {
            match minus(input_bytes, position) {
                Ok((token, new_position)) => {
                    tokens.push(token);
                    proof {
                        lemma_lex_glue(s, position as int, tokens_before, token, new_position as int);
                    }
                    position = new_position;
                },
                Err(e) => {
                    return Err(e);
                },
            }
        } else if b == BYTE_ASTERISK {
            match asterisk(input_bytes, position) {
                Ok((token, new_position)) => {
                    tokens.push(token);
                    proof {
                        lemma_lex_glue(s, position as int, tokens_before, token, new_position as int);
                    }
                    position = new_position;
                },
                Err(e) => {
                    return Err(e);
                },
            }
        } else if b == BYTE_SLASH {
            match slash(input_bytes, position) {
                Ok((token, new_position)) => {
                    tokens.push(token);
                    proof {
                        lemma_lex_glue(s, position as int, tokens_before, token, new_position as int);
                    }
                    position = new_position;
                },
                Err(e) => {
                    return Err(e);
                },
            }
        } else if b == BYTE_LPAREN {
            match lparen(input_bytes, position) {
                Ok((token, new_position)) => {
                    tokens.push(token);
                    proof {
                        lemma_lex_glue(s, position as int, tokens_before, token, new_position as int);
                    }
                    position = new_position;
                },
                Err(e) => {
                    return Err(e);
                },
            }
        } else if b == BYTE_RPAREN {
            match rparen(input_bytes, position) {
                Ok((token, new_position)) => {
                    tokens.push(token);
                    proof {
                        lemma_lex_glue(s, position as int, tokens_before, token, new_position as int);
                    }
                    position = new_position;
                },
                Err(e) => {
                    return Err(e);
                },
            }
        } else if b == BYTE_SPACE || b == BYTE_NEWLINE || b == BYTE_TAB {
            proof {
                lemma_space_run_end(s, position as int);
                lemma_lex_skip_spaces(s, position as int);
            }
            match ignore_spaces(input_bytes, position) {
                Ok((_, new_position)) => {
                    position = new_position;
                },
                Err(e) => {
                    return Err(e);
                },
            }
        } else {
            return Err(LexError::invalid_char(b as char, Loc::new(position, position + 1)));
        }
    }
    proof {
        assert(tokens@ + Seq::<Token>::empty() =~= tokens@);
    }
    Ok(tokens)
}

/// One step of the lexer loop: consuming the token that spans
/// `[pos, new_pos)` keeps the loop's account of [`spec_lex`] intact.
proof fn lemma_lex_glue(s: Seq<u8>, pos: int, done: Seq<Token>, token: Token, new_pos: int)
    requires
        0 <= pos < s.len(),
        pos < new_pos <= s.len(),
        spec_lex_from(s, pos) == spec_lex_cons(token, spec_lex_from(s, new_pos)),
        (match spec_lex_from(s, pos) {
            Ok(rest) => spec_lex(s) == Ok::<Seq<Token>, LexError>(done + rest),
            Err(e) => spec_lex(s) == Err::<Seq<Token>, LexError>(e),
        }),
    ensures
        (match spec_lex_from(s, new_pos) {
            Ok(rest) => spec_lex(s) == Ok::<Seq<Token>, LexError>(done.push(token) + rest),
            Err(e) => spec_lex(s) == Err::<Seq<Token>, LexError>(e),
        }),
{
    match spec_lex_from(s, new_pos) {
        Ok(rest) => {
            assert(spec_lex_from(s, pos) == Ok::<Seq<Token>, LexError>(seq![token] + rest));
            assert(done + (seq![token] + rest) =~= done.push(token) + rest);
        },
        Err(_) => {},
    }
}

} // verus!
