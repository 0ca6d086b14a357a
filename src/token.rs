//! Tokens of the expression language: decimal literals, one variable letter,
//! `+ - * /` and brackets.
use vstd::prelude::*;
use vstd::string::*;

use crate::rational::{rep, Frac};

verus! {

/// Why an expression could not be read, evaluated or inverted.
#[derive(Clone, Copy, Debug, PartialEq, Eq, Structural)]
pub enum ExprError {
    /// A character that belongs to no token.
    UnexpectedChar(char),
    /// A run of digits and points that is not a decimal literal.
    BadNumber,
    /// A bracket without its partner.
    UnbalancedBrackets,
    /// Operands and operators do not form one tree.
    Malformed,
    /// More than one distinct variable letter.
    MultipleVariables,
    /// The variable occurs more than once, so the tree cannot be inverted.
    MultipleOccurrences,
    /// There is no variable to solve for.
    NoVariable,
    /// A division by a value that is zero.
    DivisionByZero,
    /// A value leaves the range of the exact arithmetic.
    Overflow,
}

/// Operators as they stand on the operator stack.
#[derive(Clone, Copy, Debug, PartialEq, Eq, Structural)]
pub enum Ops {
    Add,
    Subtract,
    Multiply,
    Divide,
    OpenBracket,
    CloseBracket,
}

impl Ops {
    pub open spec fn prec(self) -> u8 {
        match self {
            Ops::Add | Ops::Subtract => 2,
            Ops::Multiply | Ops::Divide => 3,
            _ => 0,
        }
    }

    /// Binding strength: products bind tighter than sums; brackets bind nothing.
    pub fn precedence(&self) -> (r: u8)
        ensures
            r == self.prec(),
    {
        match self {
            Ops::Add => 2,
            Ops::Subtract => 2,
            Ops::Multiply => 3,
            Ops::Divide => 3,
            _ => 0,
        }
    }
}

/// A decimal literal: `mantissa / 10^scale`.
#[derive(Clone, Copy, Debug, PartialEq, Eq, Structural)]
pub struct Decimal {
    pub mantissa: i128,
    pub scale: u32,
}

/// The most digits a literal may have; the value then stays below `10^38`.
pub const MAX_DIGITS: u32 = 38;

pub open spec fn pow10(n: nat) -> nat
    decreases n,
{
    if n == 0 {
        1
    } else {
        10 * pow10((n - 1) as nat)
    }
}

/// The fraction a literal stands for.
pub open spec fn decimal_frac(d: Decimal) -> Result<Frac, ExprError> {
    if d.scale <= MAX_DIGITS && rep(d.mantissa as int) {
        Ok((d.mantissa as int, pow10(d.scale as nat) as int))
    } else {
        Err(ExprError::Overflow)
    }
}

pub open spec fn is_digit(c: char) -> bool {
    '0' <= c <= '9'
}

pub open spec fn is_letter(c: char) -> bool {
    ('a' <= c <= 'z') || ('A' <= c <= 'Z')
}

pub open spec fn is_space(c: char) -> bool {
    c == ' ' || c == '\t' || c == '\n' || c == '\r'
}

pub open spec fn digit_value(c: char) -> int {
    (c as int) - ('0' as int)
}

/// The digits of `s` read as one integer, points skipped.
pub open spec fn digits_value(s: Seq<char>) -> int
    decreases s.len(),
{
    if s.len() == 0 {
        0
    } else if s.last() == '.' {
        digits_value(s.drop_last())
    } else {
        digits_value(s.drop_last()) * 10 + digit_value(s.last())
    }
}

pub open spec fn digit_count(s: Seq<char>) -> nat
    decreases s.len(),
{
    if s.len() == 0 {
        0
    } else if s.last() == '.' {
        digit_count(s.drop_last())
    } else {
        digit_count(s.drop_last()) + 1
    }
}

pub open spec fn point_count(s: Seq<char>) -> nat
    decreases s.len(),
{
    if s.len() == 0 {
        0
    } else if s.last() == '.' {
        point_count(s.drop_last()) + 1
    } else {
        point_count(s.drop_last())
    }
}

/// Digits after the last point.
pub open spec fn trailing_digits(s: Seq<char>) -> nat
    decreases s.len(),
{
    if s.len() == 0 || s.last() == '.' {
        0
    } else {
        trailing_digits(s.drop_last()) + 1
    }
}

/// A run of digits and points read as a literal: at least one digit, at
/// most one point, at most `MAX_DIGITS` digits.
pub open spec fn decimal_of(s: Seq<char>) -> Result<Decimal, ExprError> {
    if digit_count(s) == 0 || point_count(s) > 1 {
        Err(ExprError::BadNumber)
    } else if digit_count(s) > MAX_DIGITS {
        Err(ExprError::Overflow)
    } else {
        Ok(
            Decimal {
                mantissa: digits_value(s) as i128,
                scale: if point_count(s) == 1 {
                    trailing_digits(s) as u32
                } else {
                    0
                },
            },
        )
    }
}

pub proof fn lemma_digits_bound(s: Seq<char>)
    requires
        forall|i: int| 0 <= i < s.len() ==> is_digit(#[trigger] s[i]) || s[i] == '.',
    ensures
        0 <= digits_value(s) < pow10(digit_count(s)),
        trailing_digits(s) <= digit_count(s),
    decreases s.len(),
{
    if s.len() > 0 {
        let p = s.drop_last();
        assert forall|i: int| 0 <= i < p.len() implies is_digit(#[trigger] p[i]) || p[i] == '.' by {
            assert(p[i] == s[i]);
        }
        lemma_digits_bound(p);
        assert(s[s.len() - 1] == s.last());
    }
}

pub proof fn lemma_pow10_mono(a: nat, b: nat)
    requires
        a <= b,
    ensures
        pow10(a) <= pow10(b),
    decreases b,
{
    if a < b {
        lemma_pow10_mono(a, (b - 1) as nat);
    }
}

/// `pow10(38)` is below the largest magnitude.
pub proof fn lemma_pow10_fits(n: nat)
    requires
        n <= MAX_DIGITS,
    ensures
        pow10(n) <= 100_000_000_000_000_000_000_000_000_000_000_000_000,
{
    lemma_pow10_mono(n, 38);
    reveal_with_fuel(pow10, 39);
}

/// Reads a run of digits and points as a literal.
pub fn parse_decimal(s: &Vec<char>) -> (r: Result<Decimal, ExprError>)
    requires
        forall|i: int| 0 <= i < s@.len() ==> is_digit(#[trigger] s@[i]) || s@[i] == '.',
    ensures
        r == decimal_of(s@),
{
    let mut digits: usize = 0;
    let mut points: usize = 0;
    let mut after: usize = 0;
    let mut value: i128 = 0;
    let mut i: usize = 0;
    while i < s.len()
        invariant
            0 <= i <= s@.len(),
            forall|k: int| 0 <= k < s@.len() ==> is_digit(#[trigger] s@[k]) || s@[k] == '.',
            digits == digit_count(s@.subrange(0, i as int)),
            points == point_count(s@.subrange(0, i as int)),
            after == trailing_digits(s@.subrange(0, i as int)),
            digits <= i,
            points <= i,
            after <= i,
            digits <= MAX_DIGITS ==> value == digits_value(s@.subrange(0, i as int)),
        decreases s@.len() - i,
    {
        let c = s[i];
        let ghost pre = s@.subrange(0, i as int);
        let ghost post = s@.subrange(0, i as int + 1);
        assert(post.drop_last() == pre);
        assert(post.last() == c);
        if c == '.' {
            points = points + 1;
            after = 0;
        } else {
            if digits < 38 {
                proof {
                    lemma_digits_bound(pre);
                    lemma_pow10_fits(digits as nat);
                    lemma_pow10_mono(digits as nat, 37);
                    reveal_with_fuel(pow10, 38);
                }
                value = value * 10 + (c as u32 - '0' as u32) as i128;
            }
            digits = digits + 1;
            after = after + 1;
        }
        i = i + 1;
    }
    assert(s@.subrange(0, s@.len() as int) == s@);
    proof {
        lemma_digits_bound(s@);
    }
    if digits == 0 || points > 1 {
        Err(ExprError::BadNumber)
    } else if digits > 38 {
        Err(ExprError::Overflow)
    } else {
        let scale: u32 = if points == 1 { after as u32 } else { 0 };
        Ok(Decimal { mantissa: value, scale })
    }
}

/// A token of the expression text. A minus in prefix position becomes a
/// negation flag on the literal or variable that follows it.
#[derive(Clone, Copy, Debug, PartialEq, Eq, Structural)]
pub enum Tokens {
    Number(Decimal),
    Op(Ops),
    /// The variable letter, and whether it is negated.
    Var(char, bool),
    OpenBracket,
    CloseBracket,
}

/// Tokenizer state: tokens so far, a pending negation, the digit run being read.
pub type TokState = (Seq<Tokens>, bool, Seq<char>);

pub open spec fn negate_decimal(d: Decimal) -> Decimal {
    Decimal { mantissa: (-d.mantissa) as i128, scale: d.scale }
}

/// Ends the digit run, if any, as a literal token.
pub open spec fn flush_spec(st: TokState) -> Result<TokState, ExprError> {
    if st.2.len() == 0 {
        Ok(st)
    } else {
        match decimal_of(st.2) {
            Err(e) => Err(e),
            Ok(d) => Ok(
                (
                    st.0.push(Tokens::Number(if st.1 { negate_decimal(d) } else { d })),
                    false,
                    Seq::empty(),
                ),
            ),
        }
    }
}

/// A minus is a negation at the start, after an operator or after an open bracket.
pub open spec fn minus_is_prefix(toks: Seq<Tokens>) -> bool {
    toks.len() == 0 || toks.last() is Op || toks.last() is OpenBracket
}

pub open spec fn tok_step(st: TokState, c: char) -> Result<TokState, ExprError> {
    if is_digit(c) || c == '.' {
        Ok((st.0, st.1, st.2.push(c)))
    } else {
        match flush_spec(st) {
            Err(e) => Err(e),
            Ok(f) => {
                let t = f.0;
                let n = f.1;
                if c == '+' {
                    Ok((t.push(Tokens::Op(Ops::Add)), n, f.2))
                } else if c == '*' {
                    Ok((t.push(Tokens::Op(Ops::Multiply)), n, f.2))
                } else if c == '/' {
                    Ok((t.push(Tokens::Op(Ops::Divide)), n, f.2))
                } else if c == '-' {
                    if minus_is_prefix(t) {
                        Ok((t, !n, f.2))
                    } else {
                        Ok((t.push(Tokens::Op(Ops::Subtract)), n, f.2))
                    }
                } else if is_letter(c) {
                    Ok((t.push(Tokens::Var(c, n)), false, f.2))
                } else if c == '(' || c == '[' {
                    Ok((t.push(Tokens::OpenBracket), n, f.2))
                } else if c == ')' || c == ']' {
                    Ok((t.push(Tokens::CloseBracket), n, f.2))
                } else if is_space(c) {
                    Ok(f)
                } else {
                    Err(ExprError::UnexpectedChar(c))
                }
            },
        }
    }
}

pub open spec fn tok_run(s: Seq<char>, st: TokState) -> Result<Seq<Tokens>, ExprError>
    decreases s.len(),
{
    if s.len() == 0 {
        match flush_spec(st) {
            Err(e) => Err(e),
            Ok(f) => Ok(f.0),
        }
    } else {
        match tok_step(st, s[0]) {
            Err(e) => Err(e),
            Ok(next) => tok_run(s.drop_first(), next),
        }
    }
}

/// The tokens of an expression text.
pub open spec fn tokens_of(s: Seq<char>) -> Result<Seq<Tokens>, ExprError> {
    tok_run(s, (Seq::empty(), false, Seq::empty()))
}

pub open spec fn run_chars(buf: Seq<char>) -> bool {
    forall|k: int| 0 <= k < buf.len() ==> is_digit(#[trigger] buf[k]) || buf[k] == '.'
}

fn flush_number(tokens: &mut Vec<Tokens>, neg: &mut bool, buf: &mut Vec<char>) -> (r: Result<
    (),
    ExprError,
>)
    requires
        run_chars(old(buf)@),
    ensures
        match flush_spec((old(tokens)@, *old(neg), old(buf)@)) {
            Ok(f) => r is Ok && f == (final(tokens)@, *final(neg), final(buf)@),
            Err(e) => r == Err::<(), ExprError>(e),
        },
{
    if buf.len() == 0 {
        return Ok(());
    }
    match parse_decimal(buf) {
        Err(e) => Err(e),
        Ok(d) => {
            proof {
                lemma_digits_bound(buf@);
                lemma_pow10_fits(digit_count(buf@));
            }
            let lit = if *neg {
                Decimal { mantissa: -d.mantissa, scale: d.scale }
            } else {
                d
            };
            tokens.push(Tokens::Number(lit));
            *neg = false;
            *buf = Vec::new();
            Ok(())
        },
    }
}

/// Splits an expression text into tokens.
pub fn tokenize(expr: &str) -> (r: Result<Vec<Tokens>, ExprError>)
    ensures
        match tokens_of(expr@) {
            Ok(t) => r is Ok && r->Ok_0@ == t,
            Err(e) => r == Err::<Vec<Tokens>, ExprError>(e),
        },
{
    let mut tokens: Vec<Tokens> = Vec::new();
    let mut neg = false;
    let mut buf: Vec<char> = Vec::new();
    let n = expr.unicode_len();
    let mut i: usize = 0;
    assert(expr@.skip(0) == expr@);
    assert(tokens@ == Seq::<Tokens>::empty());
    assert(buf@ == Seq::<char>::empty());
    while i < n
        invariant
            n == expr@.len(),
            0 <= i <= n,
            run_chars(buf@),
            tokens_of(expr@) == tok_run(expr@.skip(i as int), (tokens@, neg, buf@)),
        decreases n - i,
    {
        let c = expr.get_char(i);
        let ghost st: TokState = (tokens@, neg, buf@);
        let ghost rest = expr@.skip(i as int);
        assert(rest[0] == c);
        assert(rest.drop_first() == expr@.skip(i as int + 1));
        if ('0' <= c && c <= '9') || c == '.' {
            buf.push(c);
        } else {
            match flush_number(&mut tokens, &mut neg, &mut buf) {
                Err(e) => {
                    return Err(e);
                },
                Ok(()) => {},
            }
            if c == '+' {
                tokens.push(Tokens::Op(Ops::Add));
            } else if c == '*' {
                tokens.push(Tokens::Op(Ops::Multiply));
            } else if c == '/' {
                tokens.push(Tokens::Op(Ops::Divide));
            } else if c == '-' {
                let prefix = match tokens.last() {
                    None => true,
                    Some(Tokens::Op(_)) => true,
                    Some(Tokens::OpenBracket) => true,
                    Some(_) => false,
                };
                if prefix {
                    neg = !neg;
                } else {
                    tokens.push(Tokens::Op(Ops::Subtract));
                }
            } else if ('a' <= c && c <= 'z') || ('A' <= c && c <= 'Z') {
                tokens.push(Tokens::Var(c, neg));
                neg = false;
            } else if c == '(' || c == '[' {
                tokens.push(Tokens::OpenBracket);
            } else if c == ')' || c == ']' {
                tokens.push(Tokens::CloseBracket);
            } else if c == ' ' || c == '\t' || c == '\n' || c == '\r' {
            } else {
                return Err(ExprError::UnexpectedChar(c));
            }
        }
        i = i + 1;
    }
    assert(expr@.skip(n as int).len() == 0);
    match flush_number(&mut tokens, &mut neg, &mut buf) {
        Err(e) => Err(e),
        Ok(()) => Ok(tokens),
    }
}

} // verus!
