//! Arithmetic expression evaluator for the launcher's calculator slot.
//!
//! The grammar is `+ - * /` with parentheses and decimal literals; values
//! are exact rationals held as an `i64` numerator and positive `i64`
//! denominator.  Every operation is range-checked, so evaluation either
//! returns an exact result or a distinct error.

use vstd::prelude::*;

use crate::text::{
    digit_val, end_non_ws, first_non_ws, is_digit, is_digit_exec, is_white,
    lemma_end_non_ws_ge, lemma_first_non_ws_props, trim_bounds, trim_spec,
};

verus! {

/// The distinct failures of tokenizing or evaluating an expression.
#[derive(Clone, Copy, Debug, PartialEq, Eq, Structural)]
pub enum EvalError {
    /// The input held no tokens at all.
    Empty,
    /// A character outside the grammar was met.
    UnexpectedChar,
    /// A numeric literal held no digits.
    InvalidNumber,
    /// A `(` was never closed.
    MissingParen,
    /// A number or `(` was expected and something else stood there.
    MissingOperand,
    /// A complete expression was followed by further tokens.
    TrailingTokens,
    /// Division by an exact zero.
    DivisionByZero,
    /// An intermediate value left the representable range.
    Overflow,
}

/// An exact rational number: `num / den` with `den > 0`.
#[derive(Clone, Copy, Debug, PartialEq, Eq, Structural)]
pub struct Rat {
    pub num: i64,
    pub den: i64,
}

impl Rat {
    /// The denominator is positive, so the value is well defined.
    pub open spec fn wf(self) -> bool {
        self.den > 0
    }
}

/// Whether a mathematical integer fits in `i64`.
pub open spec fn in_i64(x: int) -> bool {
    i64::MIN <= x <= i64::MAX
}

/// Exact sum, range-checked: `a/b + c/d == (a*d + c*b) / (b*d)`.
pub open spec fn rat_add(a: Rat, b: Rat) -> Result<Rat, EvalError> {
    let n = a.num * b.den + b.num * a.den;
    let d = a.den * b.den;
    if in_i64(n) && in_i64(d) {
        Ok(Rat { num: n as i64, den: d as i64 })
    } else {
        Err(EvalError::Overflow)
    }
}

/// Exact difference, range-checked.
pub open spec fn rat_sub(a: Rat, b: Rat) -> Result<Rat, EvalError> {
    let n = a.num * b.den - b.num * a.den;
    let d = a.den * b.den;
    if in_i64(n) && in_i64(d) {
        Ok(Rat { num: n as i64, den: d as i64 })
    } else {
        Err(EvalError::Overflow)
    }
}

/// Exact product, range-checked.
pub open spec fn rat_mul(a: Rat, b: Rat) -> Result<Rat, EvalError> {
    let n = a.num * b.num;
    let d = a.den * b.den;
    if in_i64(n) && in_i64(d) {
        Ok(Rat { num: n as i64, den: d as i64 })
    } else {
        Err(EvalError::Overflow)
    }
}

/// Exact quotient, range-checked; the divisor must not be zero and the
/// result's denominator is kept positive.
pub open spec fn rat_div(a: Rat, b: Rat) -> Result<Rat, EvalError> {
    if b.num == 0 {
        Err(EvalError::DivisionByZero)
    } else {
        let n0 = a.num * b.den;
        let d0 = a.den * b.num;
        let n = if d0 < 0 { -n0 } else { n0 };
        let d = if d0 < 0 { -d0 } else { d0 };
        if in_i64(n) && in_i64(d) {
            Ok(Rat { num: n as i64, den: d as i64 })
        } else {
            Err(EvalError::Overflow)
        }
    }
}

/// Exact negation, range-checked.
pub open spec fn rat_neg(a: Rat) -> Result<Rat, EvalError> {
    if in_i64(-a.num) {
        Ok(Rat { num: (-a.num) as i64, den: a.den })
    } else {
        Err(EvalError::Overflow)
    }
}

proof fn lemma_prod_bound(x: int, y: int)
    requires
        -0x8000_0000_0000_0000 <= x <= 0x7fff_ffff_ffff_ffff,
        0 < y <= 0x7fff_ffff_ffff_ffff,
    ensures
        x * y <= 0x8000_0000_0000_0000 * 0x7fff_ffff_ffff_ffff,
        x * y >= -0x8000_0000_0000_0000 * 0x7fff_ffff_ffff_ffff,
    decreases 0int,
{
    assert(x * y <= 0x8000_0000_0000_0000 * 0x7fff_ffff_ffff_ffff
        && x * y >= -0x8000_0000_0000_0000 * 0x7fff_ffff_ffff_ffff) by (nonlinear_arith)
        requires
            -0x8000_0000_0000_0000 <= x <= 0x7fff_ffff_ffff_ffff,
            0 < y <= 0x7fff_ffff_ffff_ffff,
    ;
}

fn add_rat(a: Rat, b: Rat) -> (r: Result<Rat, EvalError>)
    requires
        a.wf(),
        b.wf(),
    ensures
        r == rat_add(a, b),
        r matches Ok(v) ==> v.wf(),
{
    proof {
        lemma_prod_bound(a.num as int, b.den as int);
        lemma_prod_bound(b.num as int, a.den as int);
        lemma_prod_bound(a.den as int, b.den as int);
    }
    let n: i128 = (a.num as i128) * (b.den as i128) + (b.num as i128) * (a.den as i128);
    let d: i128 = (a.den as i128) * (b.den as i128);
    if i64::MIN as i128 <= n && n <= i64::MAX as i128 && d <= i64::MAX as i128 {
        proof {
            assert(d > 0) by (nonlinear_arith)
                requires d == (a.den as int) * (b.den as int), a.den > 0, b.den > 0;
        }
        Ok(Rat { num: n as i64, den: d as i64 })
    } else {
        Err(EvalError::Overflow)
    }
}

fn sub_rat(a: Rat, b: Rat) -> (r: Result<Rat, EvalError>)
    requires
        a.wf(),
        b.wf(),
    ensures
        r == rat_sub(a, b),
        r matches Ok(v) ==> v.wf(),
{
    proof {
        lemma_prod_bound(a.num as int, b.den as int);
        lemma_prod_bound(b.num as int, a.den as int);
        lemma_prod_bound(a.den as int, b.den as int);
    }
    let n: i128 = (a.num as i128) * (b.den as i128) - (b.num as i128) * (a.den as i128);
    let d: i128 = (a.den as i128) * (b.den as i128);
    if i64::MIN as i128 <= n && n <= i64::MAX as i128 && d <= i64::MAX as i128 {
        proof {
            assert(d > 0) by (nonlinear_arith)
                requires d == (a.den as int) * (b.den as int), a.den > 0, b.den > 0;
        }
        Ok(Rat { num: n as i64, den: d as i64 })
    } else {
        Err(EvalError::Overflow)
    }
}

fn mul_rat(a: Rat, b: Rat) -> (r: Result<Rat, EvalError>)
    requires
        a.wf(),
        b.wf(),
    ensures
        r == rat_mul(a, b),
        r matches Ok(v) ==> v.wf(),
{
    proof {
        assert(-0x8000_0000_0000_0000 * 0x8000_0000_0000_0000
            <= (a.num as int) * (b.num as int)
            <= 0x8000_0000_0000_0000 * 0x8000_0000_0000_0000) by (nonlinear_arith)
            requires
                -0x8000_0000_0000_0000 <= a.num as int <= 0x7fff_ffff_ffff_ffff,
                -0x8000_0000_0000_0000 <= b.num as int <= 0x7fff_ffff_ffff_ffff,
        ;
        lemma_prod_bound(a.den as int, b.den as int);
    }
    let n: i128 = (a.num as i128) * (b.num as i128);
    let d: i128 = (a.den as i128) * (b.den as i128);
    if i64::MIN as i128 <= n && n <= i64::MAX as i128 && d <= i64::MAX as i128 {
        proof {
            assert(d > 0) by (nonlinear_arith)
                requires d == (a.den as int) * (b.den as int), a.den > 0, b.den > 0;
        }
        Ok(Rat { num: n as i64, den: d as i64 })
    } else {
        Err(EvalError::Overflow)
    }
}

fn div_rat(a: Rat, b: Rat) -> (r: Result<Rat, EvalError>)
    requires
        a.wf(),
        b.wf(),
    ensures
        r == rat_div(a, b),
        r matches Ok(v) ==> v.wf(),
{
    if b.num == 0 {
        return Err(EvalError::DivisionByZero);
    }
    proof {
        lemma_prod_bound(a.num as int, b.den as int);
        assert(-0x8000_0000_0000_0000 * 0x8000_0000_0000_0000
            <= (a.den as int) * (b.num as int)
            <= 0x8000_0000_0000_0000 * 0x8000_0000_0000_0000) by (nonlinear_arith)
            requires
                -0x8000_0000_0000_0000 <= a.den as int <= 0x7fff_ffff_ffff_ffff,
                -0x8000_0000_0000_0000 <= b.num as int <= 0x7fff_ffff_ffff_ffff,
        ;
        assert((a.den as int) * (b.num as int) != 0) by (nonlinear_arith)
            requires a.den > 0, b.num != 0;
    }
    let n0: i128 = (a.num as i128) * (b.den as i128);
    let d0: i128 = (a.den as i128) * (b.num as i128);
    let n: i128 = if d0 < 0 { -n0 } else { n0 };
    let d: i128 = if d0 < 0 { -d0 } else { d0 };
    if i64::MIN as i128 <= n && n <= i64::MAX as i128 && d <= i64::MAX as i128 {
        Ok(Rat { num: n as i64, den: d as i64 })
    } else {
        Err(EvalError::Overflow)
    }
}

fn neg_rat(a: Rat) -> (r: Result<Rat, EvalError>)
    requires
        a.wf(),
    ensures
        r == rat_neg(a),
        r matches Ok(v) ==> v.wf(),
{
    if a.num == i64::MIN {
        Err(EvalError::Overflow)
    } else {
        Ok(Rat { num: -a.num, den: a.den })
    }
}

/// One lexical token of the expression grammar.
#[derive(Clone, Copy, Debug)]
pub enum Token {
    Number(Rat),
    Plus,
    Minus,
    Multiply,
    Divide,
    LeftParen,
    RightParen,
}

pub open spec fn token_wf(t: Token) -> bool {
    match t {
        Token::Number(r) => r.wf(),
        _ => true,
    }
}

pub open spec fn tokens_wf(ts: Seq<Token>) -> bool {
    forall|i: int| 0 <= i < ts.len() ==> token_wf(#[trigger] ts[i])
}

/// The value of a scanned literal: its digits as `num / den`, negated for a
/// literal introduced by a leading minus; no digits at all is an error.
pub open spec fn finish_number(num: int, den: int, has_digit: bool, neg: bool) -> Result<
    Rat,
    EvalError,
> {
    if !has_digit {
        Err(EvalError::InvalidNumber)
    } else {
        Ok(Rat { num: if neg { (-num) as i64 } else { num as i64 }, den: den as i64 })
    }
}

/// Scans the maximal run of digits with at most one `.` from position `i`,
/// accumulating the exact value; returns the end position and the literal's
/// value.  `den` is the power of ten owed to the digits after the dot.
pub open spec fn spec_scan_number(
    s: Seq<char>,
    i: int,
    num: int,
    den: int,
    has_dot: bool,
    has_digit: bool,
    neg: bool,
) -> (int, Result<Rat, EvalError>)
    decreases s.len() - i,
{
    if i < 0 || i >= s.len() {
        (i, finish_number(num, den, has_digit, neg))
    } else if is_digit(s[i]) {
        let num2 = num * 10 + digit_val(s[i]);
        let den2 = if has_dot {
            den * 10
        } else {
            den
        };
        if num2 > i64::MAX || den2 > i64::MAX {
            (i, Err(EvalError::Overflow))
        } else {
            spec_scan_number(s, i + 1, num2, den2, has_dot, true, neg)
        }
    } else if s[i] == '.' && !has_dot {
        spec_scan_number(s, i + 1, num, den, true, has_digit, neg)
    } else {
        (i, finish_number(num, den, has_digit, neg))
    }
}

/// A `-` starts a negative literal only at the very beginning or right
/// after `(`, `+`, `-`, `*` or `/`.
pub open spec fn last_allows_negative(acc: Seq<Token>) -> bool {
    acc.len() == 0 || match acc.last() {
        Token::LeftParen => true,
        Token::Plus => true,
        Token::Minus => true,
        Token::Multiply => true,
        Token::Divide => true,
        _ => false,
    }
}

/// The tokenizer: spaces are skipped, operators and parentheses are one
/// token each, and digit runs become exact rational literals.
pub open spec fn spec_tokenize_at(s: Seq<char>, i: int, acc: Seq<Token>) -> Result<
    Seq<Token>,
    EvalError,
>
    decreases s.len() - i,
{
    if i < 0 || i >= s.len() {
        Ok(acc)
    } else {
        let c = s[i];
        if c == ' ' {
            spec_tokenize_at(s, i + 1, acc)
        } else if c == '+' {
            spec_tokenize_at(s, i + 1, acc.push(Token::Plus))
        } else if c == '*' {
            spec_tokenize_at(s, i + 1, acc.push(Token::Multiply))
        } else if c == '/' {
            spec_tokenize_at(s, i + 1, acc.push(Token::Divide))
        } else if c == '(' {
            spec_tokenize_at(s, i + 1, acc.push(Token::LeftParen))
        } else if c == ')' {
            spec_tokenize_at(s, i + 1, acc.push(Token::RightParen))
        } else if c == '-' {
            if last_allows_negative(acc) && i + 1 < s.len() && (is_digit(s[i + 1]) || s[i + 1]
                == '.') {
                let scanned = spec_scan_number(s, i + 1, 0, 1, false, false, true);
                match scanned.1 {
                    Err(e) => Err(e),
                    Ok(r) => if scanned.0 <= i || scanned.0 > s.len() {
                        Err(EvalError::InvalidNumber)
                    } else {
                        spec_tokenize_at(s, scanned.0, acc.push(Token::Number(r)))
                    },
                }
            } else {
                spec_tokenize_at(s, i + 1, acc.push(Token::Minus))
            }
        } else if is_digit(c) || c == '.' {
            let scanned = spec_scan_number(s, i, 0, 1, false, false, false);
            match scanned.1 {
                Err(e) => Err(e),
                Ok(r) => if scanned.0 <= i || scanned.0 > s.len() {
                    Err(EvalError::InvalidNumber)
                } else {
                    spec_tokenize_at(s, scanned.0, acc.push(Token::Number(r)))
                },
            }
        } else {
            Err(EvalError::UnexpectedChar)
        }
    }
}

pub open spec fn spec_tokenize(s: Seq<char>) -> Result<Seq<Token>, EvalError> {
    spec_tokenize_at(s, 0, Seq::empty())
}

pub open spec fn tokens_res_view(r: Result<Vec<Token>, EvalError>) -> Result<
    Seq<Token>,
    EvalError,
> {
    match r {
        Ok(v) => Ok(v@),
        Err(e) => Err(e),
    }
}

fn scan_number(input: &str, start: usize, neg: bool) -> (r: (usize, Result<Rat, EvalError>))
    requires
        start <= input@.len(),
    ensures
        (r.0 as int, r.1) == spec_scan_number(input@, start as int, 0, 1, false, false, neg),
        start <= r.0 <= input@.len(),
        start < input@.len() && (is_digit(input@[start as int]) || input@[start as int] == '.')
            ==> r.0 > start,
        r.1 matches Ok(v) ==> v.wf(),
{
    let ghost s = input@;
    let len = input.unicode_len();
    let mut i = start;
    let mut num: i64 = 0;
    let mut den: i64 = 1;
    let mut has_dot = false;
    let mut has_digit = false;
    loop
        invariant
            s == input@,
            len == s.len(),
            start <= i <= len,
            0 <= num <= i64::MAX,
            1 <= den <= i64::MAX,
            spec_scan_number(s, i as int, num as int, den as int, has_dot, has_digit, neg)
                == spec_scan_number(s, start as int, 0, 1, false, false, neg),
            i == start ==> num == 0 && den == 1 && !has_dot && !has_digit,
        decreases len - i,
    {
        if i >= len {
            proof {
                assert(spec_scan_number(s, i as int, num as int, den as int, has_dot, has_digit, neg)
                    == (i as int, finish_number(num as int, den as int, has_digit, neg)));
            }
            if !has_digit {
                return (i, Err(EvalError::InvalidNumber));
            } else {
                return (i, Ok(Rat { num: if neg { -num } else { num }, den }));
            }
        }
        let c = input.get_char(i);
        if is_digit_exec(c) {
            let d: i64 = ((c as u32) - 48) as i64;
            proof {
                assert(d as int == digit_val(c));
            }
            let num2: i128 = (num as i128) * 10 + (d as i128);
            let den2: i128 = if has_dot {
                (den as i128) * 10
            } else {
                den as i128
            };
            if num2 > i64::MAX as i128 || den2 > i64::MAX as i128 {
                proof {
                    assert(i != start);
                    assert(spec_scan_number(
                        s, i as int, num as int, den as int, has_dot, has_digit, neg,
                    ) == (i as int, Err::<Rat, EvalError>(EvalError::Overflow)));
                }
                return (i, Err(EvalError::Overflow));
            }
            proof {
                assert(spec_scan_number(s, i as int, num as int, den as int, has_dot, has_digit, neg)
                    == spec_scan_number(s, i + 1, num2 as int, den2 as int, has_dot, true, neg));
            }
            num = num2 as i64;
            den = den2 as i64;
            has_digit = true;
            i = i + 1;
        } else if c == '.' && !has_dot {
            proof {
                assert(spec_scan_number(s, i as int, num as int, den as int, has_dot, has_digit, neg)
                    == spec_scan_number(s, i + 1, num as int, den as int, true, has_digit, neg));
            }
            has_dot = true;
            i = i + 1;
        } else {
            proof {
                assert(spec_scan_number(s, i as int, num as int, den as int, has_dot, has_digit, neg)
                    == (i as int, finish_number(num as int, den as int, has_digit, neg)));
            }
            if !has_digit {
                return (i, Err(EvalError::InvalidNumber));
            } else {
                return (i, Ok(Rat { num: if neg { -num } else { num }, den }));
            }
        }
    }
}

fn tokenize(input: &str) -> (r: Result<Vec<Token>, EvalError>)
    ensures
        tokens_res_view(r) == spec_tokenize(input@),
        r matches Ok(v) ==> tokens_wf(v@),
{
    let len = input.unicode_len();
    let mut toks: Vec<Token> = Vec::new();
    let mut i: usize = 0;
    while i < len
        invariant
            i <= len,
            len == input@.len(),
            spec_tokenize_at(input@, i as int, toks@) == spec_tokenize(input@),
            tokens_wf(toks@),
        decreases len - i,
    {
        let c = input.get_char(i);
        if c == ' ' {
            i = i + 1;
        } else if c == '+' {
            toks.push(Token::Plus);
            i = i + 1;
        } else if c == '*' {
            toks.push(Token::Multiply);
            i = i + 1;
        } else if c == '/' {
            toks.push(Token::Divide);
            i = i + 1;
        } else if c == '(' {
            toks.push(Token::LeftParen);
            i = i + 1;
        } else if c == ')' {
            toks.push(Token::RightParen);
            i = i + 1;
        } else if c == '-' {
            let allows = toks.len() == 0 || (matches!(
                toks[toks.len() - 1],
                Token::LeftParen | Token::Plus | Token::Minus | Token::Multiply | Token::Divide
            ));
            proof {
                assert(allows == last_allows_negative(toks@));
            }
            let neg_follows = allows && i + 1 < len && {
                let c2 = input.get_char(i + 1);
                is_digit_exec(c2) || c2 == '.'
            };
            if neg_follows {
                let scanned = scan_number(input, i + 1, true);
                match scanned.1 {
                    Err(e) => {
                        return Err(e);
                    },
                    Ok(rat) => {
                        toks.push(Token::Number(rat));
                        i = scanned.0;
                    },
                }
            } else {
                toks.push(Token::Minus);
                i = i + 1;
            }
        } else if is_digit_exec(c) || c == '.' {
            let scanned = scan_number(input, i, false);
            match scanned.1 {
                Err(e) => {
                    return Err(e);
                },
                Ok(rat) => {
                    toks.push(Token::Number(rat));
                    i = scanned.0;
                },
            }
        } else {
            return Err(EvalError::UnexpectedChar);
        }
    }
    Ok(toks)
}

// ----- recursive-descent parser -----
//
// `expression := term (('+'|'-') term)*`
// `term := factor (('*'|'/') factor)*`
// `factor := NUMBER | '(' expression ')' | '-' factor | '+' factor`
//
// Each spec parser returns the value together with the position after the
// consumed tokens.  A parser that succeeds always consumes at least one
// token; the impossible standstill case is mapped to an error so that the
// recursion visibly terminates.

pub open spec fn spec_parse_factor(ts: Seq<Token>, pos: int) -> Result<(Rat, int), EvalError>
    decreases ts.len() - pos, 0int,
{
    if pos < 0 || pos >= ts.len() {
        Err(EvalError::MissingOperand)
    } else {
        match ts[pos] {
            Token::Number(r) => Ok((r, pos + 1)),
            Token::LeftParen => match spec_parse_expr(ts, pos + 1) {
                Err(e) => Err(e),
                Ok(vp) => if 0 <= vp.1 < ts.len() && ts[vp.1] is RightParen {
                    Ok((vp.0, vp.1 + 1))
                } else {
                    Err(EvalError::MissingParen)
                },
            },
            Token::Minus => match spec_parse_factor(ts, pos + 1) {
                Err(e) => Err(e),
                Ok(vp) => match rat_neg(vp.0) {
                    Err(e) => Err(e),
                    Ok(v) => Ok((v, vp.1)),
                },
            },
            Token::Plus => spec_parse_factor(ts, pos + 1),
            _ => Err(EvalError::MissingOperand),
        }
    }
}

pub open spec fn spec_parse_term(ts: Seq<Token>, pos: int) -> Result<(Rat, int), EvalError>
    decreases ts.len() - pos, 1int,
{
    match spec_parse_factor(ts, pos) {
        Err(e) => Err(e),
        Ok(vp) => if vp.1 <= pos || vp.1 > ts.len() {
            Err(EvalError::MissingOperand)
        } else {
            spec_parse_term_rest(ts, vp.0, vp.1)
        },
    }
}

pub open spec fn spec_parse_term_rest(ts: Seq<Token>, acc: Rat, pos: int) -> Result<
    (Rat, int),
    EvalError,
>
    decreases ts.len() - pos, 2int,
{
    if pos < 0 || pos >= ts.len() {
        Ok((acc, pos))
    } else {
        match ts[pos] {
            Token::Multiply => match spec_parse_factor(ts, pos + 1) {
                Err(e) => Err(e),
                Ok(vp) => if vp.1 <= pos || vp.1 > ts.len() {
                    Err(EvalError::MissingOperand)
                } else {
                    match rat_mul(acc, vp.0) {
                        Err(e) => Err(e),
                        Ok(v) => spec_parse_term_rest(ts, v, vp.1),
                    }
                },
            },
            Token::Divide => match spec_parse_factor(ts, pos + 1) {
                Err(e) => Err(e),
                Ok(vp) => if vp.1 <= pos || vp.1 > ts.len() {
                    Err(EvalError::MissingOperand)
                } else {
                    match rat_div(acc, vp.0) {
                        Err(e) => Err(e),
                        Ok(v) => spec_parse_term_rest(ts, v, vp.1),
                    }
                },
            },
            _ => Ok((acc, pos)),
        }
    }
}

pub open spec fn spec_parse_expr(ts: Seq<Token>, pos: int) -> Result<(Rat, int), EvalError>
    decreases ts.len() - pos, 3int,
{
    match spec_parse_term(ts, pos) {
        Err(e) => Err(e),
        Ok(vp) => if vp.1 <= pos || vp.1 > ts.len() {
            Err(EvalError::MissingOperand)
        } else {
            spec_parse_expr_rest(ts, vp.0, vp.1)
        },
    }
}

pub open spec fn spec_parse_expr_rest(ts: Seq<Token>, acc: Rat, pos: int) -> Result<
    (Rat, int),
    EvalError,
>
    decreases ts.len() - pos, 4int,
{
    if pos < 0 || pos >= ts.len() {
        Ok((acc, pos))
    } else {
        match ts[pos] {
            Token::Plus => match spec_parse_term(ts, pos + 1) {
                Err(e) => Err(e),
                Ok(vp) => if vp.1 <= pos || vp.1 > ts.len() {
                    Err(EvalError::MissingOperand)
                } else {
                    match rat_add(acc, vp.0) {
                        Err(e) => Err(e),
                        Ok(v) => spec_parse_expr_rest(ts, v, vp.1),
                    }
                },
            },
            Token::Minus => match spec_parse_term(ts, pos + 1) {
                Err(e) => Err(e),
                Ok(vp) => if vp.1 <= pos || vp.1 > ts.len() {
                    Err(EvalError::MissingOperand)
                } else {
                    match rat_sub(acc, vp.0) {
                        Err(e) => Err(e),
                        Ok(v) => spec_parse_expr_rest(ts, v, vp.1),
                    }
                },
            },
            _ => Ok((acc, pos)),
        }
    }
}

/// What `evaluate` returns: the exact value of the expression, or the
/// first error of tokenizing, parsing or computing.
pub open spec fn spec_evaluate(s: Seq<char>) -> Result<Rat, EvalError> {
    match spec_tokenize(s) {
        Err(e) => Err(e),
        Ok(ts) => if ts.len() == 0 {
            Err(EvalError::Empty)
        } else {
            match spec_parse_expr(ts, 0) {
                Err(e) => Err(e),
                Ok(vp) => if vp.1 == ts.len() {
                    Ok(vp.0)
                } else {
                    Err(EvalError::TrailingTokens)
                },
            }
        },
    }
}

pub open spec fn parse_res_view(r: Result<(Rat, usize), EvalError>) -> Result<
    (Rat, int),
    EvalError,
> {
    match r {
        Ok(vp) => Ok((vp.0, vp.1 as int)),
        Err(e) => Err(e),
    }
}

fn parse_factor(ts: &Vec<Token>, pos: usize) -> (r: Result<(Rat, usize), EvalError>)
    requires
        pos <= ts@.len(),
        tokens_wf(ts@),
    ensures
        parse_res_view(r) == spec_parse_factor(ts@, pos as int),
        r matches Ok(vp) ==> pos < vp.1 <= ts@.len() && vp.0.wf(),
    decreases ts@.len() - pos, 0int,
{
    if pos >= ts.len() {
        return Err(EvalError::MissingOperand);
    }
    let t = ts[pos];
    match t {
        Token::Number(r) => {
            proof {
                assert(token_wf(ts@[pos as int]));
            }
            Ok((r, pos + 1))
        },
        Token::LeftParen => {
            match parse_expr(ts, pos + 1) {
                Err(e) => Err(e),
                Ok(vp) => {
                    if vp.1 < ts.len() && (matches!(ts[vp.1], Token::RightParen)) {
                        Ok((vp.0, vp.1 + 1))
                    } else {
                        Err(EvalError::MissingParen)
                    }
                },
            }
        },
        Token::Minus => {
            match parse_factor(ts, pos + 1) {
                Err(e) => Err(e),
                Ok(vp) => match neg_rat(vp.0) {
                    Err(e) => Err(e),
                    Ok(v) => Ok((v, vp.1)),
                },
            }
        },
        Token::Plus => parse_factor(ts, pos + 1),
        _ => Err(EvalError::MissingOperand),
    }
}

#[verifier::loop_isolation(false)]
fn parse_term(ts: &Vec<Token>, pos: usize) -> (r: Result<(Rat, usize), EvalError>)
    requires
        pos <= ts@.len(),
        tokens_wf(ts@),
    ensures
        parse_res_view(r) == spec_parse_term(ts@, pos as int),
        r matches Ok(vp) ==> pos < vp.1 <= ts@.len() && vp.0.wf(),
    decreases ts@.len() - pos, 1int,
{
    let mut acc: Rat;
    let mut p: usize;
    match parse_factor(ts, pos) {
        Err(e) => {
            return Err(e);
        },
        Ok(vp) => {
            acc = vp.0;
            p = vp.1;
        },
    }
    loop
        invariant
            tokens_wf(ts@),
            pos < p <= ts@.len(),
            acc.wf(),
            spec_parse_term_rest(ts@, acc, p as int) == spec_parse_term(ts@, pos as int),
        decreases ts@.len() - p,
    {
        if p >= ts.len() {
            proof {
                assert(spec_parse_term_rest(ts@, acc, p as int) == Ok::<(Rat, int), EvalError>(
                    (acc, p as int),
                ));
            }
            return Ok((acc, p));
        }
        let t = ts[p];
        match t {
            Token::Multiply => {
                match parse_factor(ts, p + 1) {
                    Err(e) => {
                        proof {
                            assert(spec_parse_term_rest(ts@, acc, p as int)
                                == Err::<(Rat, int), EvalError>(e));
                        }
                        return Err(e);
                    },
                    Ok(vp) => {
                        match mul_rat(acc, vp.0) {
                            Err(e) => {
                                proof {
                                    assert(spec_parse_term_rest(ts@, acc, p as int)
                                        == Err::<(Rat, int), EvalError>(e));
                                }
                                return Err(e);
                            },
                            Ok(v) => {
                                proof {
                                    assert(spec_parse_term_rest(ts@, acc, p as int)
                                        == spec_parse_term_rest(ts@, v, vp.1 as int));
                                }
                                acc = v;
                                p = vp.1;
                            },
                        }
                    },
                }
            },
            Token::Divide => {
                match parse_factor(ts, p + 1) {
                    Err(e) => {
                        proof {
                            assert(spec_parse_term_rest(ts@, acc, p as int)
                                == Err::<(Rat, int), EvalError>(e));
                        }
                        return Err(e);
                    },
                    Ok(vp) => {
                        match div_rat(acc, vp.0) {
                            Err(e) => {
                                proof {
                                    assert(spec_parse_term_rest(ts@, acc, p as int)
                                        == Err::<(Rat, int), EvalError>(e));
                                }
                                return Err(e);
                            },
                            Ok(v) => {
                                proof {
                                    assert(spec_parse_term_rest(ts@, acc, p as int)
                                        == spec_parse_term_rest(ts@, v, vp.1 as int));
                                }
                                acc = v;
                                p = vp.1;
                            },
                        }
                    },
                }
            },
            _ => {
                proof {
                    assert(spec_parse_term_rest(ts@, acc, p as int) == Ok::<(Rat, int), EvalError>(
                        (acc, p as int),
                    ));
                }
                return Ok((acc, p));
            },
        }
    }
}

#[verifier::loop_isolation(false)]
fn parse_expr(ts: &Vec<Token>, pos: usize) -> (r: Result<(Rat, usize), EvalError>)
    requires
        pos <= ts@.len(),
        tokens_wf(ts@),
    ensures
        parse_res_view(r) == spec_parse_expr(ts@, pos as int),
        r matches Ok(vp) ==> pos < vp.1 <= ts@.len() && vp.0.wf(),
    decreases ts@.len() - pos, 2int,
{
    let mut acc: Rat;
    let mut p: usize;
    match parse_term(ts, pos) {
        Err(e) => {
            return Err(e);
        },
        Ok(vp) => {
            acc = vp.0;
            p = vp.1;
        },
    }
    loop
        invariant
            tokens_wf(ts@),
            pos < p <= ts@.len(),
            acc.wf(),
            spec_parse_expr_rest(ts@, acc, p as int) == spec_parse_expr(ts@, pos as int),
        decreases ts@.len() - p,
    {
        if p >= ts.len() {
            proof {
                assert(spec_parse_expr_rest(ts@, acc, p as int) == Ok::<(Rat, int), EvalError>(
                    (acc, p as int),
                ));
            }
            return Ok((acc, p));
        }
        let t = ts[p];
        match t {
            Token::Plus => {
                match parse_term(ts, p + 1) {
                    Err(e) => {
                        proof {
                            assert(spec_parse_expr_rest(ts@, acc, p as int)
                                == Err::<(Rat, int), EvalError>(e));
                        }
                        return Err(e);
                    },
                    Ok(vp) => {
                        match add_rat(acc, vp.0) {
                            Err(e) => {
                                proof {
                                    assert(spec_parse_expr_rest(ts@, acc, p as int)
                                        == Err::<(Rat, int), EvalError>(e));
                                }
                                return Err(e);
                            },
                            Ok(v) => {
                                proof {
                                    assert(spec_parse_expr_rest(ts@, acc, p as int)
                                        == spec_parse_expr_rest(ts@, v, vp.1 as int));
                                }
                                acc = v;
                                p = vp.1;
                            },
                        }
                    },
                }
            },
            Token::Minus => {
                match parse_term(ts, p + 1) {
                    Err(e) => {
                        proof {
                            assert(spec_parse_expr_rest(ts@, acc, p as int)
                                == Err::<(Rat, int), EvalError>(e));
                        }
                        return Err(e);
                    },
                    Ok(vp) => {
                        match sub_rat(acc, vp.0) {
                            Err(e) => {
                                proof {
                                    assert(spec_parse_expr_rest(ts@, acc, p as int)
                                        == Err::<(Rat, int), EvalError>(e));
                                }
                                return Err(e);
                            },
                            Ok(v) => {
                                proof {
                                    assert(spec_parse_expr_rest(ts@, acc, p as int)
                                        == spec_parse_expr_rest(ts@, v, vp.1 as int));
                                }
                                acc = v;
                                p = vp.1;
                            },
                        }
                    },
                }
            },
            _ => {
                proof {
                    assert(spec_parse_expr_rest(ts@, acc, p as int) == Ok::<(Rat, int), EvalError>(
                        (acc, p as int),
                    ));
                }
                return Ok((acc, p));
            },
        }
    }
}

/// Evaluates the query text as an arithmetic expression; the result is an
/// exact rational with positive denominator.
pub fn evaluate(input: &str) -> (r: Result<Rat, EvalError>)
    ensures
        r == spec_evaluate(input@),
        r matches Ok(v) ==> v.wf(),
{
    let toks = match tokenize(input) {
        Err(e) => {
            return Err(e);
        },
        Ok(t) => t,
    };
    if toks.len() == 0 {
        return Err(EvalError::Empty);
    }
    match parse_expr(&toks, 0) {
        Err(e) => Err(e),
        Ok(vp) => {
            if vp.1 == toks.len() {
                Ok(vp.0)
            } else {
                Err(EvalError::TrailingTokens)
            }
        },
    }
}

// ----- detection of calculator queries -----

/// What `is_math_expression` returns: the text holds at least one digit or
/// `.`, and with surrounding whitespace removed it evaluates successfully.
pub open spec fn spec_is_math(s: Seq<char>) -> bool {
    has_digit_or_dot(s) && spec_evaluate(trim_spec(s)) is Ok
}

pub open spec fn has_digit_or_dot(s: Seq<char>) -> bool {
    exists|i: int| 0 <= i < s.len() && (is_digit(#[trigger] s[i]) || s[i] == '.')
}

/// The query is treated as arithmetic only if it holds a digit or `.` and,
/// with surrounding whitespace removed, evaluates without error.
#[verifier::loop_isolation(false)]
pub fn is_math_expression(input: &str) -> (r: bool)
    ensures
        r == spec_is_math(input@),
{
    let ghost s = input@;
    let len = input.unicode_len();

    let mut seen: bool = false;
    let mut k: usize = 0;
    while k < len
        invariant
            k <= len,
            s == input@,
            len == s.len(),
            seen == exists|t: int|
                0 <= t < k && (is_digit(#[trigger] s[t]) || s[t] == '.'),
        decreases len - k,
    {
        let c = input.get_char(k);
        if is_digit_exec(c) || c == '.' {
            seen = true;
        }
        k = k + 1;
    }
    if !seen {
        return false;
    }

    let bounds = trim_bounds(input);
    let trimmed = input.substring_char(bounds.0, bounds.1);
    match evaluate(trimmed) {
        Ok(_) => true,
        Err(_) => false,
    }
}

proof fn lemma_scan_shift(s: Seq<char>, d: int, i: int, num: int, den: int, has_dot: bool, has_digit: bool, neg: bool)
    requires
        0 <= d <= i,
        d <= s.len(),
    ensures
        spec_scan_number(s.skip(d), i - d, num, den, has_dot, has_digit, neg) == (
            spec_scan_number(s, i, num, den, has_dot, has_digit, neg).0 - d,
            spec_scan_number(s, i, num, den, has_dot, has_digit, neg).1,
        ),
    decreases s.len() - i,
{
    if i < s.len() {
        assert(s.skip(d)[i - d] == s[i]);
        if is_digit(s[i]) {
            let num2 = num * 10 + digit_val(s[i]);
            let den2 = if has_dot { den * 10 } else { den };
            if !(num2 > i64::MAX || den2 > i64::MAX) {
                lemma_scan_shift(s, d, i + 1, num2, den2, has_dot, true, neg);
            }
        } else if s[i] == '.' && !has_dot {
            lemma_scan_shift(s, d, i + 1, num, den, true, has_digit, neg);
        }
    }
}

proof fn lemma_tokenize_shift(s: Seq<char>, d: int, i: int, acc: Seq<Token>)
    requires
        0 <= d <= i,
        d <= s.len(),
    ensures
        spec_tokenize_at(s.skip(d), i - d, acc) == spec_tokenize_at(s, i, acc),
    decreases s.len() - i,
{
    if i < s.len() {
        let c = s[i];
        assert(s.skip(d)[i - d] == c);
        if c == ' ' || c == '+' || c == '*' || c == '/' || c == '(' || c == ')' {
            lemma_tokenize_shift(s, d, i + 1, spec_tokenize_at_next_acc(acc, c));
        } else if c == '-' {
            if last_allows_negative(acc) && i + 1 < s.len() && (is_digit(s[i + 1]) || s[i + 1]
                == '.') {
                assert(s.skip(d)[i + 1 - d] == s[i + 1]);
                lemma_scan_shift(s, d, i + 1, 0, 1, false, false, true);
                let scanned = spec_scan_number(s, i + 1, 0, 1, false, false, true);
                match scanned.1 {
                    Err(_) => {},
                    Ok(r) => {
                        if !(scanned.0 <= i || scanned.0 > s.len()) {
                            lemma_tokenize_shift(s, d, scanned.0, acc.push(Token::Number(r)));
                        }
                    },
                }
            } else {
                lemma_tokenize_shift(s, d, i + 1, acc.push(Token::Minus));
            }
        } else if is_digit(c) || c == '.' {
            lemma_scan_shift(s, d, i, 0, 1, false, false, false);
            let scanned = spec_scan_number(s, i, 0, 1, false, false, false);
            match scanned.1 {
                Err(_) => {},
                Ok(r) => {
                    if !(scanned.0 <= i || scanned.0 > s.len()) {
                        lemma_tokenize_shift(s, d, scanned.0, acc.push(Token::Number(r)));
                    }
                },
            }
        }
    }
}

/// The token a single operator or space character contributes.
spec fn spec_tokenize_at_next_acc(acc: Seq<Token>, c: char) -> Seq<Token> {
    if c == ' ' {
        acc
    } else if c == '+' {
        acc.push(Token::Plus)
    } else if c == '*' {
        acc.push(Token::Multiply)
    } else if c == '/' {
        acc.push(Token::Divide)
    } else if c == '(' {
        acc.push(Token::LeftParen)
    } else {
        acc.push(Token::RightParen)
    }
}

proof fn lemma_scan_pad(s1: Seq<char>, s2: Seq<char>, i: int, num: int, den: int, has_dot: bool, has_digit: bool, neg: bool)
    requires
        s1.len() <= s2.len(),
        forall|t: int| 0 <= t < s1.len() ==> s2[t] == s1[t],
        forall|t: int| s1.len() <= t < s2.len() ==> s2[t] == ' ',
        0 <= i <= s1.len(),
    ensures
        spec_scan_number(s2, i, num, den, has_dot, has_digit, neg) == spec_scan_number(
            s1,
            i,
            num,
            den,
            has_dot,
            has_digit,
            neg,
        ),
    decreases s1.len() - i,
{
    if i < s1.len() {
        if is_digit(s1[i]) {
            let num2 = num * 10 + digit_val(s1[i]);
            let den2 = if has_dot { den * 10 } else { den };
            if !(num2 > i64::MAX || den2 > i64::MAX) {
                lemma_scan_pad(s1, s2, i + 1, num2, den2, has_dot, true, neg);
            }
        } else if s1[i] == '.' && !has_dot {
            lemma_scan_pad(s1, s2, i + 1, num, den, true, has_digit, neg);
        }
    }
}

proof fn lemma_tokenize_pad(s1: Seq<char>, s2: Seq<char>, i: int, acc: Seq<Token>)
    requires
        s1.len() <= s2.len(),
        forall|t: int| 0 <= t < s1.len() ==> s2[t] == s1[t],
        forall|t: int| s1.len() <= t < s2.len() ==> s2[t] == ' ',
        0 <= i,
    ensures
        spec_tokenize_at(s2, i, acc) == spec_tokenize_at(s1, i, acc),
    decreases s2.len() - i,
{
    if i >= s2.len() {
    } else if i >= s1.len() {
        lemma_tokenize_pad(s1, s2, i + 1, acc);
    } else {
        let c = s1[i];
        if c == ' ' || c == '+' || c == '*' || c == '/' || c == '(' || c == ')' {
            lemma_tokenize_pad(s1, s2, i + 1, spec_tokenize_at_next_acc(acc, c));
        } else if c == '-' {
            let neg1 = last_allows_negative(acc) && i + 1 < s1.len() && (is_digit(s1[i + 1])
                || s1[i + 1] == '.');
            let neg2 = last_allows_negative(acc) && i + 1 < s2.len() && (is_digit(s2[i + 1])
                || s2[i + 1] == '.');
            assert(neg1 == neg2);
            if neg1 {
                lemma_scan_pad(s1, s2, i + 1, 0, 1, false, false, true);
                let scanned = spec_scan_number(s1, i + 1, 0, 1, false, false, true);
                lemma_scan_bounds(s1, i + 1, 0, 1, false, false, true);
                match scanned.1 {
                    Err(_) => {},
                    Ok(r) => {
                        if !(scanned.0 <= i || scanned.0 > s1.len()) {
                            lemma_tokenize_pad(s1, s2, scanned.0, acc.push(Token::Number(r)));
                        }
                    },
                }
            } else {
                lemma_tokenize_pad(s1, s2, i + 1, acc.push(Token::Minus));
            }
        } else if is_digit(c) || c == '.' {
            lemma_scan_pad(s1, s2, i, 0, 1, false, false, false);
            let scanned = spec_scan_number(s1, i, 0, 1, false, false, false);
            lemma_scan_bounds(s1, i, 0, 1, false, false, false);
            match scanned.1 {
                Err(_) => {},
                Ok(r) => {
                    if !(scanned.0 <= i || scanned.0 > s1.len()) {
                        lemma_tokenize_pad(s1, s2, scanned.0, acc.push(Token::Number(r)));
                    }
                },
            }
        }
    }
}

proof fn lemma_scan_bounds(s: Seq<char>, i: int, num: int, den: int, has_dot: bool, has_digit: bool, neg: bool)
    requires
        0 <= i <= s.len(),
    ensures
        i <= spec_scan_number(s, i, num, den, has_dot, has_digit, neg).0 <= s.len(),
    decreases s.len() - i,
{
    if i < s.len() {
        if is_digit(s[i]) {
            let num2 = num * 10 + digit_val(s[i]);
            let den2 = if has_dot { den * 10 } else { den };
            if !(num2 > i64::MAX || den2 > i64::MAX) {
                lemma_scan_bounds(s, i + 1, num2, den2, has_dot, true, neg);
            }
        } else if s[i] == '.' && !has_dot {
            lemma_scan_bounds(s, i + 1, num, den, true, has_digit, neg);
        }
    }
}

/// Evaluation is deterministic: the result of `evaluate` is a function of
/// the query text alone, so evaluating the same text twice yields the same
/// result.
pub proof fn lemma_evaluate_deterministic(
    s: Seq<char>,
    r1: Result<Rat, EvalError>,
    r2: Result<Rat, EvalError>,
)
    requires
        r1 == spec_evaluate(s),
        r2 == spec_evaluate(s),
    ensures
        r1 == r2,
{
}

proof fn lemma_skip_leading_spaces(s: Seq<char>, i: int, j: int, acc: Seq<Token>)
    requires
        0 <= i <= j <= s.len(),
        forall|t: int| i <= t < j ==> s[t] == ' ',
    ensures
        spec_tokenize_at(s, i, acc) == spec_tokenize_at(s, j, acc),
    decreases j - i,
{
    if i < j {
        lemma_skip_leading_spaces(s, i + 1, j, acc);
    }
}

/// For query text whose surrounding whitespace consists of plain spaces
/// (in particular, text with none at all), being a calculator query is
/// exactly: the text holds a digit or `.` and evaluates successfully.
/// The tokenizer skips spaces itself, so the whitespace removal of the
/// detection pass changes nothing there; other whitespace characters
/// would be removed by the detection pass yet rejected by `evaluate`.
pub proof fn lemma_is_math_characterization(s: Seq<char>)
    requires
        forall|t: int| 0 <= t < first_non_ws(s, 0) ==> s[t] == ' ',
        forall|t: int| end_non_ws(s, s.len() as int) <= t < s.len() ==> s[t] == ' ',
    ensures
        spec_is_math(s) == (has_digit_or_dot(s) && spec_evaluate(s) is Ok),
{
    lemma_first_non_ws_props(s, 0);
    let a = first_non_ws(s, 0);
    if a == s.len() {
        // every character is a space, so no digit or dot exists
        assert(!has_digit_or_dot(s)) by {
            if has_digit_or_dot(s) {
                let t = choose|t: int|
                    0 <= t < s.len() && (is_digit(#[trigger] s[t]) || s[t] == '.');
                assert(s[t] == ' ');
            }
        }
    } else {
        assert(!is_white(s[a]));
        lemma_end_non_ws_ge(s, s.len() as int, a);
        let b = end_non_ws(s, s.len() as int);
        let trimmed = s.subrange(a, b);
        assert(trim_spec(s) == trimmed);
        let s2 = s.skip(a);
        lemma_skip_leading_spaces(s, 0, a, Seq::empty());
        lemma_tokenize_shift(s, a, a, Seq::empty());
        assert forall|t: int| trimmed.len() <= t < s2.len() implies s2[t] == ' ' by {
            assert(s2[t] == s[a + t]);
        }
        assert forall|t: int| 0 <= t < trimmed.len() implies s2[t] == trimmed[t] by {
            assert(s2[t] == s[a + t]);
        }
        lemma_tokenize_pad(trimmed, s2, 0, Seq::empty());
        assert(spec_tokenize(s) == spec_tokenize(trimmed));
    }
}

} // verus!
