//! The textual syntax of expressions, as a grammar on bytes.
//!
//! ```text
//! expr   ::= symbol | '$' number | '#' number
//!          | '(' binder expr ')' | '(' expr expr+ ')'
//! binder ::= 'lam' | 'lam' number        (number >= 2)
//! ```
//!
//! Tokens are separated by blanks and parentheses. Numbers are decimal,
//! without leading zeros.

use vstd::prelude::*;
use crate::expr::{is_binder_word, is_delim, is_digit, is_space, Expr};

verus! {

/// What is wrong with a text that does not parse.
#[derive(Clone, Copy, Debug, PartialEq, Eq, Structural)]
pub enum ParseErrorKind {
    /// The text ends inside an expression.
    UnexpectedEnd,
    /// A closing parenthesis without an opening one.
    UnexpectedClose,
    /// Text follows the expression.
    TrailingInput,
    /// `$` is not followed by a number that fits.
    BadVariable,
    /// `#` is not followed by a number that fits.
    BadParam,
    /// A binder with a malformed parameter count, or not of the form
    /// `(lam body)`.
    BadBinder,
    /// A binder word where an expression is expected.
    MisplacedBinder,
    /// A parenthesised form with fewer than two expressions.
    TooFewItems,
}

/// A parse failure: what is wrong, and the byte offset where.
#[derive(Clone, Copy, Debug, PartialEq, Eq, Structural)]
pub struct ParseError {
    pub kind: ParseErrorKind,
    pub pos: usize,
}

/// The error of kind `kind` at offset `pos`.
pub open spec fn fail<T>(kind: ParseErrorKind, pos: int) -> Result<T, ParseError> {
    Err(ParseError { kind, pos: pos as usize })
}

/// The number that the digits `s` write, read from the left.
pub open spec fn decimal_value(s: Seq<u8>) -> nat
    decreases s.len(),
{
    if s.len() == 0 {
        0
    } else {
        decimal_value(s.drop_last()) * 10 + (s.last() - 48) as nat
    }
}

/// The decimal digits of `n`, without leading zeros.
pub open spec fn decimal(n: nat) -> Seq<u8>
    decreases n,
{
    if n < 10 {
        seq![(48 + n) as u8]
    } else {
        decimal(n / 10).push((48 + n % 10) as u8)
    }
}

/// Canonical decimal numerals.
pub open spec fn is_decimal(s: Seq<u8>) -> bool {
    &&& s.len() > 0
    &&& forall|i: int| 0 <= i < s.len() ==> is_digit(#[trigger] s[i])
    &&& (s[0] == 48 ==> s.len() == 1)
}

/// The number that `s` writes, if it is a canonical numeral for a number
/// that fits a machine word.
pub open spec fn number_of(s: Seq<u8>) -> Option<nat> {
    if is_decimal(s) && decimal_value(s) <= usize::MAX {
        Some(decimal_value(s))
    } else {
        None
    }
}

/// The parameter count that a binder word announces.
pub open spec fn binder_params(word: Seq<u8>) -> Option<nat> {
    if word.len() == 3 {
        Some(1)
    } else {
        match number_of(word.subrange(3, word.len() as int)) {
            Some(n) => if n >= 2 {
                Some(n)
            } else {
                None
            },
            None => None,
        }
    }
}

/// The binder word for `n` parameters.
pub open spec fn binder(n: nat) -> Seq<u8> {
    if n == 1 {
        seq![108u8, 97u8, 109u8]
    } else {
        seq![108u8, 97u8, 109u8] + decimal(n)
    }
}

/// The text of an expression.
pub open spec fn print(e: Expr) -> Seq<u8>
    decreases e,
{
    match e {
        Expr::Sym(name) => name,
        Expr::Var(i) => seq![36u8] + decimal(i),
        Expr::Param(i) => seq![35u8] + decimal(i),
        Expr::Lam(n, body) => seq![40u8] + binder(n) + seq![32u8] + print(*body) + seq![41u8],
        Expr::App(items) => seq![40u8] + print_items(items, items.len()) + seq![41u8],
    }
}

/// The texts of the first `n` expressions of `items`, separated by single
/// spaces.
pub open spec fn print_items(items: Seq<Expr>, n: nat) -> Seq<u8>
    decreases items, n,
{
    if n == 0 || n > items.len() {
        Seq::empty()
    } else if n == 1 {
        print(items[0])
    } else {
        print_items(items, (n - 1) as nat) + seq![32u8] + print(items[n - 1])
    }
}

/// The first offset at or after `pos` that holds no blank.
pub open spec fn skip_blanks(t: Seq<u8>, pos: int) -> int
    decreases t.len() - pos,
{
    if 0 <= pos < t.len() && is_space(t[pos]) {
        skip_blanks(t, pos + 1)
    } else {
        pos
    }
}

/// The end of the token that starts at `pos`.
pub open spec fn token_end(t: Seq<u8>, pos: int) -> int
    decreases t.len() - pos,
{
    if 0 <= pos < t.len() && !is_delim(t[pos]) {
        token_end(t, pos + 1)
    } else {
        pos
    }
}

/// Parses the atom whose first byte is at `p`.
pub open spec fn parse_atom(t: Seq<u8>, p: int) -> Result<(Expr, int), ParseError> {
    let e = token_end(t, p);
    let tok = t.subrange(p, e);
    if t[p] == 36 {
        match number_of(tok.subrange(1, tok.len() as int)) {
            Some(n) => Ok((Expr::Var(n), e)),
            None => fail(ParseErrorKind::BadVariable, p),
        }
    } else if t[p] == 35 {
        match number_of(tok.subrange(1, tok.len() as int)) {
            Some(n) => Ok((Expr::Param(n), e)),
            None => fail(ParseErrorKind::BadParam, p),
        }
    } else if is_binder_word(tok) {
        fail(ParseErrorKind::MisplacedBinder, p)
    } else {
        Ok((Expr::Sym(tok), e))
    }
}

/// Parses one expression at or after `pos`; returns it with the offset
/// behind it.
pub open spec fn parse_expr(t: Seq<u8>, pos: int) -> Result<(Expr, int), ParseError>
    decreases t.len() - pos, 0int,
{
    let p = skip_blanks(t, pos);
    if p < pos || p < 0 || p >= t.len() {
        fail(ParseErrorKind::UnexpectedEnd, p)
    } else if t[p] == 41 {
        fail(ParseErrorKind::UnexpectedClose, p)
    } else if t[p] == 40 {
        parse_form(t, p + 1)
    } else {
        parse_atom(t, p)
    }
}

/// Parses what follows an opening parenthesis, up to and including the
/// parenthesis that closes it.
pub open spec fn parse_form(t: Seq<u8>, q: int) -> Result<(Expr, int), ParseError>
    decreases t.len() - q, 2int,
{
    let h = skip_blanks(t, q);
    let e = token_end(t, h);
    let word = t.subrange(h, e);
    if q <= h < e <= t.len() && is_binder_word(word) {
        match binder_params(word) {
            None => fail(ParseErrorKind::BadBinder, h),
            Some(n) => match parse_expr(t, e) {
                Err(x) => Err(x),
                Ok((body, r)) => {
                    let c = skip_blanks(t, r);
                    if c < 0 || c >= t.len() {
                        fail(ParseErrorKind::UnexpectedEnd, c)
                    } else if t[c] == 41 {
                        Ok((Expr::Lam(n, Box::new(body)), c + 1))
                    } else {
                        fail(ParseErrorKind::BadBinder, c)
                    }
                },
            },
        }
    } else {
        match parse_items(t, q, Seq::empty()) {
            Err(x) => Err(x),
            Ok((items, r)) => if items.len() >= 2 {
                Ok((Expr::App(items), r))
            } else {
                fail(ParseErrorKind::TooFewItems, q - 1)
            },
        }
    }
}

/// Parses expressions up to the closing parenthesis and appends them to
/// `acc`.
pub open spec fn parse_items(t: Seq<u8>, q: int, acc: Seq<Expr>) -> Result<
    (Seq<Expr>, int),
    ParseError,
>
    decreases t.len() - q, 1int,
{
    let p = skip_blanks(t, q);
    if p < q || p < 0 || p >= t.len() {
        fail(ParseErrorKind::UnexpectedEnd, p)
    } else if t[p] == 41 {
        Ok((acc, p + 1))
    } else {
        match parse_expr(t, p) {
            Err(x) => Err(x),
            Ok((e, r)) => if r <= p || r > t.len() {
                fail(ParseErrorKind::UnexpectedEnd, p)
            } else {
                parse_items(t, r, acc.push(e))
            },
        }
    }
}

/// Parses a whole text as one expression.
pub open spec fn parse(t: Seq<u8>) -> Result<Expr, ParseError> {
    match parse_expr(t, 0) {
        Err(x) => Err(x),
        Ok((e, r)) => {
            let c = skip_blanks(t, r);
            if c < 0 || c >= t.len() {
                Ok(e)
            } else if t[c] == 41 {
                fail(ParseErrorKind::UnexpectedClose, c)
            } else {
                fail(ParseErrorKind::TrailingInput, c)
            }
        },
    }
}

} // verus!
