//! The mathematical model of expressions: untyped symbolic trees with
//! de Bruijn binders and parameter slots.

use vstd::prelude::*;

verus! {

/// An untyped symbolic expression.
pub enum Expr {
    /// A symbolic leaf, named by its bytes.
    Sym(Seq<u8>),
    /// A reference to an enclosing binder, by de Bruijn index (written `$i`).
    Var(nat),
    /// A parameter slot of an abstraction body (written `#i`).
    Param(nat),
    /// A binder that introduces `params` variables over a body.
    Lam(nat, Box<Expr>),
    /// An application: the function expression followed by its arguments.
    App(Seq<Expr>),
}

/// Blank bytes: space, tab, line feed, carriage return.
pub open spec fn is_space(b: u8) -> bool {
    b == 32 || b == 9 || b == 10 || b == 13
}

/// Bytes that end a token: blanks and the two parentheses.
pub open spec fn is_delim(b: u8) -> bool {
    is_space(b) || b == 40 || b == 41
}

/// Decimal digits.
pub open spec fn is_digit(b: u8) -> bool {
    48 <= b <= 57
}

/// The reserved words that open a binder: `lam`, optionally followed by digits.
pub open spec fn is_binder_word(s: Seq<u8>) -> bool {
    &&& s.len() >= 3
    &&& s[0] == 108
    &&& s[1] == 97
    &&& s[2] == 109
    &&& forall|i: int| 3 <= i < s.len() ==> is_digit(#[trigger] s[i])
}

/// The byte strings that name a symbolic leaf: non-empty tokens that are not
/// variables (`$..`), parameters (`#..`) or binder words.
pub open spec fn valid_symbol(s: Seq<u8>) -> bool {
    &&& s.len() > 0
    &&& forall|i: int| 0 <= i < s.len() ==> !is_delim(#[trigger] s[i])
    &&& s[0] != 36
    &&& s[0] != 35
    &&& !is_binder_word(s)
}

/// Well-formed expressions: the ones an arena can hold and the textual
/// syntax can write down.
pub open spec fn wf(e: Expr) -> bool
    decreases e,
{
    match e {
        Expr::Sym(s) => valid_symbol(s),
        Expr::Var(i) => i <= usize::MAX,
        Expr::Param(i) => i <= usize::MAX,
        Expr::Lam(n, body) => 1 <= n <= usize::MAX && wf(*body),
        Expr::App(items) => items.len() >= 2 && forall|k: int|
            0 <= k < items.len() ==> wf(#[trigger] items[k]),
    }
}

/// Number of nodes of an expression.
pub open spec fn size(e: Expr) -> nat
    decreases e,
{
    match e {
        Expr::Lam(_, body) => 1 + size(*body),
        Expr::App(items) => 1 + sizes(items, items.len()),
        _ => 1,
    }
}

/// Sum of the sizes of the first `n` expressions of `items`.
pub open spec fn sizes(items: Seq<Expr>, n: nat) -> nat
    decreases items, n,
{
    if n == 0 || n > items.len() {
        0
    } else {
        sizes(items, (n - 1) as nat) + size(items[n - 1])
    }
}

/// The partial sums of `sizes` depend only on the items summed.
pub proof fn lemma_sizes_agree(a: Seq<Expr>, b: Seq<Expr>, n: nat)
    requires
        n <= a.len(),
        n <= b.len(),
        forall|k: int| 0 <= k < n ==> size(a[k]) == size(b[k]),
    ensures
        sizes(a, n) == sizes(b, n),
    decreases n,
{
    if n > 0 {
        lemma_sizes_agree(a, b, (n - 1) as nat);
    }
}

} // verus!
