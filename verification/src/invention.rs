//! Inventions: named, parameterised expressions that stand for what they
//! abstract, and the rewriting of expressions to call them.

use vstd::prelude::*;
use crate::expr::Expr;
use crate::pattern::{instantiate, lemma_match_exact, match_pattern};

verus! {

/// The mathematical content of an invention.
pub struct Abstraction {
    /// The symbol by which the invention is called.
    pub name: Seq<u8>,
    /// The number of its parameters.
    pub arity: nat,
    /// Its body, with the parameter slots `#0` to `#(arity - 1)`.
    pub body: Expr,
}

/// A call of the invention `name` with the arguments `args`: the bare name
/// if there are none.
pub open spec fn call(name: Seq<u8>, args: Seq<Expr>) -> Expr {
    if args.len() == 0 {
        Expr::Sym(name)
    } else {
        Expr::App(seq![Expr::Sym(name)] + args)
    }
}

/// `t` with its children rewritten.
pub open spec fn rewrite_children(inv: Abstraction, t: Expr) -> Expr
    decreases t, 0nat,
{
    match t {
        Expr::Lam(n, body) => Expr::Lam(n, Box::new(rewrite(inv, *body))),
        Expr::App(items) => Expr::App(
            Seq::new(
                items.len(),
                |k: int|
                    if 0 <= k < items.len() {
                        rewrite(inv, items[k])
                    } else {
                        t
                    },
            ),
        ),
        _ => t,
    }
}

/// `t` rewritten to call the invention wherever its body matches, from the
/// leaves up: first the children, then the expression itself.
pub open spec fn rewrite(inv: Abstraction, t: Expr) -> Expr
    decreases t, 1nat,
{
    let inner = rewrite_children(inv, t);
    match match_pattern(inv.body, inv.arity, inner) {
        Some(args) => call(inv.name, args),
        None => inner,
    }
}

/// The number of places where `rewrite` puts a call.
pub open spec fn occurrences(inv: Abstraction, t: Expr) -> nat
    decreases t, 1nat,
{
    let below = match t {
        Expr::Lam(_, body) => occurrences(inv, *body),
        Expr::App(items) => occurrences_in(inv, items, items.len()),
        _ => 0,
    };
    if match_pattern(inv.body, inv.arity, rewrite_children(inv, t)) is Some {
        below + 1
    } else {
        below
    }
}

/// The number of places where `rewrite` puts a call in the first `n`
/// expressions of `items`.
pub open spec fn occurrences_in(inv: Abstraction, items: Seq<Expr>, n: nat) -> nat
    decreases items, n,
{
    if n == 0 || n > items.len() {
        0
    } else {
        occurrences_in(inv, items, (n - 1) as nat) + occurrences(inv, items[n - 1])
    }
}

/// What a call of `inv` with the arguments `args` stands for: the body with
/// the arguments in its parameter slots.
pub open spec fn unfold(inv: Abstraction, args: Seq<Expr>) -> Expr {
    instantiate(inv.body, args, 0)
}

/// Rewrite exactness: where rewriting puts a call, unfolding the call gives
/// back the expression that the call replaced.
pub proof fn lemma_rewrite_exact(inv: Abstraction, t: Expr)
    requires
        match_pattern(inv.body, inv.arity, rewrite_children(inv, t)) is Some,
    ensures
        ({
            let args = match_pattern(inv.body, inv.arity, rewrite_children(inv, t))->Some_0;
            &&& rewrite(inv, t) == call(inv.name, args)
            &&& unfold(inv, args) == rewrite_children(inv, t)
        }),
{
    lemma_match_exact(inv.body, inv.arity, rewrite_children(inv, t));
}

/// An occurrence of an invention: what a call replaced, and the arguments
/// of the call.
pub struct Site {
    pub replaced: Expr,
    pub args: Seq<Expr>,
}

/// The occurrences that rewriting `t` replaces by calls, in the order in
/// which it does: from the leaves up and from left to right.
pub open spec fn sites(inv: Abstraction, t: Expr) -> Seq<Site>
    decreases t, 1nat,
{
    let below = match t {
        Expr::Lam(_, body) => sites(inv, *body),
        Expr::App(items) => sites_in(inv, items, items.len()),
        _ => Seq::empty(),
    };
    let inner = rewrite_children(inv, t);
    match match_pattern(inv.body, inv.arity, inner) {
        Some(args) => below.push(Site { replaced: inner, args }),
        None => below,
    }
}

/// The occurrences that rewriting replaces in the first `n` expressions of
/// `items`.
pub open spec fn sites_in(inv: Abstraction, items: Seq<Expr>, n: nat) -> Seq<Site>
    decreases items, n,
{
    if n == 0 || n > items.len() {
        Seq::empty()
    } else {
        sites_in(inv, items, (n - 1) as nat) + sites(inv, items[n - 1])
    }
}

/// Rewriting puts one call for each occurrence, and unfolding the call of
/// an occurrence gives back what the call replaced.
pub proof fn lemma_sites_exact(inv: Abstraction, t: Expr)
    ensures
        sites(inv, t).len() == occurrences(inv, t),
        forall|k: int|
            0 <= k < sites(inv, t).len() ==> unfold(inv, (#[trigger] sites(inv, t)[k]).args)
                == sites(inv, t)[k].replaced,
    decreases t, 1nat,
{
    let inner = rewrite_children(inv, t);
    match t {
        Expr::Lam(_, body) => {
            lemma_sites_exact(inv, *body);
        },
        Expr::App(items) => {
            lemma_sites_in_exact(inv, items, items.len());
        },
        _ => {},
    }
    if match_pattern(inv.body, inv.arity, inner) is Some {
        lemma_match_exact(inv.body, inv.arity, inner);
    }
}

/// The same, for the first `n` expressions of `items`.
pub proof fn lemma_sites_in_exact(inv: Abstraction, items: Seq<Expr>, n: nat)
    requires
        n <= items.len(),
    ensures
        sites_in(inv, items, n).len() == occurrences_in(inv, items, n),
        forall|k: int|
            0 <= k < sites_in(inv, items, n).len() ==> unfold(
                inv,
                (#[trigger] sites_in(inv, items, n)[k]).args,
            ) == sites_in(inv, items, n)[k].replaced,
    decreases items, n,
{
    if n > 0 {
        lemma_sites_in_exact(inv, items, (n - 1) as nat);
        lemma_sites_exact(inv, items[n - 1]);
    }
}

} // verus!
