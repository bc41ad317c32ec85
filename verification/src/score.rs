//! The score of a candidate, occurrence by occurrence: what each call saves
//! against what it replaces, weighted by its program, less the cost of the
//! body.

use vstd::prelude::*;
use crate::corpus::{total_size, weighted, UNIT};
use crate::expr::{size, sizes, Expr};
use crate::invention::{call, rewrite, rewrite_children, Abstraction};
use crate::pattern::match_pattern;
use crate::search::{keeps_sizes, named, pays, rank, rewrite_all, uses, Candidate};

verus! {

/// What rewriting `t` saves in size: over the places where it puts a call,
/// the size of what the call replaces less the size of the call.
pub open spec fn saving(inv: Abstraction, t: Expr) -> int
    decreases t, 1nat,
{
    let below = match t {
        Expr::Lam(_, body) => saving(inv, *body),
        Expr::App(items) => saving_in(inv, items, items.len()),
        _ => 0,
    };
    let inner = rewrite_children(inv, t);
    match match_pattern(inv.body, inv.arity, inner) {
        Some(args) => below + size(inner) - size(call(inv.name, args)),
        None => below,
    }
}

/// What rewriting saves in the first `n` expressions of `items`.
pub open spec fn saving_in(inv: Abstraction, items: Seq<Expr>, n: nat) -> int
    decreases items, n,
{
    if n == 0 || n > items.len() {
        0
    } else {
        saving_in(inv, items, (n - 1) as nat) + saving(inv, items[n - 1])
    }
}

/// What rewriting saves in the first `n` programs, weighted.
pub open spec fn weighted_saving(
    weights: Seq<u32>,
    inv: Abstraction,
    programs: Seq<Expr>,
    n: nat,
) -> int
    decreases n,
{
    if n == 0 || n > programs.len() || n > weights.len() {
        0
    } else {
        weighted_saving(weights, inv, programs, (n - 1) as nat) + weights[n - 1] * saving(
            inv,
            programs[n - 1],
        )
    }
}

/// The score of the candidate `c`, called `name`: the weighted saving over
/// all occurrences, less the size of the body at weight 1.0.
pub open spec fn score(name: Seq<u8>, weights: Seq<u32>, programs: Seq<Expr>, c: Candidate) -> int {
    weighted_saving(weights, named(name, c), programs, programs.len()) - UNIT * size(c.body)
}

/// The size of an expression is the size of what it is rewritten to plus
/// what rewriting saved.
pub proof fn lemma_saving(inv: Abstraction, t: Expr)
    ensures
        size(t) == size(rewrite(inv, t)) + saving(inv, t),
    decreases t, 1nat,
{
    let inner = rewrite_children(inv, t);
    match t {
        Expr::Lam(_, body) => {
            lemma_saving(inv, *body);
        },
        Expr::App(items) => {
            lemma_saving_in(inv, items, inner->App_0, items.len());
        },
        _ => {},
    }
}

/// The same, for the first `n` expressions of `items`, rewritten to `out`.
pub proof fn lemma_saving_in(inv: Abstraction, items: Seq<Expr>, out: Seq<Expr>, n: nat)
    requires
        n <= items.len(),
        out.len() == items.len(),
        forall|k: int| 0 <= k < items.len() ==> out[k] == rewrite(inv, #[trigger] items[k]),
    ensures
        sizes(items, n) == sizes(out, n) + saving_in(inv, items, n),
    decreases items, n,
{
    if n > 0 {
        lemma_saving_in(inv, items, out, (n - 1) as nat);
        lemma_saving(inv, items[n - 1]);
        assert(out[n - 1] == rewrite(inv, items[n - 1]));
    }
}

/// The weighted size of programs is the weighted size of the rewritten
/// programs plus the weighted saving.
pub proof fn lemma_weighted_saving(
    weights: Seq<u32>,
    inv: Abstraction,
    programs: Seq<Expr>,
    n: nat,
)
    requires
        n <= programs.len(),
        n <= weights.len(),
    ensures
        weighted(weights, programs, n) == weighted(weights, rewrite_all(inv, programs), n)
            + weighted_saving(weights, inv, programs, n),
    decreases n,
{
    if n > 0 {
        lemma_weighted_saving(weights, inv, programs, (n - 1) as nat);
        lemma_saving(inv, programs[n - 1]);
        let w = weights[n - 1] as int;
        let a = size(programs[n - 1]) as int;
        let b = size(rewrite(inv, programs[n - 1])) as int;
        let s = saving(inv, programs[n - 1]);
        assert(w * a == w * b + w * s) by (nonlinear_arith)
            requires
                a == b + s,
        ;
    }
}

/// Only a positive score commits: a candidate pays exactly when rewriting
/// keeps the programs within the size the engine accounts for, puts two
/// calls or more, and the weighted saving over all occurrences is more
/// than the cost of the body.
pub proof fn lemma_pays_is_positive_score(
    name: Seq<u8>,
    weights: Seq<u32>,
    programs: Seq<Expr>,
    c: Candidate,
)
    requires
        weights.len() == programs.len(),
    ensures
        score(name, weights, programs, c) == total_size(weights, programs) - rank(
            name,
            weights,
            programs,
            c,
        ).burden,
        pays(name, weights, programs, c) <==> keeps_sizes(named(name, c), programs) && uses(
            named(name, c),
            programs,
            programs.len(),
        ) >= 2 && score(name, weights, programs, c) > 0,
{
    lemma_weighted_saving(weights, named(name, c), programs, programs.len());
}

} // verus!
