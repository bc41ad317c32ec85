//! Rewriting keeps programs closed: the arguments of a call refer only to
//! binders around the call, and no parameter slot enters a program.

use vstd::prelude::*;
use crate::debruijn::{closed_at, free_from, lower, no_params};
use crate::expr::Expr;
use crate::invention::{call, rewrite, rewrite_children, Abstraction};
use crate::pattern::{match_into, match_items, match_pattern, unbound};

verus! {

/// `e` has no parameter slot and is closed under `depth` binders.
pub open spec fn plain(e: Expr, depth: nat) -> bool {
    closed_at(e, depth) && no_params(e)
}

/// Every expression that `binds` holds is plain under `depth` binders.
pub open spec fn binds_plain(binds: Seq<Option<Expr>>, depth: nat) -> bool {
    forall|i: int|
        0 <= i < binds.len() && (#[trigger] binds[i]) is Some ==> plain(binds[i]->Some_0, depth)
}

/// An expression moved out of binders it does not refer to is closed under
/// the binders that remain.
pub proof fn lemma_lower_plain(e: Expr, cut: nat, span: nat, depth: nat)
    requires
        closed_at(e, cut + span + depth),
        no_params(e),
        free_from(e, cut, span),
    ensures
        plain(lower(e, cut, span), cut + depth),
    decreases e,
{
    match e {
        Expr::Lam(n, body) => {
            lemma_lower_plain(*body, cut + n, span, depth);
        },
        Expr::App(items) => {
            let out = lower(e, cut, span)->App_0;
            assert forall|k: int| 0 <= k < out.len() implies plain(#[trigger] out[k], cut + depth) by {
                lemma_lower_plain(items[k], cut, span, depth);
            }
        },
        _ => {},
    }
}

/// Matching a plain expression binds plain arguments.
pub proof fn lemma_match_into_plain(
    p: Expr,
    t: Expr,
    outer: nat,
    depth: nat,
    binds: Seq<Option<Expr>>,
)
    requires
        plain(t, outer + depth),
        binds_plain(binds, outer),
        match_into(p, t, depth, binds) is Some,
    ensures
        binds_plain(match_into(p, t, depth, binds)->Some_0, outer),
    decreases p, 0nat,
{
    match p {
        Expr::Param(i) => {
            lemma_lower_plain(t, 0, depth, outer);
        },
        Expr::Lam(n, body) => {
            lemma_match_into_plain(*body, *t->Lam_1, outer, depth + n, binds);
        },
        Expr::App(items) => {
            lemma_match_items_plain(items, t->App_0, outer, depth, binds, 0);
        },
        _ => {},
    }
}

/// The same, for the items of an application from position `k` on.
pub proof fn lemma_match_items_plain(
    ps: Seq<Expr>,
    ts: Seq<Expr>,
    outer: nat,
    depth: nat,
    binds: Seq<Option<Expr>>,
    k: nat,
)
    requires
        ps.len() == ts.len(),
        forall|j: int| 0 <= j < ts.len() ==> plain(#[trigger] ts[j], outer + depth),
        binds_plain(binds, outer),
        match_items(ps, ts, depth, binds, k) is Some,
    ensures
        binds_plain(match_items(ps, ts, depth, binds, k)->Some_0, outer),
    decreases ps, ps.len() - k,
{
    if k < ps.len() {
        lemma_match_into_plain(ps[k as int], ts[k as int], outer, depth, binds);
        let next = match_into(ps[k as int], ts[k as int], depth, binds)->Some_0;
        lemma_match_items_plain(ps, ts, outer, depth, next, k + 1);
    }
}

/// Rewriting a plain expression gives a plain expression.
pub proof fn lemma_rewrite_plain(inv: Abstraction, t: Expr, depth: nat)
    requires
        plain(t, depth),
    ensures
        plain(rewrite(inv, t), depth),
    decreases t, 1nat,
{
    let inner = rewrite_children(inv, t);
    lemma_rewrite_children_plain(inv, t, depth);
    match match_pattern(inv.body, inv.arity, inner) {
        Some(args) => {
            let binds = match_into(inv.body, inner, 0, unbound(inv.arity))->Some_0;
            lemma_match_into_plain(inv.body, inner, depth, 0, unbound(inv.arity));
            let site = call(inv.name, args);
            if args.len() > 0 {
                let items = site->App_0;
                assert forall|k: int| 0 <= k < items.len() implies plain(#[trigger] items[k], depth) by {
                    if k > 0 {
                        assert(items[k] == args[k - 1]);
                        assert(binds[k - 1] is Some);
                    }
                }
            }
        },
        None => {},
    }
}

/// Rewriting the children of a plain expression gives a plain expression.
pub proof fn lemma_rewrite_children_plain(inv: Abstraction, t: Expr, depth: nat)
    requires
        plain(t, depth),
    ensures
        plain(rewrite_children(inv, t), depth),
    decreases t, 0nat,
{
    match t {
        Expr::Lam(n, body) => {
            lemma_rewrite_plain(inv, *body, depth + n);
        },
        Expr::App(items) => {
            let out = rewrite_children(inv, t)->App_0;
            assert forall|k: int| 0 <= k < out.len() implies plain(#[trigger] out[k], depth) by {
                lemma_rewrite_plain(inv, items[k], depth);
            }
        },
        _ => {},
    }
}

} // verus!
