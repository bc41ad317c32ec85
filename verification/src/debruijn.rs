//! De Bruijn arithmetic on expressions: moving an expression into and out of
//! the scope of binders.

use vstd::prelude::*;
use crate::expr::Expr;

verus! {

/// Every variable of `e` is bound inside `e` or by one of the `depth`
/// nearest binders around it.
pub open spec fn closed_at(e: Expr, depth: nat) -> bool
    decreases e,
{
    match e {
        Expr::Var(i) => i < depth,
        Expr::Lam(n, body) => closed_at(*body, depth + n),
        Expr::App(items) => forall|k: int| 0 <= k < items.len() ==> closed_at(#[trigger] items[k], depth),
        _ => true,
    }
}

/// No variable of `e` refers to one of the `span` binders that enclose it
/// next after the `cut` nearest ones.
pub open spec fn free_from(e: Expr, cut: nat, span: nat) -> bool
    decreases e,
{
    match e {
        Expr::Var(i) => !(cut <= i < cut + span),
        Expr::Lam(n, body) => free_from(*body, cut + n, span),
        Expr::App(items) => forall|k: int|
            0 <= k < items.len() ==> free_from(#[trigger] items[k], cut, span),
        _ => true,
    }
}

/// `e` holds no parameter slot.
pub open spec fn no_params(e: Expr) -> bool
    decreases e,
{
    match e {
        Expr::Param(_) => false,
        Expr::Lam(_, body) => no_params(*body),
        Expr::App(items) => forall|k: int| 0 <= k < items.len() ==> no_params(#[trigger] items[k]),
        _ => true,
    }
}

/// Every parameter slot of `e` has an index below `arity`.
pub open spec fn params_below(e: Expr, arity: nat) -> bool
    decreases e,
{
    match e {
        Expr::Param(i) => i < arity,
        Expr::Lam(_, body) => params_below(*body, arity),
        Expr::App(items) => forall|k: int|
            0 <= k < items.len() ==> params_below(#[trigger] items[k], arity),
        _ => true,
    }
}

/// `e` holds the parameter slot `i`.
pub open spec fn uses_param(e: Expr, i: nat) -> bool
    decreases e,
{
    match e {
        Expr::Param(j) => i == j,
        Expr::Lam(_, body) => uses_param(*body, i),
        Expr::App(items) => exists|k: int| 0 <= k < items.len() && uses_param(#[trigger] items[k], i),
        _ => false,
    }
}

/// `e` holds the symbol `name`.
pub open spec fn uses_symbol(e: Expr, name: Seq<u8>) -> bool
    decreases e,
{
    match e {
        Expr::Sym(s) => s == name,
        Expr::Lam(_, body) => uses_symbol(*body, name),
        Expr::App(items) => exists|k: int|
            0 <= k < items.len() && uses_symbol(#[trigger] items[k], name),
        _ => false,
    }
}

/// `e` moved under `span` more binders: its variables that point past the
/// `cut` nearest binders point `span` further.
pub open spec fn lift(e: Expr, cut: nat, span: nat) -> Expr
    decreases e,
{
    match e {
        Expr::Var(i) => if i >= cut {
            Expr::Var(i + span)
        } else {
            e
        },
        Expr::Lam(n, body) => Expr::Lam(n, Box::new(lift(*body, cut + n, span))),
        Expr::App(items) => Expr::App(
            Seq::new(
                items.len(),
                |k: int|
                    if 0 <= k < items.len() {
                        lift(items[k], cut, span)
                    } else {
                        e
                    },
            ),
        ),
        _ => e,
    }
}

/// `e` moved out of `span` binders: its variables that point past them point
/// `span` nearer. Meant for expressions that are `free_from(e, cut, span)`.
pub open spec fn lower(e: Expr, cut: nat, span: nat) -> Expr
    decreases e,
{
    match e {
        Expr::Var(i) => if i >= cut + span {
            Expr::Var((i - span) as nat)
        } else {
            e
        },
        Expr::Lam(n, body) => Expr::Lam(n, Box::new(lower(*body, cut + n, span))),
        Expr::App(items) => Expr::App(
            Seq::new(
                items.len(),
                |k: int|
                    if 0 <= k < items.len() {
                        lower(items[k], cut, span)
                    } else {
                        e
                    },
            ),
        ),
        _ => e,
    }
}

/// Moving an expression out of binders it does not refer to, and back in,
/// gives the expression.
pub proof fn lemma_lift_lower(e: Expr, cut: nat, span: nat)
    requires
        free_from(e, cut, span),
    ensures
        lift(lower(e, cut, span), cut, span) == e,
    decreases e,
{
    match e {
        Expr::Lam(n, body) => {
            lemma_lift_lower(*body, cut + n, span);
        },
        Expr::App(items) => {
            assert forall|k: int| 0 <= k < items.len() implies lift(
                lower(items[k], cut, span),
                cut,
                span,
            ) == items[k] by {
                lemma_lift_lower(items[k], cut, span);
            }
            assert(lift(lower(e, cut, span), cut, span)->App_0 =~= items);
        },
        _ => {},
    }
}

/// An expression moved under binders does not refer to them, and moving it
/// out again gives the expression.
pub proof fn lemma_lower_lift(e: Expr, cut: nat, span: nat)
    ensures
        free_from(lift(e, cut, span), cut, span),
        lower(lift(e, cut, span), cut, span) == e,
    decreases e,
{
    match e {
        Expr::Lam(n, body) => {
            lemma_lower_lift(*body, cut + n, span);
        },
        Expr::App(items) => {
            assert forall|k: int| 0 <= k < items.len() implies free_from(
                lift(items[k], cut, span),
                cut,
                span,
            ) && lower(lift(items[k], cut, span), cut, span) == items[k] by {
                lemma_lower_lift(items[k], cut, span);
            }
            assert(lower(lift(e, cut, span), cut, span)->App_0 =~= items);
        },
        _ => {},
    }
}

} // verus!
