//! Patterns: expressions with parameter slots, what they match, and what
//! they become when the slots are filled.

use vstd::prelude::*;
use crate::debruijn::{
    free_from, lemma_lift_lower, lemma_lower_lift, lift, lower, params_below, uses_param,
};
use crate::expr::Expr;

verus! {

/// The pattern `p`, standing under `depth` binders of its own, with each
/// parameter slot `#i` replaced by `args[i]`.
pub open spec fn instantiate(p: Expr, args: Seq<Expr>, depth: nat) -> Expr
    decreases p,
{
    match p {
        Expr::Param(i) => if i < args.len() {
            lift(args[i as int], 0, depth)
        } else {
            p
        },
        Expr::Lam(n, body) => Expr::Lam(n, Box::new(instantiate(*body, args, depth + n))),
        Expr::App(items) => Expr::App(
            Seq::new(
                items.len(),
                |k: int|
                    if 0 <= k < items.len() {
                        instantiate(items[k], args, depth)
                    } else {
                        p
                    },
            ),
        ),
        _ => p,
    }
}

/// Matches `t` against the pattern `p`, both under `depth` binders of the
/// pattern, and records in `binds` what each parameter slot stands for. A
/// slot takes only an expression that refers to none of the pattern's own
/// binders, moved out of them; a slot that occurs twice takes the same
/// expression both times.
pub open spec fn match_into(p: Expr, t: Expr, depth: nat, binds: Seq<Option<Expr>>) -> Option<
    Seq<Option<Expr>>,
>
    decreases p, 0nat,
{
    match p {
        Expr::Param(i) => if i < binds.len() && free_from(t, 0, depth) {
            let arg = lower(t, 0, depth);
            match binds[i as int] {
                None => Some(binds.update(i as int, Some(arg))),
                Some(seen) => if seen == arg {
                    Some(binds)
                } else {
                    None
                },
            }
        } else {
            None
        },
        Expr::Lam(n, body) => match t {
            Expr::Lam(m, inner) => if m == n {
                match_into(*body, *inner, depth + n, binds)
            } else {
                None
            },
            _ => None,
        },
        Expr::App(items) => match t {
            Expr::App(others) => if others.len() == items.len() {
                match_items(items, others, depth, binds, 0)
            } else {
                None
            },
            _ => None,
        },
        _ => if t == p {
            Some(binds)
        } else {
            None
        },
    }
}

/// Matches the items of two applications from position `k` on, one after
/// the other.
pub open spec fn match_items(
    ps: Seq<Expr>,
    ts: Seq<Expr>,
    depth: nat,
    binds: Seq<Option<Expr>>,
    k: nat,
) -> Option<Seq<Option<Expr>>>
    decreases ps, ps.len() - k,
{
    if k >= ps.len() {
        Some(binds)
    } else {
        match match_into(ps[k as int], ts[k as int], depth, binds) {
            None => None,
            Some(next) => match_items(ps, ts, depth, next, k + 1),
        }
    }
}

/// Every slot is bound.
pub open spec fn all_bound(binds: Seq<Option<Expr>>) -> bool {
    forall|i: int| 0 <= i < binds.len() ==> (#[trigger] binds[i]) is Some
}

/// The arguments that a full binding holds.
pub open spec fn bound_args(binds: Seq<Option<Expr>>) -> Seq<Expr> {
    Seq::new(binds.len(), |i: int| binds[i]->Some_0)
}

/// No slot is bound.
pub open spec fn unbound(arity: nat) -> Seq<Option<Expr>> {
    Seq::new(arity, |i: int| None::<Expr>)
}

/// The arguments with which the pattern `p` of `arity` parameters matches
/// `t`, if it does.
pub open spec fn match_pattern(p: Expr, arity: nat, t: Expr) -> Option<Seq<Expr>> {
    match match_into(p, t, 0, unbound(arity)) {
        Some(binds) => if all_bound(binds) {
            Some(bound_args(binds))
        } else {
            None
        },
        None => None,
    }
}

/// `args` agrees with every binding that `binds` holds.
pub open spec fn compatible(args: Seq<Expr>, binds: Seq<Option<Expr>>) -> bool {
    &&& args.len() == binds.len()
    &&& forall|i: int|
        0 <= i < binds.len() && (#[trigger] binds[i]) is Some ==> args[i] == binds[i]->Some_0
}

/// `later` holds every binding of `earlier`.
pub open spec fn keeps(later: Seq<Option<Expr>>, earlier: Seq<Option<Expr>>) -> bool {
    &&& later.len() == earlier.len()
    &&& forall|i: int|
        0 <= i < earlier.len() && (#[trigger] earlier[i]) is Some ==> later[i] == earlier[i]
}

/// A successful match only adds bindings, and filling the pattern with any
/// arguments that agree with them gives the matched expression back.
pub proof fn lemma_match_into_sound(
    p: Expr,
    t: Expr,
    depth: nat,
    binds: Seq<Option<Expr>>,
    args: Seq<Expr>,
)
    requires
        match_into(p, t, depth, binds) is Some,
        compatible(args, match_into(p, t, depth, binds)->Some_0),
    ensures
        keeps(match_into(p, t, depth, binds)->Some_0, binds),
        instantiate(p, args, depth) == t,
    decreases p, 0nat,
{
    let out = match_into(p, t, depth, binds)->Some_0;
    match p {
        Expr::Param(i) => {
            assert(out[i as int] is Some);
            lemma_lift_lower(t, 0, depth);
        },
        Expr::Lam(n, body) => {
            lemma_match_into_sound(*body, *t->Lam_1, depth + n, binds, args);
        },
        Expr::App(items) => {
            let others = t->App_0;
            lemma_match_items_sound(items, others, depth, binds, 0, args);
            assert(instantiate(p, args, depth)->App_0 =~= others);
        },
        _ => {},
    }
}

/// The same, for the items of an application from position `k` on.
pub proof fn lemma_match_items_sound(
    ps: Seq<Expr>,
    ts: Seq<Expr>,
    depth: nat,
    binds: Seq<Option<Expr>>,
    k: nat,
    args: Seq<Expr>,
)
    requires
        ps.len() == ts.len(),
        match_items(ps, ts, depth, binds, k) is Some,
        compatible(args, match_items(ps, ts, depth, binds, k)->Some_0),
    ensures
        keeps(match_items(ps, ts, depth, binds, k)->Some_0, binds),
        forall|j: int| k <= j < ps.len() ==> instantiate(#[trigger] ps[j], args, depth) == ts[j],
    decreases ps, ps.len() - k,
{
    if k < ps.len() {
        let next = match_into(ps[k as int], ts[k as int], depth, binds)->Some_0;
        let out = match_items(ps, ts, depth, next, k + 1)->Some_0;
        lemma_match_items_sound(ps, ts, depth, next, k + 1, args);
        assert(compatible(args, next)) by {
            assert forall|i: int| 0 <= i < next.len() && (#[trigger] next[i]) is Some implies args[i]
                == next[i]->Some_0 by {
                assert(out[i] == next[i]);
            }
        }
        lemma_match_into_sound(ps[k as int], ts[k as int], depth, binds, args);
        assert forall|i: int| 0 <= i < binds.len() && (#[trigger] binds[i]) is Some implies out[i]
            == binds[i] by {
            assert(next[i] == binds[i]);
        }
    }
}

/// Exactness of matching: filling a pattern with the arguments it matched
/// an expression with gives that expression.
pub proof fn lemma_match_exact(p: Expr, arity: nat, t: Expr)
    requires
        match_pattern(p, arity, t) is Some,
    ensures
        instantiate(p, match_pattern(p, arity, t)->Some_0, 0) == t,
{
    let binds = match_into(p, t, 0, unbound(arity))->Some_0;
    lemma_match_into_sound(p, t, 0, unbound(arity), bound_args(binds));
}

/// The bindings `binds` with the argument of every slot that `p` uses.
pub open spec fn taken(p: Expr, args: Seq<Expr>, binds: Seq<Option<Expr>>) -> Seq<Option<Expr>> {
    Seq::new(
        binds.len(),
        |i: int|
            if uses_param(p, i as nat) {
                Some(args[i])
            } else {
                binds[i]
            },
    )
}

/// One of the first `k` patterns uses the slot `i`.
pub open spec fn used_before(ps: Seq<Expr>, i: nat, k: nat) -> bool {
    exists|j: int| 0 <= j < k && j < ps.len() && uses_param(#[trigger] ps[j], i)
}

/// The bindings `binds` with the argument of every slot that one of the
/// first `k` patterns uses.
pub open spec fn taken_before(
    ps: Seq<Expr>,
    args: Seq<Expr>,
    binds: Seq<Option<Expr>>,
    k: nat,
) -> Seq<Option<Expr>> {
    Seq::new(
        binds.len(),
        |i: int|
            if used_before(ps, i as nat, k) {
                Some(args[i])
            } else {
                binds[i]
            },
    )
}

/// A pattern matches what it becomes when its slots are filled, and binds
/// the slots it uses to what they were filled with.
pub proof fn lemma_match_into_complete(
    p: Expr,
    args: Seq<Expr>,
    depth: nat,
    binds: Seq<Option<Expr>>,
)
    requires
        params_below(p, args.len()),
        compatible(args, binds),
    ensures
        match_into(p, instantiate(p, args, depth), depth, binds) == Some(taken(p, args, binds)),
    decreases p, 0nat,
{
    let t = instantiate(p, args, depth);
    let out = taken(p, args, binds);
    match p {
        Expr::Param(i) => {
            lemma_lower_lift(args[i as int], 0, depth);
            match binds[i as int] {
                None => {
                    assert(binds.update(i as int, Some(args[i as int])) =~= out);
                },
                Some(seen) => {
                    assert(binds =~= out);
                },
            }
        },
        Expr::Lam(n, body) => {
            lemma_match_into_complete(*body, args, depth + n, binds);
            assert(taken(*body, args, binds) =~= out);
        },
        Expr::App(items) => {
            let ts = t->App_0;
            assert(taken_before(items, args, binds, 0) =~= binds);
            lemma_match_items_complete(items, ts, args, depth, binds, 0);
            assert forall|i: int| 0 <= i < binds.len() implies taken_before(
                items,
                args,
                binds,
                items.len(),
            )[i] == out[i] by {
                if uses_param(p, i as nat) {
                    let j = choose|j: int|
                        0 <= j < items.len() && uses_param(#[trigger] items[j], i as nat);
                    assert(used_before(items, i as nat, items.len()));
                }
                if used_before(items, i as nat, items.len()) {
                    let j = choose|j: int|
                        0 <= j < items.len() && j < items.len() && uses_param(
                            #[trigger] items[j],
                            i as nat,
                        );
                    assert(uses_param(p, i as nat));
                }
            }
            assert(taken_before(items, args, binds, items.len()) =~= out);
        },
        _ => {
            assert(binds =~= out);
        },
    }
}

/// The same, for the items of an application from position `k` on.
pub proof fn lemma_match_items_complete(
    ps: Seq<Expr>,
    ts: Seq<Expr>,
    args: Seq<Expr>,
    depth: nat,
    binds: Seq<Option<Expr>>,
    k: nat,
)
    requires
        ts.len() == ps.len(),
        k <= ps.len(),
        forall|j: int| 0 <= j < ps.len() ==> params_below(#[trigger] ps[j], args.len()),
        forall|j: int| 0 <= j < ps.len() ==> ts[j] == instantiate(#[trigger] ps[j], args, depth),
        compatible(args, binds),
    ensures
        match_items(ps, ts, depth, taken_before(ps, args, binds, k), k) == Some(
            taken_before(ps, args, binds, ps.len()),
        ),
    decreases ps, ps.len() - k,
{
    let now = taken_before(ps, args, binds, k);
    if k < ps.len() {
        assert(compatible(args, now));
        lemma_match_into_complete(ps[k as int], args, depth, now);
        let next = taken(ps[k as int], args, now);
        assert forall|i: int| 0 <= i < binds.len() implies next[i] == taken_before(
            ps,
            args,
            binds,
            k + 1,
        )[i] by {
            if used_before(ps, i as nat, k) {
                let j = choose|j: int|
                    0 <= j < k && j < ps.len() && uses_param(#[trigger] ps[j], i as nat);
                assert(used_before(ps, i as nat, k + 1));
            }
            if uses_param(ps[k as int], i as nat) {
                assert(used_before(ps, i as nat, k + 1));
            }
            if used_before(ps, i as nat, k + 1) {
                let j = choose|j: int|
                    0 <= j < k + 1 && j < ps.len() && uses_param(#[trigger] ps[j], i as nat);
                if j < k {
                    assert(used_before(ps, i as nat, k));
                }
            }
        }
        assert(next =~= taken_before(ps, args, binds, k + 1));
        assert(ts[k as int] == instantiate(ps[k as int], args, depth));
        lemma_match_items_complete(ps, ts, args, depth, binds, k + 1);
    }
}

/// Completeness of matching: a pattern that uses each of its parameters
/// matches what it becomes when they are filled, with the arguments they
/// were filled with. With exactness, a pattern matches an expression with
/// some arguments exactly when filling it with them gives the expression.
pub proof fn lemma_match_complete(p: Expr, args: Seq<Expr>)
    requires
        params_below(p, args.len()),
        forall|i: nat| i < args.len() ==> uses_param(p, i),
    ensures
        match_pattern(p, args.len(), instantiate(p, args, 0)) == Some(args),
{
    let none = unbound(args.len());
    lemma_match_into_complete(p, args, 0, none);
    let found = taken(p, args, none);
    assert forall|i: int| 0 <= i < found.len() implies (#[trigger] found[i]) is Some by {
        assert(uses_param(p, i as nat));
    }
    assert(bound_args(found) =~= args) by {
        assert forall|i: int| 0 <= i < args.len() implies bound_args(found)[i] == args[i] by {
            assert(uses_param(p, i as nat));
        }
    }
}

} // verus!
