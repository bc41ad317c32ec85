//! Matching stored expressions against stored patterns.

use vstd::prelude::*;
use crate::debruijn::lower;
use crate::expr::Expr;
use crate::pattern::{bound_args, match_into, match_items, match_pattern, unbound};
use crate::scope::{deeper, level};
use crate::store::{expr_at, exprs_at, lemma_canonical, shape_ok, ExprStore, Node, Shape};

verus! {

/// What a list of optional slots binds, as expressions.
pub open spec fn bind_view(store: &ExprStore, binds: Seq<Option<usize>>) -> Seq<Option<Expr>> {
    Seq::new(
        binds.len(),
        |i: int|
            match binds[i] {
                Some(x) => Some(store.expr(x as int)),
                None => None,
            },
    )
}

/// Every bound slot is a slot of the store.
pub open spec fn binds_ok(store: &ExprStore, binds: Seq<Option<usize>>) -> bool {
    forall|i: int|
        0 <= i < binds.len() ==> ((#[trigger] binds[i]) matches Some(x) ==> x < store@.len())
}

/// Bindings mean the same in a store that extends the one they were made in.
pub proof fn lemma_bind_view_extends(new: &ExprStore, old: &ExprStore, binds: Seq<Option<usize>>)
    requires
        new.extends(old),
        binds_ok(old, binds),
    ensures
        bind_view(new, binds) == bind_view(old, binds),
        binds_ok(new, binds),
{
    assert forall|i: int| 0 <= i < binds.len() implies bind_view(new, binds)[i] == bind_view(
        old,
        binds,
    )[i] by {
        match binds[i] {
            Some(x) => {
                new.lemma_extends_expr(old, x as int);
            },
            None => {},
        }
    }
    assert(bind_view(new, binds) =~= bind_view(old, binds));
}

/// Matches the expression at `t` against the pattern at `p`, both under
/// `depth` binders of the pattern, and records the bindings in `binds`.
pub(crate) fn match_under(
    store: &mut ExprStore,
    p: usize,
    t: usize,
    depth: Option<usize>,
    Ghost(d): Ghost<nat>,
    binds: &mut Vec<Option<usize>>,
) -> (ok: bool)
    requires
        old(store).wf(),
        p < old(store)@.len(),
        t < old(store)@.len(),
        level(depth, d),
        binds_ok(old(store), old(binds)@),
    ensures
        final(store).wf(),
        final(store).extends(old(store)),
        final(binds)@.len() == old(binds)@.len(),
        binds_ok(final(store), final(binds)@),
        ok == match_into(
            old(store).expr(p as int),
            old(store).expr(t as int),
            d,
            bind_view(old(store), old(binds)@),
        ) is Some,
        ok ==> bind_view(final(store), final(binds)@) == match_into(
            old(store).expr(p as int),
            old(store).expr(t as int),
            d,
            bind_view(old(store), old(binds)@),
        )->Some_0,
    decreases p,
{
    let ghost start = *store;
    let ghost b0 = binds@;
    let ghost pe = start.expr(p as int);
    let ghost te = start.expr(t as int);
    match store.get(p) {
        Node::Param(i) => {
            if i >= binds.len() {
                return false;
            }
            if !store.free_from_at(t, Some(0), depth, Ghost(0), Ghost(d)) {
                return false;
            }
            let arg = store.lower_at(t, Some(0), depth, Ghost(0), Ghost(d));
            proof {
                lemma_bind_view_extends(store, &start, b0);
            }
            match binds[i] {
                None => {
                    binds.set(i, Some(arg));
                    proof {
                        assert(bind_view(store, binds@) =~= bind_view(&start, b0).update(
                            i as int,
                            Some(lower(te, 0, d)),
                        ));
                    }
                    true
                },
                Some(seen) => {
                    proof {
                        assert(bind_view(&start, b0)[i as int] == Some(start.expr(seen as int)));
                        store.lemma_extends_expr(&start, seen as int);
                        if store.expr(seen as int) == store.expr(arg as int) {
                            lemma_canonical(store@, seen as int, arg as int);
                        }
                    }
                    seen == arg
                },
            }
        },
        Node::Lam { params, body } => {
            match store.get(t) {
                Node::Lam { params: m, body: inner } => {
                    if m == params {
                        assert(shape_ok(start@[p as int], p as int));
                        assert(shape_ok(start@[t as int], t as int));
                        let below = deeper(depth, params);
                        match_under(store, body, inner, below, Ghost(d + params as nat), binds)
                    } else {
                        false
                    }
                },
                _ => false,
            }
        },
        Node::App(items) => {
            match store.get(t) {
                Node::App(others) => {
                    let ghost ps = exprs_at(start@, items@, p as int);
                    let ghost ts = exprs_at(start@, others@, t as int);
                    assert(pe->App_0 == ps);
                    assert(te->App_0 == ts);
                    if others.len() != items.len() {
                        return false;
                    }
                    let mut k: usize = 0;
                    while k < items.len()
                        invariant
                            store.wf(),
                            store.extends(&start),
                            start == *old(store),
                            b0 == old(binds)@,
                            pe == start.expr(p as int),
                            te == start.expr(t as int),
                            match_into(pe, te, d, bind_view(&start, b0)) == match_items(
                                ps,
                                ts,
                                d,
                                bind_view(&start, b0),
                                0,
                            ),
                            start.wf(),
                            p < start@.len(),
                            t < start@.len(),
                            start@[p as int] == Shape::App(items@),
                            start@[t as int] == Shape::App(others@),
                            others@.len() == items@.len(),
                            ps == exprs_at(start@, items@, p as int),
                            ts == exprs_at(start@, others@, t as int),
                            level(depth, d),
                            binds@.len() == b0.len(),
                            binds_ok(store, binds@),
                            k <= items@.len(),
                            match_items(ps, ts, d, bind_view(&start, b0), 0) == match_items(
                                ps,
                                ts,
                                d,
                                bind_view(store, binds@),
                                k as nat,
                            ),
                        decreases items@.len() - k,
                    {
                        assert(shape_ok(start@[p as int], p as int));
                        assert(shape_ok(start@[t as int], t as int));
                        assert(items@[k as int] < p);
                        assert(others@[k as int] < t);
                        assert(ps[k as int] == expr_at(start@, items@[k as int] as int));
                        assert(ts[k as int] == expr_at(start@, others@[k as int] as int));
                        let ghost mid = *store;
                        proof {
                            mid.lemma_extends_expr(&start, items@[k as int] as int);
                            mid.lemma_extends_expr(&start, others@[k as int] as int);
                        }
                        let ok = match_under(store, items[k], others[k], depth, Ghost(d), binds);
                        proof {
                            store.lemma_extends_trans(&mid, &start);
                        }
                        if !ok {
                            return false;
                        }
                        k += 1;
                    }
                    true
                },
                _ => false,
            }
        },
        _ => {
            proof {
                if pe == te {
                    lemma_canonical(start@, p as int, t as int);
                }
            }
            p == t
        },
    }
}

impl ExprStore {
    /// The arguments with which the pattern at `pattern`, of `arity`
    /// parameters, matches the expression at `target`, if it does.
    pub fn match_at(&mut self, pattern: usize, arity: usize, target: usize) -> (r: Option<
        Vec<usize>,
    >)
        requires
            old(self).wf(),
            pattern < old(self)@.len(),
            target < old(self)@.len(),
        ensures
            final(self).wf(),
            final(self).extends(old(self)),
            match match_pattern(
                old(self).expr(pattern as int),
                arity as nat,
                old(self).expr(target as int),
            ) {
                Some(args) => r is Some && final(self).exprs(r->Some_0@) == args && forall|k: int|
                    0 <= k < r->Some_0@.len() ==> #[trigger] r->Some_0@[k] < final(self)@.len(),
                None => r is None,
            },
    {
        let mut binds: Vec<Option<usize>> = Vec::new();
        let mut i: usize = 0;
        while i < arity
            invariant
                i <= arity,
                binds@.len() == i,
                forall|j: int| 0 <= j < i ==> (#[trigger] binds@[j]) is None,
            decreases arity - i,
        {
            binds.push(None);
            i += 1;
        }
        proof {
            assert(bind_view(self, binds@) =~= unbound(arity as nat));
        }
        let ghost start = *self;
        if !match_under(self, pattern, target, Some(0), Ghost(0), &mut binds) {
            return None;
        }
        let ghost found = bind_view(self, binds@);
        let mut args: Vec<usize> = Vec::new();
        let mut j: usize = 0;
        while j < arity
            invariant
                j <= arity,
                self.wf(),
                start == *old(self),
                self.extends(&start),
                match_into(
                    start.expr(pattern as int),
                    start.expr(target as int),
                    0,
                    unbound(arity as nat),
                ) == Some(found),
                binds@.len() == arity,
                binds_ok(self, binds@),
                found == bind_view(self, binds@),
                args@.len() == j,
                forall|k: int| 0 <= k < j ==> binds@[k] == Some(#[trigger] args@[k]),
            decreases arity - j,
        {
            match binds[j] {
                Some(x) => {
                    args.push(x);
                },
                None => {
                    assert(found[j as int] is None);
                    return None;
                },
            }
            j += 1;
        }
        proof {
            assert forall|k: int| 0 <= k < found.len() implies (#[trigger] found[k]) is Some by {
                assert(binds@[k] == Some(args@[k]));
            }
            assert forall|k: int| 0 <= k < args@.len() implies #[trigger] args@[k] < self@.len() by {
                assert(binds@[k] == Some(args@[k]));
            }
            assert(self.exprs(args@) =~= bound_args(found)) by {
                assert forall|k: int| 0 <= k < args@.len() implies self.exprs(args@)[k]
                    == bound_args(found)[k] by {
                    assert(binds@[k] == Some(args@[k]));
                }
            }
        }
        Some(args)
    }
}

} // verus!
