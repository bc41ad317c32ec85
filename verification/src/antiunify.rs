//! Anti-unification: the most specific pattern that two expressions share.
//! Where the two agree the pattern keeps their structure; where they differ
//! it has a parameter slot, the same slot for the same pair of differing
//! expressions.

use vstd::prelude::*;
use crate::debruijn::{closed_at, free_from, lemma_lift_lower, lower, params_below, uses_param};
use crate::expr::Expr;
use crate::pattern::{instantiate, lemma_match_complete, match_pattern};

verus! {

/// The position of the first entry of `table`, from `from` on, that equals
/// `pair`.
pub open spec fn position(table: Seq<(Expr, Expr)>, pair: (Expr, Expr), from: nat) -> Option<nat>
    decreases table.len() - from,
{
    if from >= table.len() {
        None
    } else if table[from as int] == pair {
        Some(from)
    } else {
        position(table, pair, from + 1)
    }
}

/// A parameter slot for the pair of differing expressions `a` and `b`, which
/// stand under `depth` binders of the pattern. There is none if either
/// refers to one of those binders.
pub open spec fn slot(a: Expr, b: Expr, depth: nat, table: Seq<(Expr, Expr)>) -> Option<
    (Expr, Seq<(Expr, Expr)>),
> {
    if free_from(a, 0, depth) && free_from(b, 0, depth) {
        let pair = (lower(a, 0, depth), lower(b, 0, depth));
        match position(table, pair, 0) {
            Some(i) => Some((Expr::Param(i), table)),
            None => Some((Expr::Param(table.len()), table.push(pair))),
        }
    } else {
        None
    }
}

/// Whether `a` and `b` agree at their roots, so that the pattern keeps the
/// root: the same symbol, the same variable bound inside the pattern, a
/// binder of the same width, or an application of the same length.
pub open spec fn rigid(a: Expr, b: Expr, depth: nat) -> bool {
    match a {
        Expr::Sym(_) => a == b,
        Expr::Var(i) => a == b && i < depth,
        Expr::Param(_) => false,
        Expr::Lam(n, _) => b is Lam && b->Lam_0 == n,
        Expr::App(xs) => b is App && b->App_0.len() == xs.len(),
    }
}

/// The pattern that generalises `a` and `b`, both under `depth` binders of
/// the pattern, with the table of argument pairs extended by the slots it
/// needed. `None` if the two differ at a place that refers to a binder of
/// the pattern.
pub open spec fn generalize(a: Expr, b: Expr, depth: nat, table: Seq<(Expr, Expr)>) -> Option<
    (Expr, Seq<(Expr, Expr)>),
>
    decreases a, 0nat,
{
    if !rigid(a, b, depth) {
        slot(a, b, depth, table)
    } else {
        match a {
            Expr::Lam(n, x) => match generalize(*x, *b->Lam_1, depth + n, table) {
                Some((body, next)) => Some((Expr::Lam(n, Box::new(body)), next)),
                None => None,
            },
            Expr::App(xs) => match generalize_items(xs, b->App_0, depth, table, 0, Seq::empty()) {
                Some((items, next)) => Some((Expr::App(items), next)),
                None => None,
            },
            _ => Some((a, table)),
        }
    }
}

/// Generalises the items of two applications from position `k` on and
/// appends the patterns to `done`.
pub open spec fn generalize_items(
    xs: Seq<Expr>,
    ys: Seq<Expr>,
    depth: nat,
    table: Seq<(Expr, Expr)>,
    k: nat,
    done: Seq<Expr>,
) -> Option<(Seq<Expr>, Seq<(Expr, Expr)>)>
    decreases xs, xs.len() - k,
{
    if k >= xs.len() {
        Some((done, table))
    } else {
        match generalize(xs[k as int], ys[k as int], depth, table) {
            None => None,
            Some((p, next)) => generalize_items(xs, ys, depth, next, k + 1, done.push(p)),
        }
    }
}

/// The left expressions of a table.
pub open spec fn lefts(table: Seq<(Expr, Expr)>) -> Seq<Expr> {
    Seq::new(table.len(), |i: int| table[i].0)
}

/// The right expressions of a table.
pub open spec fn rights(table: Seq<(Expr, Expr)>) -> Seq<Expr> {
    Seq::new(table.len(), |i: int| table[i].1)
}

/// `a` is an initial segment of `b`.
pub open spec fn grows(a: Seq<(Expr, Expr)>, b: Seq<(Expr, Expr)>) -> bool {
    &&& a.len() <= b.len()
    &&& forall|i: int| 0 <= i < a.len() ==> #[trigger] b[i] == a[i]
}

/// A position that `position` finds holds the pair.
pub proof fn lemma_position(table: Seq<(Expr, Expr)>, pair: (Expr, Expr), from: nat)
    ensures
        position(table, pair, from) matches Some(i) ==> from <= i < table.len() && table[i as int]
            == pair,
    decreases table.len() - from,
{
    if from < table.len() && table[from as int] != pair {
        lemma_position(table, pair, from + 1);
    }
}

/// A slot only appends to the table, and filling it from any table that
/// grew from the result gives the two expressions back.
pub proof fn lemma_slot_sound(
    a: Expr,
    b: Expr,
    depth: nat,
    table: Seq<(Expr, Expr)>,
    full: Seq<(Expr, Expr)>,
)
    requires
        slot(a, b, depth, table) is Some,
        grows(slot(a, b, depth, table)->Some_0.1, full),
    ensures
        grows(table, slot(a, b, depth, table)->Some_0.1),
        instantiate(slot(a, b, depth, table)->Some_0.0, lefts(full), depth) == a,
        instantiate(slot(a, b, depth, table)->Some_0.0, rights(full), depth) == b,
        closed_at(slot(a, b, depth, table)->Some_0.0, depth),
        params_below(
            slot(a, b, depth, table)->Some_0.0,
            slot(a, b, depth, table)->Some_0.1.len(),
        ),
{
    let pair = (lower(a, 0, depth), lower(b, 0, depth));
    let next = slot(a, b, depth, table)->Some_0.1;
    lemma_position(table, pair, 0);
    lemma_lift_lower(a, 0, depth);
    lemma_lift_lower(b, 0, depth);
    match position(table, pair, 0) {
        Some(i) => {
            assert(full[i as int] == next[i as int]);
        },
        None => {
            assert(next[table.len() as int] == pair);
            assert(full[table.len() as int] == next[table.len() as int]);
        },
    }
}

/// Soundness of anti-unification: the pattern is closed, its slots are the
/// entries of the table, the table only grows, and filling the slots with
/// the left or the right entries of any table that grew from the result
/// gives the left or the right expression back.
pub proof fn lemma_generalize_sound(
    a: Expr,
    b: Expr,
    depth: nat,
    table: Seq<(Expr, Expr)>,
    full: Seq<(Expr, Expr)>,
)
    requires
        generalize(a, b, depth, table) is Some,
        grows(generalize(a, b, depth, table)->Some_0.1, full),
    ensures
        grows(table, generalize(a, b, depth, table)->Some_0.1),
        instantiate(generalize(a, b, depth, table)->Some_0.0, lefts(full), depth) == a,
        instantiate(generalize(a, b, depth, table)->Some_0.0, rights(full), depth) == b,
        closed_at(generalize(a, b, depth, table)->Some_0.0, depth),
        params_below(
            generalize(a, b, depth, table)->Some_0.0,
            generalize(a, b, depth, table)->Some_0.1.len(),
        ),
    decreases a, 0nat,
{
    let p = generalize(a, b, depth, table)->Some_0.0;
    if !rigid(a, b, depth) {
        lemma_slot_sound(a, b, depth, table, full);
    } else {
        match a {
            Expr::Lam(n, x) => {
                lemma_generalize_sound(*x, *b->Lam_1, depth + n, table, full);
            },
            Expr::App(xs) => {
                let ys = b->App_0;
                lemma_generalize_items_sound(xs, ys, depth, table, 0, Seq::empty(), full);
                let items = p->App_0;
                let width = generalize(a, b, depth, table)->Some_0.1.len();
                assert forall|j: int| 0 <= j < items.len() implies instantiate(
                    #[trigger] items[j],
                    lefts(full),
                    depth,
                ) == xs[j] && instantiate(items[j], rights(full), depth) == ys[j] && closed_at(
                    items[j],
                    depth,
                ) && params_below(items[j], width) by {
                    let x = xs[j];
                }
                assert(instantiate(p, lefts(full), depth)->App_0 =~= xs);
                assert(instantiate(p, rights(full), depth)->App_0 =~= ys);
            },
            _ => {},
        }
    }
}

/// The same, for the items of two applications from position `k` on.
pub proof fn lemma_generalize_items_sound(
    xs: Seq<Expr>,
    ys: Seq<Expr>,
    depth: nat,
    table: Seq<(Expr, Expr)>,
    k: nat,
    done: Seq<Expr>,
    full: Seq<(Expr, Expr)>,
)
    requires
        xs.len() == ys.len(),
        k <= xs.len(),
        done.len() == k,
        generalize_items(xs, ys, depth, table, k, done) is Some,
        grows(generalize_items(xs, ys, depth, table, k, done)->Some_0.1, full),
    ensures
        grows(table, generalize_items(xs, ys, depth, table, k, done)->Some_0.1),
        generalize_items(xs, ys, depth, table, k, done)->Some_0.0.len() == xs.len(),
        forall|j: int|
            0 <= j < k ==> generalize_items(xs, ys, depth, table, k, done)->Some_0.0[j] == done[j],
        forall|j: int|
            #![trigger xs[j]]
            k <= j < xs.len() ==> {
                let p = generalize_items(xs, ys, depth, table, k, done)->Some_0.0[j];
                &&& instantiate(p, lefts(full), depth) == xs[j]
                &&& instantiate(p, rights(full), depth) == ys[j]
                &&& closed_at(p, depth)
                &&& params_below(
                    p,
                    generalize_items(xs, ys, depth, table, k, done)->Some_0.1.len(),
                )
            },
    decreases xs, xs.len() - k,
{
    if k < xs.len() {
        let first = generalize(xs[k as int], ys[k as int], depth, table)->Some_0;
        let out = generalize_items(xs, ys, depth, first.1, k + 1, done.push(first.0))->Some_0;
        lemma_generalize_items_sound(xs, ys, depth, first.1, k + 1, done.push(first.0), full);
        assert(grows(first.1, full)) by {
            assert forall|i: int| 0 <= i < first.1.len() implies #[trigger] full[i] == first.1[i] by {
                assert(out.1[i] == first.1[i]);
                assert(full[i] == out.1[i]);
            }
        }
        lemma_generalize_sound(xs[k as int], ys[k as int], depth, table, full);
        assert(out.0[k as int] == done.push(first.0)[k as int]);
        lemma_params_below_more(first.0, first.1.len(), out.1.len());
        assert forall|j: int| 0 <= j < k implies out.0[j] == done[j] by {
            assert(out.0[j] == done.push(first.0)[j]);
        }
        assert forall|i: int| 0 <= i < table.len() implies #[trigger] out.1[i] == table[i] by {
            assert(first.1[i] == table[i]);
        }
    }
}

/// Slots below a bound are below every larger bound.
pub proof fn lemma_params_below_more(e: Expr, low: nat, high: nat)
    requires
        params_below(e, low),
        low <= high,
    ensures
        params_below(e, high),
    decreases e,
{
    match e {
        Expr::Lam(_, body) => {
            lemma_params_below_more(*body, low, high);
        },
        Expr::App(items) => {
            assert forall|k: int| 0 <= k < items.len() implies params_below(
                #[trigger] items[k],
                high,
            ) by {
                lemma_params_below_more(items[k], low, high);
            }
        },
        _ => {},
    }
}

/// The pattern that two expressions share, with its arity, if it needs at
/// most `max_arity` parameters.
pub open spec fn antiunify(a: Expr, b: Expr, max_arity: nat) -> Option<(Expr, nat)> {
    match generalize(a, b, 0, Seq::empty()) {
        Some((p, table)) => if table.len() <= max_arity {
            Some((p, table.len()))
        } else {
            None
        },
        None => None,
    }
}

/// Anti-unification generalises: the pattern is closed, has no slot beyond
/// its arity, and there are arguments that make it the left expression and
/// arguments that make it the right one.
pub proof fn lemma_antiunify_sound(a: Expr, b: Expr, max_arity: nat)
    requires
        antiunify(a, b, max_arity) is Some,
    ensures
        ({
            let (p, arity) = antiunify(a, b, max_arity)->Some_0;
            let table = generalize(a, b, 0, Seq::empty())->Some_0.1;
            &&& arity <= max_arity
            &&& arity == table.len()
            &&& closed_at(p, 0)
            &&& params_below(p, arity)
            &&& instantiate(p, lefts(table), 0) == a
            &&& instantiate(p, rights(table), 0) == b
        }),
{
    let table = generalize(a, b, 0, Seq::empty())->Some_0.1;
    lemma_generalize_sound(a, b, 0, Seq::empty(), table);
}

/// A pattern uses every slot that generalisation added to the table for
/// it.
pub proof fn lemma_generalize_uses(a: Expr, b: Expr, depth: nat, table: Seq<(Expr, Expr)>, i: nat)
    requires
        generalize(a, b, depth, table) is Some,
        table.len() <= i < generalize(a, b, depth, table)->Some_0.1.len(),
    ensures
        uses_param(generalize(a, b, depth, table)->Some_0.0, i),
    decreases a, 0nat,
{
    let p = generalize(a, b, depth, table)->Some_0.0;
    if !rigid(a, b, depth) {
        let pair = (lower(a, 0, depth), lower(b, 0, depth));
        lemma_position(table, pair, 0);
    } else {
        match a {
            Expr::Lam(n, x) => {
                lemma_generalize_uses(*x, *b->Lam_1, depth + n, table, i);
            },
            Expr::App(xs) => {
                lemma_items_use(xs, b->App_0, depth, table, 0, Seq::empty(), i);
                let items = p->App_0;
                let j = choose|j: int| 0 <= j < items.len() && uses_param(#[trigger] items[j], i);
                assert(uses_param(items[j], i));
            },
            _ => {},
        }
    }
}

/// The same, for the items of two applications from position `k` on.
pub proof fn lemma_items_use(
    xs: Seq<Expr>,
    ys: Seq<Expr>,
    depth: nat,
    table: Seq<(Expr, Expr)>,
    k: nat,
    done: Seq<Expr>,
    i: nat,
)
    requires
        xs.len() == ys.len(),
        k <= xs.len(),
        generalize_items(xs, ys, depth, table, k, done) is Some,
        table.len() <= i < generalize_items(xs, ys, depth, table, k, done)->Some_0.1.len(),
    ensures
        exists|j: int|
            0 <= j < generalize_items(xs, ys, depth, table, k, done)->Some_0.0.len() && uses_param(
                #[trigger] generalize_items(xs, ys, depth, table, k, done)->Some_0.0[j],
                i,
            ),
    decreases xs, xs.len() - k,
{
    if k < xs.len() {
        let first = generalize(xs[k as int], ys[k as int], depth, table)->Some_0;
        let next = done.push(first.0);
        let out = generalize_items(xs, ys, depth, first.1, k + 1, next)->Some_0;
        lemma_items_keep(xs, ys, depth, first.1, k + 1, next);
        if i < first.1.len() {
            lemma_generalize_uses(xs[k as int], ys[k as int], depth, table, i);
            assert(out.0[done.len() as int] == next[done.len() as int]);
            assert(uses_param(out.0[done.len() as int], i));
        } else {
            lemma_items_use(xs, ys, depth, first.1, k + 1, next, i);
        }
    }
}

/// Generalising further items keeps the patterns already made.
pub proof fn lemma_items_keep(
    xs: Seq<Expr>,
    ys: Seq<Expr>,
    depth: nat,
    table: Seq<(Expr, Expr)>,
    k: nat,
    done: Seq<Expr>,
)
    requires
        generalize_items(xs, ys, depth, table, k, done) is Some,
    ensures
        done.len() <= generalize_items(xs, ys, depth, table, k, done)->Some_0.0.len(),
        forall|j: int|
            0 <= j < done.len() ==> generalize_items(xs, ys, depth, table, k, done)->Some_0.0[j]
                == #[trigger] done[j],
    decreases xs, xs.len() - k,
{
    if k < xs.len() {
        let first = generalize(xs[k as int], ys[k as int], depth, table)->Some_0;
        let next = done.push(first.0);
        lemma_items_keep(xs, ys, depth, first.1, k + 1, next);
        assert forall|j: int| 0 <= j < done.len() implies generalize_items(
            xs,
            ys,
            depth,
            table,
            k,
            done,
        )->Some_0.0[j] == #[trigger] done[j] by {
            assert(next[j] == done[j]);
        }
    }
}

/// The pattern that two expressions share matches both, with the entries
/// of the table as arguments.
pub proof fn lemma_antiunify_matches(a: Expr, b: Expr, max_arity: nat)
    requires
        antiunify(a, b, max_arity) is Some,
    ensures
        ({
            let (p, arity) = antiunify(a, b, max_arity)->Some_0;
            let table = generalize(a, b, 0, Seq::empty())->Some_0.1;
            &&& match_pattern(p, arity, a) == Some(lefts(table))
            &&& match_pattern(p, arity, b) == Some(rights(table))
        }),
{
    let (p, arity) = antiunify(a, b, max_arity)->Some_0;
    let table = generalize(a, b, 0, Seq::empty())->Some_0.1;
    lemma_antiunify_sound(a, b, max_arity);
    assert forall|i: nat| i < arity implies uses_param(p, i) by {
        lemma_generalize_uses(a, b, 0, Seq::empty(), i);
    }
    lemma_match_complete(p, lefts(table));
    lemma_match_complete(p, rights(table));
}

} // verus!
