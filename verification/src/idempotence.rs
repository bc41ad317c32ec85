//! Rewriting is idempotent: in a rewritten expression the invention matches
//! nowhere, so that rewriting it again changes nothing.

use vstd::prelude::*;
use crate::debruijn::{closed_at, free_from, lemma_lift_lower, lower, uses_symbol};
use crate::expr::Expr;
use crate::invention::{call, occurrences, occurrences_in, rewrite, rewrite_children, Abstraction};
use crate::pattern::{match_into, match_items, match_pattern, unbound};
use crate::antiunify::{antiunify, generalize, generalize_items, lemma_antiunify_sound, rigid};
use crate::search::{is_candidate, named, rewrite_all, uses, Candidate};
use crate::subterms::{in_corpus, subterm};

verus! {

/// Moving an expression out of binders further out does not change which of
/// the nearer binders it refers to.
pub proof fn lemma_free_lower(t: Expr, lo: nat, width: nat, cut: nat, span: nat)
    requires
        cut >= lo + width,
    ensures
        free_from(lower(t, cut, span), lo, width) == free_from(t, lo, width),
    decreases t,
{
    match t {
        Expr::Lam(n, body) => {
            lemma_free_lower(*body, lo + n, width, cut + n, span);
        },
        Expr::App(items) => {
            let out = lower(t, cut, span)->App_0;
            assert forall|k: int| 0 <= k < items.len() implies free_from(
                #[trigger] out[k],
                lo,
                width,
            ) == free_from(items[k], lo, width) by {
                lemma_free_lower(items[k], lo, width, cut, span);
            }
            if free_from(t, lo, width) {
                assert forall|k: int| 0 <= k < out.len() implies free_from(
                    #[trigger] out[k],
                    lo,
                    width,
                ) by {
                    assert(free_from(items[k], lo, width));
                }
            } else {
                let k = choose|k: int| 0 <= k < items.len() && !free_from(items[k], lo, width);
                assert(!free_from(out[k], lo, width));
            }
        },
        _ => {},
    }
}

/// Moving an expression out of two ranges of binders can be done in either
/// order.
pub proof fn lemma_lower_lower(t: Expr, k: nat, depth: nat, cut: nat, span: nat)
    requires
        free_from(t, k, depth),
    ensures
        lower(lower(t, k + depth + cut, span), k, depth) == lower(
            lower(t, k, depth),
            k + cut,
            span,
        ),
    decreases t,
{
    match t {
        Expr::Lam(n, body) => {
            lemma_lower_lower(*body, k + n, depth, cut, span);
        },
        Expr::App(items) => {
            let left = lower(lower(t, k + depth + cut, span), k, depth)->App_0;
            let right = lower(lower(t, k, depth), k + cut, span)->App_0;
            assert forall|j: int| 0 <= j < items.len() implies left[j] == right[j] by {
                lemma_lower_lower(items[j], k, depth, cut, span);
            }
            assert(left =~= right);
        },
        _ => {},
    }
}

/// An expression moved out of the nearer binders refers to the binders
/// further out as it did before.
pub proof fn lemma_lower_free(t: Expr, k: nat, depth: nat, cut: nat, span: nat)
    requires
        free_from(t, k, depth),
        free_from(t, k + depth + cut, span),
    ensures
        free_from(lower(t, k, depth), k + cut, span),
    decreases t,
{
    match t {
        Expr::Lam(n, body) => {
            lemma_lower_free(*body, k + n, depth, cut, span);
        },
        Expr::App(items) => {
            let out = lower(t, k, depth)->App_0;
            assert forall|j: int| 0 <= j < out.len() implies free_from(
                #[trigger] out[j],
                k + cut,
                span,
            ) by {
                lemma_lower_free(items[j], k, depth, cut, span);
            }
        },
        _ => {},
    }
}

/// The bindings `binds`, each moved out of `span` binders after the `cut`
/// nearest ones.
pub open spec fn lowered(binds: Seq<Option<Expr>>, cut: nat, span: nat) -> Seq<Option<Expr>> {
    Seq::new(
        binds.len(),
        |i: int|
            match binds[i] {
                Some(e) => Some(lower(e, cut, span)),
                None => None,
            },
    )
}

/// No binding refers to one of the `span` binders after the `cut` nearest
/// ones.
pub open spec fn binds_free(binds: Seq<Option<Expr>>, cut: nat, span: nat) -> bool {
    forall|i: int|
        0 <= i < binds.len() && (#[trigger] binds[i]) is Some ==> free_from(
            binds[i]->Some_0,
            cut,
            span,
        )
}

/// A closed pattern that matches an expression moved out of binders also
/// matches the expression itself, with the arguments it had before they
/// were moved.
pub proof fn lemma_match_lowered(
    p: Expr,
    t: Expr,
    depth: nat,
    cut: nat,
    span: nat,
    binds: Seq<Option<Expr>>,
)
    requires
        closed_at(p, depth),
        free_from(t, depth + cut, span),
        binds_free(binds, cut, span),
        match_into(p, lower(t, depth + cut, span), depth, lowered(binds, cut, span)) is Some,
    ensures
        match_into(p, t, depth, binds) is Some,
        binds_free(match_into(p, t, depth, binds)->Some_0, cut, span),
        match_into(p, lower(t, depth + cut, span), depth, lowered(binds, cut, span))->Some_0
            == lowered(match_into(p, t, depth, binds)->Some_0, cut, span),
    decreases p, 0nat,
{
    let low = lower(t, depth + cut, span);
    let lb = lowered(binds, cut, span);
    match p {
        Expr::Param(i) => {
            lemma_free_lower(t, 0, depth, depth + cut, span);
            lemma_lower_lower(t, 0, depth, cut, span);
            lemma_lower_free(t, 0, depth, cut, span);
            let arg = lower(t, 0, depth);
            let moved = lower(low, 0, depth);
            assert(moved == lower(arg, cut, span));
            match binds[i as int] {
                None => {
                    assert(lb[i as int] is None);
                    assert(lb.update(i as int, Some(moved)) =~= lowered(
                        binds.update(i as int, Some(arg)),
                        cut,
                        span,
                    ));
                },
                Some(seen) => {
                    assert(lb[i as int] == Some(lower(seen, cut, span)));
                    lemma_lift_lower(seen, cut, span);
                    lemma_lift_lower(arg, cut, span);
                },
            }
        },
        Expr::Lam(n, body) => {
            lemma_match_lowered(*body, *t->Lam_1, depth + n, cut, span, binds);
        },
        Expr::App(items) => {
            let others = t->App_0;
            let lows = low->App_0;
            assert(lows.len() == others.len());
            assert forall|j: int| 0 <= j < others.len() implies lows[j] == lower(
                #[trigger] others[j],
                depth + cut,
                span,
            ) by {}
            lemma_items_lowered(items, others, lows, depth, cut, span, binds, 0);
        },
        _ => {},
    }
}

/// The same, for the items of an application from position `k` on.
pub proof fn lemma_items_lowered(
    ps: Seq<Expr>,
    ts: Seq<Expr>,
    lows: Seq<Expr>,
    depth: nat,
    cut: nat,
    span: nat,
    binds: Seq<Option<Expr>>,
    k: nat,
)
    requires
        ps.len() == ts.len(),
        lows.len() == ts.len(),
        forall|j: int| 0 <= j < ps.len() ==> closed_at(#[trigger] ps[j], depth),
        forall|j: int| 0 <= j < ts.len() ==> free_from(#[trigger] ts[j], depth + cut, span),
        forall|j: int| 0 <= j < ts.len() ==> lows[j] == lower(#[trigger] ts[j], depth + cut, span),
        binds_free(binds, cut, span),
        match_items(ps, lows, depth, lowered(binds, cut, span), k) is Some,
    ensures
        match_items(ps, ts, depth, binds, k) is Some,
        binds_free(match_items(ps, ts, depth, binds, k)->Some_0, cut, span),
        match_items(ps, lows, depth, lowered(binds, cut, span), k)->Some_0 == lowered(
            match_items(ps, ts, depth, binds, k)->Some_0,
            cut,
            span,
        ),
    decreases ps, ps.len() - k,
{
    if k < ps.len() {
        assert(lows[k as int] == lower(ts[k as int], depth + cut, span));
        lemma_match_lowered(ps[k as int], ts[k as int], depth, cut, span, binds);
        let next = match_into(ps[k as int], ts[k as int], depth, binds)->Some_0;
        lemma_items_lowered(ps, ts, lows, depth, cut, span, next, k + 1);
    }
}

/// The invention matches neither `e` nor anything inside it.
pub open spec fn quiet(inv: Abstraction, e: Expr) -> bool
    decreases e,
{
    &&& match_pattern(inv.body, inv.arity, e) is None
    &&& match e {
        Expr::Lam(_, body) => quiet(inv, *body),
        Expr::App(items) => forall|k: int| 0 <= k < items.len() ==> quiet(inv, #[trigger] items[k]),
        _ => true,
    }
}

/// Every expression that `binds` holds is quiet.
pub open spec fn binds_quiet(inv: Abstraction, binds: Seq<Option<Expr>>) -> bool {
    forall|i: int|
        0 <= i < binds.len() && (#[trigger] binds[i]) is Some ==> quiet(inv, binds[i]->Some_0)
}

/// A body that cannot match a call of its own invention: it is not a bare
/// parameter, it is no application headed by a parameter, and it does not
/// use the name of the invention.
pub open spec fn settled(inv: Abstraction) -> bool {
    &&& closed_at(inv.body, 0)
    &&& !uses_symbol(inv.body, inv.name)
    &&& !(inv.body is Param)
    &&& !(inv.body is App && inv.body->App_0.len() > 0 && inv.body->App_0[0] is Param)
}

/// A quiet expression moved out of binders is quiet.
pub proof fn lemma_lower_quiet(inv: Abstraction, e: Expr, cut: nat, span: nat)
    requires
        closed_at(inv.body, 0),
        quiet(inv, e),
        free_from(e, cut, span),
    ensures
        quiet(inv, lower(e, cut, span)),
    decreases e,
{
    let low = lower(e, cut, span);
    if match_pattern(inv.body, inv.arity, low) is Some {
        let none = unbound(inv.arity);
        assert(lowered(none, cut, span) =~= none);
        lemma_match_lowered(inv.body, e, 0, cut, span, none);
        let found = match_into(inv.body, e, 0, none)->Some_0;
        let moved = match_into(inv.body, low, 0, none)->Some_0;
        assert forall|i: int| 0 <= i < found.len() implies (#[trigger] found[i]) is Some by {
            assert(moved[i] is Some);
        }
        assert(false);
    }
    match e {
        Expr::Lam(n, body) => {
            lemma_lower_quiet(inv, *body, cut + n, span);
        },
        Expr::App(items) => {
            let out = low->App_0;
            assert forall|k: int| 0 <= k < out.len() implies quiet(inv, #[trigger] out[k]) by {
                lemma_lower_quiet(inv, items[k], cut, span);
            }
        },
        _ => {},
    }
}

/// Matching inside a quiet expression binds quiet arguments.
pub proof fn lemma_match_quiet(
    inv: Abstraction,
    p: Expr,
    t: Expr,
    depth: nat,
    binds: Seq<Option<Expr>>,
)
    requires
        closed_at(inv.body, 0),
        quiet(inv, t),
        binds_quiet(inv, binds),
        match_into(p, t, depth, binds) is Some,
    ensures
        binds_quiet(inv, match_into(p, t, depth, binds)->Some_0),
    decreases p, 0nat,
{
    match p {
        Expr::Param(i) => {
            lemma_lower_quiet(inv, t, 0, depth);
        },
        Expr::Lam(n, body) => {
            lemma_match_quiet(inv, *body, *t->Lam_1, depth + n, binds);
        },
        Expr::App(items) => {
            lemma_items_quiet(inv, items, t->App_0, depth, binds, 0);
        },
        _ => {},
    }
}

/// The same, for the items of an application from position `k` on.
pub proof fn lemma_items_quiet(
    inv: Abstraction,
    ps: Seq<Expr>,
    ts: Seq<Expr>,
    depth: nat,
    binds: Seq<Option<Expr>>,
    k: nat,
)
    requires
        closed_at(inv.body, 0),
        ps.len() == ts.len(),
        forall|j: int| k <= j < ts.len() ==> quiet(inv, #[trigger] ts[j]),
        binds_quiet(inv, binds),
        match_items(ps, ts, depth, binds, k) is Some,
    ensures
        binds_quiet(inv, match_items(ps, ts, depth, binds, k)->Some_0),
    decreases ps, ps.len() - k,
{
    if k < ps.len() {
        lemma_match_quiet(inv, ps[k as int], ts[k as int], depth, binds);
        let next = match_into(ps[k as int], ts[k as int], depth, binds)->Some_0;
        lemma_items_quiet(inv, ps, ts, depth, next, k + 1);
    }
}

/// The children of `e` are quiet.
pub open spec fn children_quiet(inv: Abstraction, e: Expr) -> bool {
    match e {
        Expr::Lam(_, body) => quiet(inv, *body),
        Expr::App(items) => forall|k: int| 0 <= k < items.len() ==> quiet(inv, #[trigger] items[k]),
        _ => true,
    }
}

/// A settled invention matches no call of itself.
pub proof fn lemma_call_quiet(inv: Abstraction, args: Seq<Expr>)
    requires
        settled(inv),
        forall|i: int| 0 <= i < args.len() ==> quiet(inv, #[trigger] args[i]),
    ensures
        quiet(inv, call(inv.name, args)),
{
    let head = Expr::Sym(inv.name);
    let none = unbound(inv.arity);
    let site = call(inv.name, args);
    match inv.body {
        Expr::App(ps) => {
            assert(match_into(inv.body, head, 0, none) is None);
            if args.len() > 0 {
                let items = site->App_0;
                assert(items[0] == head);
                if ps.len() == items.len() {
                    assert(!uses_symbol(ps[0], inv.name));
                    assert(match_into(ps[0], head, 0, none) is None);
                    assert(match_items(ps, items, 0, none, 0) is None);
                }
            }
        },
        _ => {},
    }
    assert(quiet(inv, head));
    if args.len() > 0 {
        let items = site->App_0;
        assert forall|k: int| 0 <= k < items.len() implies quiet(inv, #[trigger] items[k]) by {
            if k > 0 {
                assert(items[k] == args[k - 1]);
            }
        }
    }
}

/// In a rewritten expression a settled invention matches nowhere.
pub proof fn lemma_rewrite_quiet(inv: Abstraction, t: Expr)
    requires
        settled(inv),
    ensures
        quiet(inv, rewrite(inv, t)),
    decreases t, 1nat,
{
    let inner = rewrite_children(inv, t);
    lemma_children_quiet(inv, t);
    match match_pattern(inv.body, inv.arity, inner) {
        Some(args) => {
            let none = unbound(inv.arity);
            let found = match_into(inv.body, inner, 0, none)->Some_0;
            match inv.body {
                Expr::Lam(n, body) => {
                    lemma_match_quiet(inv, *body, *inner->Lam_1, n, none);
                },
                Expr::App(ps) => {
                    lemma_items_quiet(inv, ps, inner->App_0, 0, none, 0);
                },
                _ => {},
            }
            assert forall|i: int| 0 <= i < args.len() implies quiet(inv, #[trigger] args[i]) by {
                assert(found[i] is Some);
            }
            lemma_call_quiet(inv, args);
        },
        None => {},
    }
}

/// The children of an expression whose children were rewritten are quiet.
pub proof fn lemma_children_quiet(inv: Abstraction, t: Expr)
    requires
        settled(inv),
    ensures
        children_quiet(inv, rewrite_children(inv, t)),
    decreases t, 0nat,
{
    match t {
        Expr::Lam(n, body) => {
            lemma_rewrite_quiet(inv, *body);
        },
        Expr::App(items) => {
            let out = rewrite_children(inv, t)->App_0;
            assert forall|k: int| 0 <= k < out.len() implies quiet(inv, #[trigger] out[k]) by {
                lemma_rewrite_quiet(inv, items[k]);
            }
        },
        _ => {},
    }
}

/// Rewriting changes nothing in an expression in which the invention
/// matches nowhere, and puts no call.
pub proof fn lemma_quiet_fixed(inv: Abstraction, e: Expr)
    requires
        quiet(inv, e),
    ensures
        rewrite(inv, e) == e,
        occurrences(inv, e) == 0,
    decreases e, 1nat,
{
    match e {
        Expr::Lam(n, body) => {
            lemma_quiet_fixed(inv, *body);
        },
        Expr::App(items) => {
            let out = rewrite_children(inv, e)->App_0;
            assert forall|k: int| 0 <= k < items.len() implies out[k] == items[k] by {
                lemma_quiet_fixed(inv, items[k]);
            }
            assert(out =~= items);
            lemma_quiet_items(inv, items, items.len());
        },
        _ => {},
    }
}

/// Rewriting puts no call in quiet expressions.
pub proof fn lemma_quiet_items(inv: Abstraction, items: Seq<Expr>, n: nat)
    requires
        n <= items.len(),
        forall|k: int| 0 <= k < items.len() ==> quiet(inv, #[trigger] items[k]),
    ensures
        occurrences_in(inv, items, n) == 0,
    decreases items, n,
{
    if n > 0 {
        lemma_quiet_items(inv, items, (n - 1) as nat);
        lemma_quiet_fixed(inv, items[n - 1]);
    }
}

/// Idempotence: rewriting a rewritten expression again with the same
/// settled invention changes nothing and puts no further call.
pub proof fn lemma_rewrite_idempotent(inv: Abstraction, t: Expr)
    requires
        settled(inv),
    ensures
        rewrite(inv, rewrite(inv, t)) == rewrite(inv, t),
        occurrences(inv, rewrite(inv, t)) == 0,
{
    lemma_rewrite_quiet(inv, t);
    lemma_quiet_fixed(inv, rewrite(inv, t));
}

/// Idempotence for a corpus: rewriting rewritten programs again with the
/// same settled invention gives the same programs and puts no call.
pub proof fn lemma_rewrite_all_idempotent(inv: Abstraction, programs: Seq<Expr>)
    requires
        settled(inv),
    ensures
        rewrite_all(inv, rewrite_all(inv, programs)) == rewrite_all(inv, programs),
        uses(inv, rewrite_all(inv, programs), programs.len()) == 0,
{
    let once = rewrite_all(inv, programs);
    assert forall|i: int| 0 <= i < programs.len() implies rewrite(inv, #[trigger] once[i])
        == once[i] by {
        lemma_rewrite_idempotent(inv, programs[i]);
    }
    assert(rewrite_all(inv, once) =~= once);
    lemma_no_uses(inv, programs, programs.len());
}

/// Rewriting puts no call in the first `n` rewritten programs.
proof fn lemma_no_uses(inv: Abstraction, programs: Seq<Expr>, n: nat)
    requires
        settled(inv),
        n <= programs.len(),
    ensures
        uses(inv, rewrite_all(inv, programs), n) == 0,
    decreases n,
{
    if n > 0 {
        lemma_no_uses(inv, programs, (n - 1) as nat);
        lemma_rewrite_idempotent(inv, programs[n - 1]);
    }
}

/// A pattern that generalises `a` uses no symbol that `a` does not use.
pub proof fn lemma_generalize_symbols(
    a: Expr,
    b: Expr,
    depth: nat,
    table: Seq<(Expr, Expr)>,
    name: Seq<u8>,
)
    requires
        generalize(a, b, depth, table) is Some,
        !uses_symbol(a, name),
    ensures
        !uses_symbol(generalize(a, b, depth, table)->Some_0.0, name),
    decreases a, 0nat,
{
    let p = generalize(a, b, depth, table)->Some_0.0;
    if rigid(a, b, depth) {
        match a {
            Expr::Lam(n, x) => {
                lemma_generalize_symbols(*x, *b->Lam_1, depth + n, table, name);
            },
            Expr::App(xs) => {
                lemma_items_symbols(xs, b->App_0, depth, table, 0, Seq::empty(), name);
                let items = p->App_0;
                assert forall|k: int| 0 <= k < items.len() implies !uses_symbol(
                    #[trigger] items[k],
                    name,
                ) by {}
            },
            _ => {},
        }
    }
}

/// The same, for the items of two applications from position `k` on.
pub proof fn lemma_items_symbols(
    xs: Seq<Expr>,
    ys: Seq<Expr>,
    depth: nat,
    table: Seq<(Expr, Expr)>,
    k: nat,
    done: Seq<Expr>,
    name: Seq<u8>,
)
    requires
        generalize_items(xs, ys, depth, table, k, done) is Some,
        forall|j: int| 0 <= j < xs.len() ==> !uses_symbol(#[trigger] xs[j], name),
        forall|j: int| 0 <= j < done.len() ==> !uses_symbol(#[trigger] done[j], name),
    ensures
        forall|j: int|
            0 <= j < generalize_items(xs, ys, depth, table, k, done)->Some_0.0.len()
                ==> !uses_symbol(
                #[trigger] generalize_items(xs, ys, depth, table, k, done)->Some_0.0[j],
                name,
            ),
    decreases xs, xs.len() - k,
{
    if k < xs.len() {
        lemma_generalize_symbols(xs[k as int], ys[k as int], depth, table, name);
        let first = generalize(xs[k as int], ys[k as int], depth, table)->Some_0;
        let next = done.push(first.0);
        assert forall|j: int| 0 <= j < next.len() implies !uses_symbol(#[trigger] next[j], name) by {
            if j < done.len() {
                assert(next[j] == done[j]);
            }
        }
        lemma_items_symbols(xs, ys, depth, first.1, k + 1, next, name);
    }
}

/// What occurs in an expression uses no symbol that the expression does
/// not use.
pub proof fn lemma_subterm_symbols(s: Expr, t: Expr, name: Seq<u8>)
    requires
        subterm(s, t),
        !uses_symbol(t, name),
    ensures
        !uses_symbol(s, name),
    decreases t,
{
    if s != t {
        match t {
            Expr::Lam(_, body) => {
                lemma_subterm_symbols(s, *body, name);
            },
            Expr::App(items) => {
                let k = choose|k: int| 0 <= k < items.len() && subterm(s, #[trigger] items[k]);
                assert(!uses_symbol(items[k], name));
                lemma_subterm_symbols(s, items[k], name);
            },
            _ => {},
        }
    }
}

/// A candidate whose body is not headed by a parameter, under a name that
/// no program uses, is settled: rewriting with it is idempotent.
pub proof fn lemma_candidate_settled(
    name: Seq<u8>,
    programs: Seq<Expr>,
    max_arity: nat,
    min_size: nat,
    c: Candidate,
)
    requires
        is_candidate(programs, max_arity, min_size, c),
        forall|i: int| 0 <= i < programs.len() ==> !uses_symbol(#[trigger] programs[i], name),
        !(c.body is App && c.body->App_0.len() > 0 && c.body->App_0[0] is Param),
    ensures
        settled(named(name, c)),
{
    let (a, b) = choose|a: Expr, b: Expr|
        in_corpus(a, programs) && in_corpus(b, programs) && #[trigger] antiunify(a, b, max_arity)
            == Some((c.body, c.arity));
    let i = choose|i: int| 0 <= i < programs.len() && subterm(a, #[trigger] programs[i]);
    lemma_subterm_symbols(a, programs[i], name);
    lemma_generalize_symbols(a, b, 0, Seq::empty(), name);
    lemma_antiunify_sound(a, b, max_arity);
}

} // verus!
