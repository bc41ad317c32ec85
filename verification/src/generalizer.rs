//! Anti-unification of stored expressions.

use vstd::prelude::*;
use crate::antiunify::{antiunify, generalize, generalize_items, position, rigid, slot};
use crate::expr::Expr;
use crate::scope::{deeper, level};
use crate::store::{expr_at, exprs_at, lemma_canonical, shape_ok, ExprStore, Node, Shape};

verus! {

/// The pairs of expressions that a table of slot pairs holds.
pub open spec fn table_view(store: &ExprStore, table: Seq<(usize, usize)>) -> Seq<(Expr, Expr)> {
    Seq::new(
        table.len(),
        |i: int| (store.expr(table[i].0 as int), store.expr(table[i].1 as int)),
    )
}

/// Every entry of the table is a pair of slots of the store.
pub open spec fn table_ok(store: &ExprStore, table: Seq<(usize, usize)>) -> bool {
    forall|i: int|
        0 <= i < table.len() ==> (#[trigger] table[i]).0 < store@.len() && table[i].1
            < store@.len()
}

/// A table means the same in a store that extends the one it was made in.
pub proof fn lemma_table_view_extends(new: &ExprStore, old: &ExprStore, table: Seq<(usize, usize)>)
    requires
        new.extends(old),
        table_ok(old, table),
    ensures
        table_view(new, table) == table_view(old, table),
        table_ok(new, table),
{
    assert forall|i: int| 0 <= i < table.len() implies table_view(new, table)[i] == table_view(
        old,
        table,
    )[i] by {
        assert(table[i].0 < old@.len());
        new.lemma_extends_expr(old, table[i].0 as int);
        new.lemma_extends_expr(old, table[i].1 as int);
    }
    assert(table_view(new, table) =~= table_view(old, table));
}

/// The position of the pair `(a, b)` in the table, if it is there.
pub fn find_pair(store: &ExprStore, table: &Vec<(usize, usize)>, a: usize, b: usize) -> (r: Option<
    usize,
>)
    requires
        store.wf(),
        table_ok(store, table@),
        a < store@.len(),
        b < store@.len(),
    ensures
        match position(table_view(store, table@), (store.expr(a as int), store.expr(b as int)), 0) {
            Some(i) => r is Some && r->Some_0 as nat == i && i < table@.len(),
            None => r is None,
        },
{
    let ghost tv = table_view(store, table@);
    let ghost pair = (store.expr(a as int), store.expr(b as int));
    let mut i: usize = 0;
    while i < table.len()
        invariant
            store.wf(),
            table_ok(store, table@),
            a < store@.len(),
            b < store@.len(),
            tv == table_view(store, table@),
            pair == (store.expr(a as int), store.expr(b as int)),
            i <= table@.len(),
            position(tv, pair, 0) == position(tv, pair, i as nat),
        decreases table@.len() - i,
    {
        let (x, y) = table[i];
        proof {
            assert(table@[i as int].0 < store@.len());
            if tv[i as int] == pair {
                lemma_canonical(store@, x as int, a as int);
                lemma_canonical(store@, y as int, b as int);
            }
        }
        if x == a && y == b {
            return Some(i);
        }
        i += 1;
    }
    None
}

/// A parameter slot for the differing expressions at `a` and `b`.
fn slot_at(
    store: &mut ExprStore,
    a: usize,
    b: usize,
    depth: Option<usize>,
    Ghost(d): Ghost<nat>,
    table: &mut Vec<(usize, usize)>,
) -> (r: Option<usize>)
    requires
        old(store).wf(),
        a < old(store)@.len(),
        b < old(store)@.len(),
        level(depth, d),
        table_ok(old(store), old(table)@),
    ensures
        final(store).wf(),
        final(store).extends(old(store)),
        table_ok(final(store), final(table)@),
        match slot(
            old(store).expr(a as int),
            old(store).expr(b as int),
            d,
            table_view(old(store), old(table)@),
        ) {
            Some((p, next)) => r is Some && r->Some_0 < final(store)@.len() && final(store).expr(
                r->Some_0 as int,
            ) == p && table_view(final(store), final(table)@) == next,
            None => r is None,
        },
{
    let ghost start = *store;
    let ghost t0 = table@;
    if !store.free_from_at(a, Some(0), depth, Ghost(0), Ghost(d)) {
        return None;
    }
    if !store.free_from_at(b, Some(0), depth, Ghost(0), Ghost(d)) {
        return None;
    }
    let x = store.lower_at(a, Some(0), depth, Ghost(0), Ghost(d));
    let ghost mid = *store;
    proof {
        mid.lemma_extends_expr(&start, b as int);
    }
    let y = store.lower_at(b, Some(0), depth, Ghost(0), Ghost(d));
    let ghost low = *store;
    proof {
        store.lemma_extends_trans(&mid, &start);
        store.lemma_extends_expr(&mid, x as int);
        lemma_table_view_extends(store, &start, t0);
    }
    let found = find_pair(store, table, x, y);
    let i = match found {
        Some(i) => i,
        None => {
            table.push((x, y));
            proof {
                assert(table_view(store, table@) =~= table_view(&start, t0).push(
                    (store.expr(x as int), store.expr(y as int)),
                ));
            }
            table.len() - 1
        },
    };
    let ghost tv = table_view(store, table@);
    let ghost list = table@;
    let r = store.insert(Node::Param(i)).unwrap();
    proof {
        store.lemma_extends_trans(&low, &start);
        lemma_table_view_extends(store, &low, list);
    }
    Some(r)
}

/// Interns the pattern that generalises the expressions at `a` and `b`,
/// both under `depth` binders of the pattern, and extends `table` by the
/// argument pairs of the slots it needed.
#[verifier::rlimit(30)]
pub(crate) fn generalize_under(
    store: &mut ExprStore,
    a: usize,
    b: usize,
    depth: Option<usize>,
    Ghost(d): Ghost<nat>,
    table: &mut Vec<(usize, usize)>,
) -> (r: Option<usize>)
    requires
        old(store).wf(),
        a < old(store)@.len(),
        b < old(store)@.len(),
        level(depth, d),
        table_ok(old(store), old(table)@),
    ensures
        final(store).wf(),
        final(store).extends(old(store)),
        table_ok(final(store), final(table)@),
        match generalize(
            old(store).expr(a as int),
            old(store).expr(b as int),
            d,
            table_view(old(store), old(table)@),
        ) {
            Some((p, next)) => r is Some && r->Some_0 < final(store)@.len() && final(store).expr(
                r->Some_0 as int,
            ) == p && table_view(final(store), final(table)@) == next,
            None => r is None,
        },
    decreases a, 1nat,
{
    let ghost start = *store;
    let ghost t0 = table@;
    let ghost ae = start.expr(a as int);
    let ghost be = start.expr(b as int);
    proof {
        if ae == be {
            lemma_canonical(start@, a as int, b as int);
        }
    }
    match store.get(a) {
        Node::Sym(_) => {
            if a == b {
                return Some(a);
            }
        },
        Node::Var(i) => {
            let bound = match depth {
                Some(x) => i < x,
                None => true,
            };
            if a == b && bound {
                return Some(a);
            }
        },
        Node::Param(_) => {},
        Node::Lam { params, body } => {
            match store.get(b) {
                Node::Lam { params: m, body: other } => {
                    if m == params {
                        return generalize_lam(
                            store,
                            a,
                            b,
                            params,
                            body,
                            other,
                            depth,
                            Ghost(d),
                            table,
                        );
                    }
                },
                _ => {},
            }
        },
        Node::App(items) => {
            match store.get(b) {
                Node::App(others) => {
                    assert(ae->App_0 == exprs_at(start@, items@, a as int));
                    assert(be->App_0 == exprs_at(start@, others@, b as int));
                    if others.len() == items.len() {
                        return generalize_app(store, a, b, items, others, depth, Ghost(d), table);
                    }
                },
                _ => {},
            }
        },
    }
    assert(!rigid(ae, be, d));
    slot_at(store, a, b, depth, Ghost(d), table)
}

/// Generalises two binders of the same width.
#[verifier::rlimit(30)]
fn generalize_lam(
    store: &mut ExprStore,
    a: usize,
    b: usize,
    params: usize,
    body: usize,
    other: usize,
    depth: Option<usize>,
    Ghost(d): Ghost<nat>,
    table: &mut Vec<(usize, usize)>,
) -> (r: Option<usize>)
    requires
        old(store).wf(),
        a < old(store)@.len(),
        b < old(store)@.len(),
        old(store)@[a as int] == (Shape::Lam { params, body }),
        old(store)@[b as int] == (Shape::Lam { params, body: other }),
        level(depth, d),
        table_ok(old(store), old(table)@),
    ensures
        final(store).wf(),
        final(store).extends(old(store)),
        table_ok(final(store), final(table)@),
        match generalize(
            old(store).expr(a as int),
            old(store).expr(b as int),
            d,
            table_view(old(store), old(table)@),
        ) {
            Some((p, next)) => r is Some && r->Some_0 < final(store)@.len() && final(store).expr(
                r->Some_0 as int,
            ) == p && table_view(final(store), final(table)@) == next,
            None => r is None,
        },
    decreases a, 0nat,
{
    let ghost start = *store;
    assert(shape_ok(start@[a as int], a as int));
    assert(shape_ok(start@[b as int], b as int));
    let below = deeper(depth, params);
    match generalize_under(store, body, other, below, Ghost(d + params as nat), table) {
        Some(inner) => {
            let ghost mid = *store;
            let ghost list = table@;
            let r = store.insert(Node::Lam { params, body: inner }).unwrap();
            proof {
                store.lemma_extends_trans(&mid, &start);
                lemma_table_view_extends(store, &mid, list);
            }
            Some(r)
        },
        None => None,
    }
}

/// Generalises two applications of the same length, item by item.
#[verifier::rlimit(30)]
fn generalize_app(
    store: &mut ExprStore,
    a: usize,
    b: usize,
    items: Vec<usize>,
    others: Vec<usize>,
    depth: Option<usize>,
    Ghost(d): Ghost<nat>,
    table: &mut Vec<(usize, usize)>,
) -> (r: Option<usize>)
    requires
        old(store).wf(),
        a < old(store)@.len(),
        b < old(store)@.len(),
        old(store)@[a as int] == Shape::App(items@),
        old(store)@[b as int] == Shape::App(others@),
        others@.len() == items@.len(),
        level(depth, d),
        table_ok(old(store), old(table)@),
    ensures
        final(store).wf(),
        final(store).extends(old(store)),
        table_ok(final(store), final(table)@),
        match generalize(
            old(store).expr(a as int),
            old(store).expr(b as int),
            d,
            table_view(old(store), old(table)@),
        ) {
            Some((p, next)) => r is Some && r->Some_0 < final(store)@.len() && final(store).expr(
                r->Some_0 as int,
            ) == p && table_view(final(store), final(table)@) == next,
            None => r is None,
        },
    decreases a, 0nat,
{
    let ghost start = *store;
    let ghost t0 = table@;
    let ghost ae = start.expr(a as int);
    let ghost be = start.expr(b as int);
    let ghost xs = exprs_at(start@, items@, a as int);
    let ghost ys = exprs_at(start@, others@, b as int);
    assert(ae->App_0 == xs);
    assert(be->App_0 == ys);
    let mut out: Vec<usize> = Vec::new();
    let mut k: usize = 0;
    proof {
        assert(store.exprs(out@) =~= Seq::<Expr>::empty());
    }
    while k < items.len()
        invariant
            store.wf(),
            store.extends(&start),
            start == *old(store),
            t0 == old(table)@,
            ae == start.expr(a as int),
            be == start.expr(b as int),
            generalize(ae, be, d, table_view(&start, t0)) == (match generalize_items(
                xs,
                ys,
                d,
                table_view(&start, t0),
                0,
                Seq::empty(),
            ) {
                Some((ps, next)) => Some((Expr::App(ps), next)),
                None => None,
            }),
            start.wf(),
            a < start@.len(),
            b < start@.len(),
            start@[a as int] == Shape::App(items@),
            start@[b as int] == Shape::App(others@),
            others@.len() == items@.len(),
            xs == exprs_at(start@, items@, a as int),
            ys == exprs_at(start@, others@, b as int),
            level(depth, d),
            table_ok(store, table@),
            k <= items@.len(),
            out@.len() == k,
            forall|j: int| 0 <= j < k ==> #[trigger] out@[j] < store@.len(),
            generalize_items(xs, ys, d, table_view(&start, t0), 0, Seq::empty())
                == generalize_items(
                xs,
                ys,
                d,
                table_view(store, table@),
                k as nat,
                store.exprs(out@),
            ),
        decreases items@.len() - k,
    {
        assert(shape_ok(start@[a as int], a as int));
        assert(shape_ok(start@[b as int], b as int));
        assert(items@[k as int] < a);
        assert(others@[k as int] < b);
        assert(xs[k as int] == expr_at(start@, items@[k as int] as int));
        assert(ys[k as int] == expr_at(start@, others@[k as int] as int));
        let ghost mid = *store;
        proof {
            mid.lemma_extends_expr(&start, items@[k as int] as int);
            mid.lemma_extends_expr(&start, others@[k as int] as int);
        }
        let got = generalize_under(store, items[k], others[k], depth, Ghost(d), table);
        proof {
            store.lemma_extends_trans(&mid, &start);
        }
        match got {
            None => {
                return None;
            },
            Some(p) => {
                proof {
                    store.lemma_extends_exprs(&mid, out@);
                    assert(store.exprs(out@.push(p)) =~= mid.exprs(out@).push(
                        store.expr(p as int),
                    ));
                }
                out.push(p);
            },
        }
        k += 1;
    }
    let ghost mid = *store;
    let ghost list = table@;
    let ghost ps = out@;
    assert(shape_ok(start@[a as int], a as int));
    let r = store.insert(Node::App(out)).unwrap();
    proof {
        store.lemma_extends_trans(&mid, &start);
        lemma_table_view_extends(store, &mid, list);
        assert(exprs_at(mid@, ps, mid@.len() as int) == mid.exprs(ps));
    }
    Some(r)
}

impl ExprStore {
    /// Interns the pattern that the expressions at `a` and `b` share and
    /// returns it with its arity, if there is one with at most `max_arity`
    /// parameters.
    pub fn antiunify(&mut self, a: usize, b: usize, max_arity: usize) -> (r: Option<(usize, usize)>)
        requires
            old(self).wf(),
            a < old(self)@.len(),
            b < old(self)@.len(),
        ensures
            final(self).wf(),
            final(self).extends(old(self)),
            match antiunify(old(self).expr(a as int), old(self).expr(b as int), max_arity as nat) {
                Some((p, arity)) => r is Some && r->Some_0.0 < final(self)@.len()
                    && final(self).expr(r->Some_0.0 as int) == p && r->Some_0.1 == arity,
                None => r is None,
            },
    {
        let mut table: Vec<(usize, usize)> = Vec::new();
        proof {
            assert(table_view(self, table@) =~= Seq::<(Expr, Expr)>::empty());
        }
        match generalize_under(self, a, b, Some(0), Ghost(0), &mut table) {
            Some(p) => {
                if table.len() <= max_arity {
                    Some((p, table.len()))
                } else {
                    None
                }
            },
            None => None,
        }
    }
}

} // verus!
