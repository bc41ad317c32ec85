//! Rewriting stored expressions to call an invention.

use vstd::prelude::*;
use crate::expr::{valid_symbol, wf, Expr};
use crate::invention::{
    call, occurrences, occurrences_in, rewrite, rewrite_children, sites, sites_in, Abstraction, Site,
};
use crate::store::{clamp, expr_at, exprs_at, lemma_clamp_add, shape_ok, ExprStore, Node, Shape};

verus! {

/// An invention whose body is stored in an [`ExprStore`].
#[derive(Debug)]
pub struct Invention {
    /// The symbol by which the invention is called.
    pub name: Vec<u8>,
    /// The number of its parameters.
    pub arity: usize,
    /// The slot of its body.
    pub body: usize,
}

impl Invention {
    /// The invention with its body read in `store`.
    pub open spec fn view_in(&self, store: &ExprStore) -> Abstraction {
        Abstraction { name: self.name@, arity: self.arity as nat, body: store.expr(self.body as int) }
    }

    /// The invention can be used with `store`: the name is a symbol and the
    /// body is one of its slots.
    pub open spec fn fits(&self, store: &ExprStore) -> bool {
        valid_symbol(self.name@) && self.body < store@.len()
    }
}

impl ExprStore {
    /// Interns a call of `inv` with the arguments at `args`.
    pub fn call(&mut self, inv: &Invention, args: Vec<usize>) -> (r: usize)
        requires
            old(self).wf(),
            valid_symbol(inv.name@),
            forall|k: int| 0 <= k < args@.len() ==> #[trigger] args@[k] < old(self)@.len(),
        ensures
            final(self).wf(),
            final(self).extends(old(self)),
            r < final(self)@.len(),
            final(self).expr(r as int) == call(inv.name@, old(self).exprs(args@)),
    {
        let ghost start = *self;
        let ghost given = args@;
        let name = vstd::slice::slice_to_vec(inv.name.as_slice());
        let head = self.insert(Node::Sym(name)).unwrap();
        if args.len() == 0 {
            return head;
        }
        let mut items: Vec<usize> = Vec::new();
        items.push(head);
        let mut k: usize = 0;
        while k < args.len()
            invariant
                k <= args@.len(),
                head < self@.len(),
                items@ == seq![head] + args@.subrange(0, k as int),
            decreases args@.len() - k,
        {
            items.push(args[k]);
            proof {
                assert(items@ =~= seq![head] + args@.subrange(0, k + 1));
            }
            k += 1;
        }
        proof {
            assert(args@.subrange(0, args@.len() as int) =~= args@);
        }
        let ghost mid = *self;
        let ghost list = items@;
        assert forall|j: int| 0 <= j < list.len() implies #[trigger] list[j] < mid@.len() by {
            if j > 0 {
                assert(list[j] == given[j - 1]);
            }
        }
        let r = self.insert(Node::App(items)).unwrap();
        proof {
            self.lemma_extends_trans(&mid, &start);
            assert(exprs_at(mid@, list, mid@.len() as int) =~= seq![Expr::Sym(inv.name@)]
                + start.exprs(given)) by {
                assert forall|j: int| 0 <= j < list.len() implies exprs_at(
                    mid@,
                    list,
                    mid@.len() as int,
                )[j] == (seq![Expr::Sym(inv.name@)] + start.exprs(given))[j] by {
                    if j > 0 {
                        assert(list[j] == given[j - 1]);
                        mid.lemma_extends_expr(&start, given[j - 1] as int);
                    }
                }
            }
        }
        r
    }

    /// Rewrites the expression at `t` to call `inv` wherever its body
    /// matches, from the leaves up. Returns the slot of the result and the
    /// number of calls it put (`u64::MAX` stands for that many or more).
    pub fn rewrite(&mut self, inv: &Invention, t: usize) -> (r: (usize, u64))
        requires
            old(self).wf(),
            inv.fits(old(self)),
            t < old(self)@.len(),
        ensures
            final(self).wf(),
            final(self).extends(old(self)),
            r.0 < final(self)@.len(),
            final(self).expr(r.0 as int) == rewrite(
                inv.view_in(old(self)),
                old(self).expr(t as int),
            ),
            r.1 == clamp(occurrences(inv.view_in(old(self)), old(self).expr(t as int))),
        decreases t,
    {
        let ghost start = *self;
        let ghost model = inv.view_in(&start);
        let ghost te = start.expr(t as int);
        let (inner, below) = self.rewrite_children(inv, t);
        let ghost mid = *self;
        proof {
            mid.lemma_extends_expr(&start, inv.body as int);
        }
        match self.match_at(inv.body, inv.arity, inner) {
            Some(args) => {
                let ghost low = *self;
                let r = self.call(inv, args);
                proof {
                    self.lemma_extends_trans(&low, &mid);
                    self.lemma_extends_trans(&mid, &start);
                    lemma_clamp_add(
                        match te {
                            Expr::Lam(_, body) => occurrences(model, *body),
                            Expr::App(items) => occurrences_in(model, items, items.len()),
                            _ => 0,
                        },
                        1,
                    );
                }
                (r, below.saturating_add(1))
            },
            None => {
                proof {
                    self.lemma_extends_trans(&mid, &start);
                    self.lemma_extends_expr(&mid, inner as int);
                }
                (inner, below)
            },
        }
    }

    /// Rewrites the children of the expression at `t`.
    fn rewrite_children(&mut self, inv: &Invention, t: usize) -> (r: (usize, u64))
        requires
            old(self).wf(),
            inv.fits(old(self)),
            t < old(self)@.len(),
        ensures
            final(self).wf(),
            final(self).extends(old(self)),
            r.0 < final(self)@.len(),
            final(self).expr(r.0 as int) == rewrite_children(
                inv.view_in(old(self)),
                old(self).expr(t as int),
            ),
            r.1 == clamp(
                match old(self).expr(t as int) {
                    Expr::Lam(_, body) => occurrences(inv.view_in(old(self)), *body),
                    Expr::App(items) => occurrences_in(
                        inv.view_in(old(self)),
                        items,
                        items.len(),
                    ),
                    _ => 0,
                },
            ),
        decreases t, 0nat,
    {
        let ghost start = *self;
        let ghost model = inv.view_in(&start);
        match self.get(t) {
            Node::Lam { params, body } => {
                assert(shape_ok(start@[t as int], t as int));
                let (b, n) = self.rewrite(inv, body);
                let ghost mid = *self;
                let r = self.insert(Node::Lam { params, body: b }).unwrap();
                proof {
                    self.lemma_extends_trans(&mid, &start);
                }
                (r, n)
            },
            Node::App(items) => {
                let ghost es = exprs_at(start@, items@, t as int);
                assert(start.expr(t as int)->App_0 == es);
                let mut out: Vec<usize> = Vec::new();
                let mut count: u64 = 0;
                let mut k: usize = 0;
                while k < items.len()
                    invariant
                        self.wf(),
                        self.extends(&start),
                        start.wf(),
                        inv.fits(&start),
                        model == inv.view_in(&start),
                        t < start@.len(),
                        start@[t as int] == Shape::App(items@),
                        es == exprs_at(start@, items@, t as int),
                        k <= items@.len(),
                        out@.len() == k,
                        count == clamp(occurrences_in(model, es, k as nat)),
                        forall|j: int| 0 <= j < k ==> #[trigger] out@[j] < self@.len(),
                        forall|j: int|
                            0 <= j < k ==> expr_at(self@, #[trigger] out@[j] as int) == rewrite(
                                model,
                                es[j],
                            ),
                    decreases items@.len() - k,
                {
                    assert(shape_ok(start@[t as int], t as int));
                    assert(items@[k as int] < t);
                    assert(es[k as int] == expr_at(start@, items@[k as int] as int));
                    let ghost mid = *self;
                    proof {
                        mid.lemma_extends_expr(&start, items@[k as int] as int);
                        mid.lemma_extends_expr(&start, inv.body as int);
                    }
                    let (x, n) = self.rewrite(inv, items[k]);
                    proof {
                        self.lemma_extends_trans(&mid, &start);
                        assert forall|j: int| 0 <= j < k implies expr_at(
                            self@,
                            #[trigger] out@[j] as int,
                        ) == rewrite(model, es[j]) by {
                            self.lemma_extends_expr(&mid, out@[j] as int);
                        }
                        lemma_clamp_add(
                            occurrences_in(model, es, k as nat),
                            occurrences(model, es[k as int]),
                        );
                    }
                    out.push(x);
                    count = count.saturating_add(n);
                    k += 1;
                }
                let ghost mid = *self;
                let ghost list = out@;
                assert(shape_ok(start@[t as int], t as int));
                let r = self.insert(Node::App(out)).unwrap();
                proof {
                    self.lemma_extends_trans(&mid, &start);
                    assert(exprs_at(mid@, list, mid@.len() as int) =~= rewrite_children(
                        model,
                        start.expr(t as int),
                    )->App_0);
                }
                (r, count)
            },
            _ => (t, 0),
        }
    }
}

/// An occurrence of an invention in a stored expression.
#[derive(Debug, PartialEq, Eq)]
pub struct Occurrence {
    /// The slot of what the call replaced.
    pub replaced: usize,
    /// The slots of the arguments of the call.
    pub args: Vec<usize>,
}

impl Occurrence {
    /// The occurrence, read in `store`.
    pub open spec fn view_in(&self, store: &ExprStore) -> Site {
        Site { replaced: store.expr(self.replaced as int), args: store.exprs(self.args@) }
    }

    /// The occurrence refers to slots of `store`.
    pub open spec fn fits(&self, store: &ExprStore) -> bool {
        &&& self.replaced < store@.len()
        &&& forall|k: int| 0 <= k < self.args@.len() ==> #[trigger] self.args@[k] < store@.len()
    }
}

/// The occurrences of a list, read in `store`.
pub open spec fn sites_view(store: &ExprStore, list: Seq<Occurrence>) -> Seq<Site> {
    Seq::new(list.len(), |k: int| list[k].view_in(store))
}

/// Every occurrence of the list refers to slots of `store`.
pub open spec fn sites_fit(store: &ExprStore, list: Seq<Occurrence>) -> bool {
    forall|k: int| 0 <= k < list.len() ==> (#[trigger] list[k]).fits(store)
}

/// Occurrences mean the same in a store that extends the one they were
/// found in.
pub proof fn lemma_sites_extend(new: &ExprStore, old: &ExprStore, list: Seq<Occurrence>)
    requires
        new.extends(old),
        sites_fit(old, list),
    ensures
        sites_fit(new, list),
        sites_view(new, list) == sites_view(old, list),
{
    assert forall|k: int| 0 <= k < list.len() implies (#[trigger] list[k]).fits(new) && list[k].view_in(
        new,
    ) == list[k].view_in(old) by {
        assert(list[k].fits(old));
        new.lemma_extends_expr(old, list[k].replaced as int);
        new.lemma_extends_exprs(old, list[k].args@);
    }
    assert(sites_view(new, list) =~= sites_view(old, list));
}

impl ExprStore {
    /// Rewrites the expression at `t` as [`ExprStore::rewrite`] does, and
    /// appends to `found` the occurrences that it replaces by calls, in the
    /// order in which it does.
    pub fn rewrite_listing(&mut self, inv: &Invention, t: usize, found: &mut Vec<Occurrence>) -> (r:
        usize)
        requires
            old(self).wf(),
            inv.fits(old(self)),
            t < old(self)@.len(),
            sites_fit(old(self), old(found)@),
        ensures
            final(self).wf(),
            final(self).extends(old(self)),
            r < final(self)@.len(),
            final(self).expr(r as int) == rewrite(
                inv.view_in(old(self)),
                old(self).expr(t as int),
            ),
            sites_fit(final(self), final(found)@),
            sites_view(final(self), final(found)@) == sites_view(old(self), old(found)@) + sites(
                inv.view_in(old(self)),
                old(self).expr(t as int),
            ),
        decreases t, 1nat,
    {
        let ghost start = *self;
        let ghost before = found@;
        let ghost model = inv.view_in(&start);
        let inner = self.list_children(inv, t, found);
        let ghost mid = *self;
        let ghost below = found@;
        proof {
            mid.lemma_extends_expr(&start, inv.body as int);
        }
        match self.match_at(inv.body, inv.arity, inner) {
            Some(args) => {
                let ghost low = *self;
                let kept = vstd::slice::slice_to_vec(args.as_slice());
                let r = self.call(inv, args);
                proof {
                    self.lemma_extends_trans(&low, &mid);
                    self.lemma_extends_trans(&mid, &start);
                    lemma_sites_extend(self, &mid, below);
                    self.lemma_extends_expr(&mid, inner as int);
                    self.lemma_extends_exprs(&low, kept@);
                }
                found.push(Occurrence { replaced: inner, args: kept });
                proof {
                    assert(sites_view(self, found@) =~= sites_view(self, below).push(
                        Site { replaced: self.expr(inner as int), args: self.exprs(kept@) },
                    ));
                    assert forall|k: int| 0 <= k < found@.len() implies (#[trigger] found@[k]).fits(
                        self,
                    ) by {
                        if k < below.len() {
                            assert(found@[k] == below[k]);
                            assert(below[k].fits(self));
                        }
                    }
                }
                r
            },
            None => {
                proof {
                    self.lemma_extends_trans(&mid, &start);
                    self.lemma_extends_expr(&mid, inner as int);
                    lemma_sites_extend(self, &mid, below);
                }
                inner
            },
        }
    }

    /// Rewrites the children of the expression at `t` and lists the
    /// occurrences replaced in them.
    fn list_children(&mut self, inv: &Invention, t: usize, found: &mut Vec<Occurrence>) -> (r: usize)
        requires
            old(self).wf(),
            inv.fits(old(self)),
            t < old(self)@.len(),
            sites_fit(old(self), old(found)@),
        ensures
            final(self).wf(),
            final(self).extends(old(self)),
            r < final(self)@.len(),
            final(self).expr(r as int) == rewrite_children(
                inv.view_in(old(self)),
                old(self).expr(t as int),
            ),
            sites_fit(final(self), final(found)@),
            sites_view(final(self), final(found)@) == sites_view(old(self), old(found)@) + (
            match old(self).expr(t as int) {
                Expr::Lam(_, body) => sites(inv.view_in(old(self)), *body),
                Expr::App(items) => sites_in(inv.view_in(old(self)), items, items.len()),
                _ => Seq::empty(),
            }),
        decreases t, 0nat,
    {
        let ghost start = *self;
        let ghost before = sites_view(&start, found@);
        let ghost model = inv.view_in(&start);
        match self.get(t) {
            Node::Lam { params, body } => {
                assert(shape_ok(start@[t as int], t as int));
                let b = self.rewrite_listing(inv, body, found);
                let ghost mid = *self;
                let ghost list = found@;
                let r = self.insert(Node::Lam { params, body: b }).unwrap();
                proof {
                    self.lemma_extends_trans(&mid, &start);
                    lemma_sites_extend(self, &mid, list);
                }
                r
            },
            Node::App(items) => {
                let ghost es = exprs_at(start@, items@, t as int);
                assert(start.expr(t as int)->App_0 == es);
                let mut out: Vec<usize> = Vec::new();
                let mut k: usize = 0;
                proof {
                    assert(sites_view(self, found@) =~= before + sites_in(model, es, 0));
                }
                while k < items.len()
                    invariant
                        self.wf(),
                        self.extends(&start),
                        start.wf(),
                        inv.fits(&start),
                        model == inv.view_in(&start),
                        t < start@.len(),
                        start@[t as int] == Shape::App(items@),
                        es == exprs_at(start@, items@, t as int),
                        k <= items@.len(),
                        out@.len() == k,
                        sites_fit(self, found@),
                        sites_view(self, found@) == before + sites_in(model, es, k as nat),
                        forall|j: int| 0 <= j < k ==> #[trigger] out@[j] < self@.len(),
                        forall|j: int|
                            0 <= j < k ==> expr_at(self@, #[trigger] out@[j] as int) == rewrite(
                                model,
                                es[j],
                            ),
                    decreases items@.len() - k,
                {
                    assert(shape_ok(start@[t as int], t as int));
                    assert(items@[k as int] < t);
                    assert(es[k as int] == expr_at(start@, items@[k as int] as int));
                    let ghost mid = *self;
                    proof {
                        mid.lemma_extends_expr(&start, items@[k as int] as int);
                        mid.lemma_extends_expr(&start, inv.body as int);
                    }
                    let x = self.rewrite_listing(inv, items[k], found);
                    proof {
                        self.lemma_extends_trans(&mid, &start);
                        assert forall|j: int| 0 <= j < k implies expr_at(
                            self@,
                            #[trigger] out@[j] as int,
                        ) == rewrite(model, es[j]) by {
                            self.lemma_extends_expr(&mid, out@[j] as int);
                        }
                        assert(sites_view(self, found@) =~= before + sites_in(
                            model,
                            es,
                            (k + 1) as nat,
                        ));
                    }
                    out.push(x);
                    k += 1;
                }
                let ghost mid = *self;
                let ghost list = out@;
                let ghost listed = found@;
                assert(shape_ok(start@[t as int], t as int));
                let r = self.insert(Node::App(out)).unwrap();
                proof {
                    self.lemma_extends_trans(&mid, &start);
                    lemma_sites_extend(self, &mid, listed);
                    assert(exprs_at(mid@, list, mid@.len() as int) =~= rewrite_children(
                        model,
                        start.expr(t as int),
                    )->App_0);
                }
                r
            },
            _ => {
                proof {
                    assert(sites_view(self, found@) =~= before + Seq::<Site>::empty());
                }
                t
            },
        }
    }
}

} // verus!
