//! Filling the parameter slots of a stored pattern: what a call of an
//! invention stands for.

use vstd::prelude::*;
use crate::debruijn::lift;
use crate::expr::{wf, Expr};
use crate::invention::unfold;
use crate::pattern::instantiate;
use crate::rewriter::Invention;
use crate::scope::{deeper, level};
use crate::store::{expr_at, exprs_at, lemma_expr_wf, shape_ok, ExprStore, Node, Shape};

verus! {

impl ExprStore {
    /// Interns the expression at `idx` moved under `span` more binders:
    /// its variables that point past the `cut` nearest binders point `span`
    /// further. `None` if a variable would get an index that does not fit
    /// a machine word.
    pub(crate) fn lift_at(
        &mut self,
        idx: usize,
        cut: Option<usize>,
        span: Option<usize>,
        Ghost(c): Ghost<nat>,
        Ghost(s): Ghost<nat>,
    ) -> (r: Option<usize>)
        requires
            old(self).wf(),
            idx < old(self)@.len(),
            level(cut, c),
            level(span, s),
        ensures
            final(self).wf(),
            final(self).extends(old(self)),
            r is Some <==> wf(lift(old(self).expr(idx as int), c, s)),
            r matches Some(x) ==> x < final(self)@.len() && final(self).expr(x as int) == lift(
                old(self).expr(idx as int),
                c,
                s,
            ),
        decreases idx, 1nat,
    {
        let ghost start = *self;
        proof {
            lemma_expr_wf(start@, idx as int);
        }
        match self.get(idx) {
            Node::Var(i) => self.lift_var(idx, i, cut, span, Ghost(c), Ghost(s)),
            Node::Lam { params, body } => self.lift_lam(
                idx,
                params,
                body,
                cut,
                span,
                Ghost(c),
                Ghost(s),
            ),
            Node::App(items) => self.lift_app(idx, items, cut, span, Ghost(c), Ghost(s)),
            _ => Some(idx),
        }
    }

    /// Moves the binder stored at `idx`.
    fn lift_lam(
        &mut self,
        idx: usize,
        params: usize,
        body: usize,
        cut: Option<usize>,
        span: Option<usize>,
        Ghost(c): Ghost<nat>,
        Ghost(s): Ghost<nat>,
    ) -> (r: Option<usize>)
        requires
            old(self).wf(),
            idx < old(self)@.len(),
            old(self)@[idx as int] == (Shape::Lam { params, body }),
            level(cut, c),
            level(span, s),
        ensures
            final(self).wf(),
            final(self).extends(old(self)),
            r is Some <==> wf(lift(old(self).expr(idx as int), c, s)),
            r matches Some(x) ==> x < final(self)@.len() && final(self).expr(x as int) == lift(
                old(self).expr(idx as int),
                c,
                s,
            ),
        decreases idx, 0nat,
    {
        let ghost start = *self;
        assert(shape_ok(start@[idx as int], idx as int));
        let inner = deeper(cut, params);
        let ghost whole = lift(start.expr(idx as int), c, s);
        assert(whole == Expr::Lam(
            params as nat,
            Box::new(lift(start.expr(body as int), c + params as nat, s)),
        ));
        match self.lift_at(body, inner, span, Ghost(c + params as nat), Ghost(s)) {
            Some(b) => {
                let ghost mid = *self;
                let r = self.insert(Node::Lam { params, body: b });
                proof {
                    self.lemma_extends_trans(&mid, &start);
                    assert(r is Some);
                }
                r
            },
            None => None,
        }
    }

    /// Moves the variable `i`, stored at `idx`.
    fn lift_var(
        &mut self,
        idx: usize,
        i: usize,
        cut: Option<usize>,
        span: Option<usize>,
        Ghost(c): Ghost<nat>,
        Ghost(s): Ghost<nat>,
    ) -> (r: Option<usize>)
        requires
            old(self).wf(),
            idx < old(self)@.len(),
            old(self)@[idx as int] == Shape::Var(i),
            level(cut, c),
            level(span, s),
        ensures
            final(self).wf(),
            final(self).extends(old(self)),
            r is Some <==> wf(lift(Expr::Var(i as nat), c, s)),
            r matches Some(x) ==> x < final(self)@.len() && final(self).expr(x as int) == lift(
                Expr::Var(i as nat),
                c,
                s,
            ),
    {
        let moves = match cut {
            Some(x) => i >= x,
            None => false,
        };
        if !moves {
            return Some(idx);
        }
        let target = match span {
            Some(y) => i.checked_add(y),
            None => None,
        };
        match target {
            Some(j) => {
                let r = self.insert(Node::Var(j));
                r
            },
            None => None,
        }
    }

    /// Moves the application stored at `idx`, item by item.
    fn lift_app(
        &mut self,
        idx: usize,
        items: Vec<usize>,
        cut: Option<usize>,
        span: Option<usize>,
        Ghost(c): Ghost<nat>,
        Ghost(s): Ghost<nat>,
    ) -> (r: Option<usize>)
        requires
            old(self).wf(),
            idx < old(self)@.len(),
            old(self)@[idx as int] == Shape::App(items@),
            level(cut, c),
            level(span, s),
        ensures
            final(self).wf(),
            final(self).extends(old(self)),
            r is Some <==> wf(lift(old(self).expr(idx as int), c, s)),
            r matches Some(x) ==> x < final(self)@.len() && final(self).expr(x as int) == lift(
                old(self).expr(idx as int),
                c,
                s,
            ),
        decreases idx, 0nat,
    {
        let ghost start = *self;
        let ghost es = exprs_at(start@, items@, idx as int);
        assert(start.expr(idx as int)->App_0 == es);
        let mut out: Vec<usize> = Vec::new();
        let mut k: usize = 0;
        while k < items.len()
            invariant
                self.wf(),
                self.extends(&start),
                start == *old(self),
                start.wf(),
                idx < start@.len(),
                start@[idx as int] == Shape::App(items@),
                es == exprs_at(start@, items@, idx as int),
                start.expr(idx as int) == Expr::App(es),
                level(cut, c),
                level(span, s),
                k <= items@.len(),
                out@.len() == k,
                forall|j: int| 0 <= j < k ==> #[trigger] out@[j] < self@.len(),
                forall|j: int|
                    0 <= j < k ==> expr_at(self@, #[trigger] out@[j] as int) == lift(es[j], c, s),
                forall|j: int| 0 <= j < k ==> wf(lift(#[trigger] es[j], c, s)),
            decreases items@.len() - k,
        {
            assert(shape_ok(start@[idx as int], idx as int));
            assert(items@[k as int] < idx);
            assert(es[k as int] == expr_at(start@, items@[k as int] as int));
            let ghost mid = *self;
            proof {
                mid.lemma_extends_expr(&start, items@[k as int] as int);
            }
            let moved = self.lift_at(items[k], cut, span, Ghost(c), Ghost(s));
            proof {
                self.lemma_extends_trans(&mid, &start);
                assert forall|j: int| 0 <= j < k implies expr_at(self@, #[trigger] out@[j] as int)
                    == lift(es[j], c, s) by {
                    self.lemma_extends_expr(&mid, out@[j] as int);
                }
            }
            match moved {
                Some(x) => {
                    out.push(x);
                },
                None => {
                    proof {
                        let whole = lift(start.expr(idx as int), c, s);
                        assert(whole->App_0[k as int] == lift(es[k as int], c, s));
                    }
                    return None;
                },
            }
            k += 1;
        }
        let ghost mid = *self;
        let ghost list = out@;
        assert(shape_ok(start@[idx as int], idx as int));
        let r = self.insert(Node::App(out));
        proof {
            self.lemma_extends_trans(&mid, &start);
            let whole = lift(start.expr(idx as int), c, s);
            assert(exprs_at(mid@, list, mid@.len() as int) =~= whole->App_0);
            assert forall|j: int| 0 <= j < whole->App_0.len() implies wf(
                #[trigger] whole->App_0[j],
            ) by {
                assert(wf(lift(es[j], c, s)));
            }
        }
        r
    }

    /// Interns the pattern at `p`, standing under `depth` binders of its
    /// own, with each parameter slot `#i` replaced by the expression at
    /// `args[i]`. `None` if a variable would get an index that does not fit
    /// a machine word.
    #[verifier::rlimit(30)]
    pub(crate) fn instantiate_at(
        &mut self,
        p: usize,
        args: &Vec<usize>,
        depth: Option<usize>,
        Ghost(d): Ghost<nat>,
    ) -> (r: Option<usize>)
        requires
            old(self).wf(),
            p < old(self)@.len(),
            forall|i: int| 0 <= i < args@.len() ==> #[trigger] args@[i] < old(self)@.len(),
            level(depth, d),
        ensures
            final(self).wf(),
            final(self).extends(old(self)),
            r is Some <==> wf(instantiate(old(self).expr(p as int), old(self).exprs(args@), d)),
            r matches Some(x) ==> x < final(self)@.len() && final(self).expr(x as int)
                == instantiate(old(self).expr(p as int), old(self).exprs(args@), d),
        decreases p, 1nat,
    {
        let ghost start = *self;
        let ghost given = start.exprs(args@);
        proof {
            lemma_expr_wf(start@, p as int);
        }
        match self.get(p) {
            Node::Param(i) => {
                if i < args.len() {
                    assert(given[i as int] == start.expr(args@[i as int] as int));
                    self.lift_at(args[i], Some(0), depth, Ghost(0), Ghost(d))
                } else {
                    Some(p)
                }
            },
            Node::Lam { params, body } => {
                assert(shape_ok(start@[p as int], p as int));
                let inner = deeper(depth, params);
                match self.instantiate_at(body, args, inner, Ghost(d + params as nat)) {
                    Some(b) => {
                        let ghost mid = *self;
                        let r = self.insert(Node::Lam { params, body: b });
                        proof {
                            self.lemma_extends_trans(&mid, &start);
                        }
                        r
                    },
                    None => None,
                }
            },
            Node::App(items) => self.instantiate_app(p, items, args, depth, Ghost(d)),
            _ => Some(p),
        }
    }

    /// Fills the slots of the application stored at `p`, item by item.
    #[verifier::rlimit(30)]
    fn instantiate_app(
        &mut self,
        p: usize,
        items: Vec<usize>,
        args: &Vec<usize>,
        depth: Option<usize>,
        Ghost(d): Ghost<nat>,
    ) -> (r: Option<usize>)
        requires
            old(self).wf(),
            p < old(self)@.len(),
            old(self)@[p as int] == Shape::App(items@),
            forall|i: int| 0 <= i < args@.len() ==> #[trigger] args@[i] < old(self)@.len(),
            level(depth, d),
        ensures
            final(self).wf(),
            final(self).extends(old(self)),
            r is Some <==> wf(instantiate(old(self).expr(p as int), old(self).exprs(args@), d)),
            r matches Some(x) ==> x < final(self)@.len() && final(self).expr(x as int)
                == instantiate(old(self).expr(p as int), old(self).exprs(args@), d),
        decreases p, 0nat,
    {
        let ghost start = *self;
        let ghost given = start.exprs(args@);
        let ghost es = exprs_at(start@, items@, p as int);
        assert(start.expr(p as int)->App_0 == es);
        let mut out: Vec<usize> = Vec::new();
        let mut k: usize = 0;
        while k < items.len()
            invariant
                self.wf(),
                self.extends(&start),
                start == *old(self),
                start.wf(),
                p < start@.len(),
                start@[p as int] == Shape::App(items@),
                es == exprs_at(start@, items@, p as int),
                start.expr(p as int) == Expr::App(es),
                given == start.exprs(args@),
                forall|i: int| 0 <= i < args@.len() ==> #[trigger] args@[i] < start@.len(),
                level(depth, d),
                k <= items@.len(),
                out@.len() == k,
                forall|j: int| 0 <= j < k ==> #[trigger] out@[j] < self@.len(),
                forall|j: int|
                    0 <= j < k ==> expr_at(self@, #[trigger] out@[j] as int)
                        == instantiate(es[j], given, d),
                forall|j: int| 0 <= j < k ==> wf(instantiate(#[trigger] es[j], given, d)),
            decreases items@.len() - k,
        {
            assert(shape_ok(start@[p as int], p as int));
            assert(items@[k as int] < p);
            assert(es[k as int] == expr_at(start@, items@[k as int] as int));
            let ghost mid = *self;
            proof {
                mid.lemma_extends_expr(&start, items@[k as int] as int);
                mid.lemma_extends_exprs(&start, args@);
            }
            let filled = self.instantiate_at(items[k], args, depth, Ghost(d));
            proof {
                self.lemma_extends_trans(&mid, &start);
                assert forall|j: int| 0 <= j < k implies expr_at(
                    self@,
                    #[trigger] out@[j] as int,
                ) == instantiate(es[j], given, d) by {
                    self.lemma_extends_expr(&mid, out@[j] as int);
                }
            }
            match filled {
                Some(x) => {
                    out.push(x);
                },
                None => {
                    proof {
                        let whole = instantiate(start.expr(p as int), given, d);
                        assert(whole->App_0[k as int] == instantiate(
                            es[k as int],
                            given,
                            d,
                        ));
                    }
                    return None;
                },
            }
            k += 1;
        }
        let ghost mid = *self;
        let ghost list = out@;
        assert(shape_ok(start@[p as int], p as int));
        let r = self.insert(Node::App(out));
        proof {
            self.lemma_extends_trans(&mid, &start);
            let whole = instantiate(start.expr(p as int), given, d);
            assert(exprs_at(mid@, list, mid@.len() as int) =~= whole->App_0);
            assert forall|j: int| 0 <= j < whole->App_0.len() implies wf(
                #[trigger] whole->App_0[j],
            ) by {
                assert(wf(instantiate(es[j], given, d)));
            }
        }
        r
    }

    /// Interns the expression at `idx` moved under `span` more binders:
    /// each of its free variables points `span` further. `None` if a
    /// variable would get an index that does not fit a machine word.
    pub fn lift(&mut self, idx: usize, span: usize) -> (r: Option<usize>)
        requires
            old(self).wf(),
            idx < old(self)@.len(),
        ensures
            final(self).wf(),
            final(self).extends(old(self)),
            r is Some <==> wf(lift(old(self).expr(idx as int), 0, span as nat)),
            r matches Some(x) ==> x < final(self)@.len() && final(self).expr(x as int) == lift(
                old(self).expr(idx as int),
                0,
                span as nat,
            ),
    {
        self.lift_at(idx, Some(0), Some(span), Ghost(0), Ghost(span as nat))
    }

    /// Interns the pattern at `p` with each parameter slot `#i` replaced by
    /// the expression at `args[i]`. `None` if a variable would get an index
    /// that does not fit a machine word.
    pub fn instantiate(&mut self, p: usize, args: &Vec<usize>) -> (r: Option<usize>)
        requires
            old(self).wf(),
            p < old(self)@.len(),
            forall|i: int| 0 <= i < args@.len() ==> #[trigger] args@[i] < old(self)@.len(),
        ensures
            final(self).wf(),
            final(self).extends(old(self)),
            r is Some <==> wf(instantiate(old(self).expr(p as int), old(self).exprs(args@), 0)),
            r matches Some(x) ==> x < final(self)@.len() && final(self).expr(x as int)
                == instantiate(old(self).expr(p as int), old(self).exprs(args@), 0),
    {
        self.instantiate_at(p, args, Some(0), Ghost(0))
    }

    /// Interns what a call of `inv` with the arguments at `args` stands
    /// for: the body with the arguments in its parameter slots. `None` if a
    /// variable would get an index that does not fit a machine word.
    pub fn unfold(&mut self, inv: &Invention, args: &Vec<usize>) -> (r: Option<usize>)
        requires
            old(self).wf(),
            inv.fits(old(self)),
            forall|i: int| 0 <= i < args@.len() ==> #[trigger] args@[i] < old(self)@.len(),
        ensures
            final(self).wf(),
            final(self).extends(old(self)),
            r is Some <==> wf(unfold(inv.view_in(old(self)), old(self).exprs(args@))),
            r matches Some(x) ==> x < final(self)@.len() && final(self).expr(x as int) == unfold(
                inv.view_in(old(self)),
                old(self).exprs(args@),
            ),
    {
        self.instantiate(inv.body, args)
    }
}

} // verus!
