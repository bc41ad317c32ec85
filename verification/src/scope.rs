//! De Bruijn arithmetic on stored expressions.

use vstd::prelude::*;
use crate::debruijn::{closed_at, free_from, lower, no_params, params_below, uses_symbol};
use crate::expr::Expr;
use crate::store::{bytes_eq, expr_at, exprs_at, shape_ok, ExprStore, Node, Shape};

verus! {

/// A binder depth as the machine holds it: `None` stands for a depth beyond
/// every index that fits a machine word.
pub open spec fn level(d: Option<usize>, c: nat) -> bool {
    match d {
        Some(x) => c == x,
        None => c > usize::MAX,
    }
}

/// The depth `d` under `n` more binders.
pub fn deeper(d: Option<usize>, n: usize) -> (r: Option<usize>)
    ensures
        forall|c: nat| #[trigger] level(d, c) ==> level(r, c + n as nat),
{
    match d {
        Some(x) => x.checked_add(n),
        None => None,
    }
}

impl ExprStore {
    /// Whether no variable of the expression at `idx` refers to one of the
    /// `span` binders next after the `cut` nearest ones.
    pub(crate) fn free_from_at(
        &self,
        idx: usize,
        cut: Option<usize>,
        span: Option<usize>,
        Ghost(c): Ghost<nat>,
        Ghost(s): Ghost<nat>,
    ) -> (r: bool)
        requires
            self.wf(),
            idx < self@.len(),
            level(cut, c),
            level(span, s),
        ensures
            r == free_from(self.expr(idx as int), c, s),
        decreases idx,
    {
        match self.node(idx) {
            Node::Var(i) => match cut {
                None => true,
                Some(x) => if *i < x {
                    true
                } else {
                    match span {
                        None => false,
                        Some(y) => *i - x >= y,
                    }
                },
            },
            Node::Lam { params, body } => {
                let inner = deeper(cut, *params);
                self.free_from_at(*body, inner, span, Ghost(c + *params as nat), Ghost(s))
            },
            Node::App(items) => {
                let ghost es = exprs_at(self@, items@, idx as int);
                let mut k: usize = 0;
                while k < items.len()
                    invariant
                        self.wf(),
                        idx < self@.len(),
                        self@[idx as int] == Shape::App(items@),
                        es == exprs_at(self@, items@, idx as int),
                        self.expr(idx as int) == Expr::App(es),
                        level(cut, c),
                        level(span, s),
                        k <= items@.len(),
                        forall|j: int| 0 <= j < k ==> free_from(#[trigger] es[j], c, s),
                    decreases items@.len() - k,
                {
                    assert(items@[k as int] < idx);
                    assert(es[k as int] == expr_at(self@, items@[k as int] as int));
                    if !self.free_from_at(items[k], cut, span, Ghost(c), Ghost(s)) {
                        assert(!free_from(es[k as int], c, s));
                        assert(self.expr(idx as int)->App_0 == es);
                        return false;
                    }
                    k += 1;
                }
                true
            },
            _ => true,
        }
    }

    /// Whether the expression at `idx` refers to none of the `span` binders
    /// nearest around it.
    pub fn is_free_from(&self, idx: usize, span: usize) -> (r: bool)
        requires
            self.wf(),
            idx < self@.len(),
        ensures
            r == free_from(self.expr(idx as int), 0, span as nat),
    {
        self.free_from_at(idx, Some(0), Some(span), Ghost(0), Ghost(span as nat))
    }

    /// Whether every variable of the expression at `idx` is bound inside it
    /// or by one of the `depth` nearest binders around it.
    pub(crate) fn closed_under(&self, idx: usize, depth: Option<usize>, Ghost(d): Ghost<nat>) -> (r: bool)
        requires
            self.wf(),
            idx < self@.len(),
            level(depth, d),
        ensures
            r == closed_at(self.expr(idx as int), d),
        decreases idx,
    {
        match self.node(idx) {
            Node::Var(i) => match depth {
                None => true,
                Some(x) => *i < x,
            },
            Node::Lam { params, body } => {
                let inner = deeper(depth, *params);
                self.closed_under(*body, inner, Ghost(d + *params as nat))
            },
            Node::App(items) => {
                let ghost es = exprs_at(self@, items@, idx as int);
                let mut k: usize = 0;
                while k < items.len()
                    invariant
                        self.wf(),
                        idx < self@.len(),
                        self@[idx as int] == Shape::App(items@),
                        es == exprs_at(self@, items@, idx as int),
                        self.expr(idx as int) == Expr::App(es),
                        level(depth, d),
                        k <= items@.len(),
                        forall|j: int| 0 <= j < k ==> closed_at(#[trigger] es[j], d),
                    decreases items@.len() - k,
                {
                    assert(items@[k as int] < idx);
                    assert(es[k as int] == expr_at(self@, items@[k as int] as int));
                    if !self.closed_under(items[k], depth, Ghost(d)) {
                        assert(!closed_at(es[k as int], d));
                        assert(self.expr(idx as int)->App_0 == es);
                        return false;
                    }
                    k += 1;
                }
                true
            },
            _ => true,
        }
    }

    /// Whether the expression at `idx` has no free variable.
    pub fn is_closed(&self, idx: usize) -> (r: bool)
        requires
            self.wf(),
            idx < self@.len(),
        ensures
            r == closed_at(self.expr(idx as int), 0),
    {
        self.closed_under(idx, Some(0), Ghost(0))
    }

    /// Whether every parameter slot of the expression at `idx` has an index
    /// below `arity`.
    pub fn has_params_below(&self, idx: usize, arity: usize) -> (r: bool)
        requires
            self.wf(),
            idx < self@.len(),
        ensures
            r == params_below(self.expr(idx as int), arity as nat),
        decreases idx,
    {
        match self.node(idx) {
            Node::Param(i) => *i < arity,
            Node::Lam { params, body } => self.has_params_below(*body, arity),
            Node::App(items) => {
                let ghost es = exprs_at(self@, items@, idx as int);
                let mut k: usize = 0;
                while k < items.len()
                    invariant
                        self.wf(),
                        idx < self@.len(),
                        self@[idx as int] == Shape::App(items@),
                        es == exprs_at(self@, items@, idx as int),
                        self.expr(idx as int) == Expr::App(es),
                        k <= items@.len(),
                        forall|j: int| 0 <= j < k ==> params_below(#[trigger] es[j], arity as nat),
                    decreases items@.len() - k,
                {
                    assert(items@[k as int] < idx);
                    assert(es[k as int] == expr_at(self@, items@[k as int] as int));
                    if !self.has_params_below(items[k], arity) {
                        assert(!params_below(es[k as int], arity as nat));
                        assert(self.expr(idx as int)->App_0 == es);
                        return false;
                    }
                    k += 1;
                }
                true
            },
            _ => true,
        }
    }

    /// Whether the expression at `idx` holds no parameter slot.
    pub fn has_no_params(&self, idx: usize) -> (r: bool)
        requires
            self.wf(),
            idx < self@.len(),
        ensures
            r == no_params(self.expr(idx as int)),
    {
        proof {
            lemma_params_below_zero(self.expr(idx as int));
        }
        self.has_params_below(idx, 0)
    }

    /// Whether the expression at `idx` holds the symbol `name`.
    pub fn mentions_symbol(&self, idx: usize, name: &[u8]) -> (r: bool)
        requires
            self.wf(),
            idx < self@.len(),
        ensures
            r == uses_symbol(self.expr(idx as int), name@),
        decreases idx,
    {
        match self.node(idx) {
            Node::Sym(s) => bytes_eq(s.as_slice(), name),
            Node::Lam { params, body } => self.mentions_symbol(*body, name),
            Node::App(items) => {
                let ghost es = exprs_at(self@, items@, idx as int);
                let mut k: usize = 0;
                while k < items.len()
                    invariant
                        self.wf(),
                        idx < self@.len(),
                        self@[idx as int] == Shape::App(items@),
                        es == exprs_at(self@, items@, idx as int),
                        self.expr(idx as int) == Expr::App(es),
                        k <= items@.len(),
                        forall|j: int| 0 <= j < k ==> !uses_symbol(#[trigger] es[j], name@),
                    decreases items@.len() - k,
                {
                    assert(items@[k as int] < idx);
                    assert(es[k as int] == expr_at(self@, items@[k as int] as int));
                    if self.mentions_symbol(items[k], name) {
                        assert(uses_symbol(es[k as int], name@));
                        assert(self.expr(idx as int)->App_0 == es);
                        return true;
                    }
                    k += 1;
                }
                false
            },
            _ => false,
        }
    }

    /// Interns the expression at `idx` moved out of the `span` binders next
    /// after the `cut` nearest ones.
    #[verifier::rlimit(30)]
    pub(crate) fn lower_at(
        &mut self,
        idx: usize,
        cut: Option<usize>,
        span: Option<usize>,
        Ghost(c): Ghost<nat>,
        Ghost(s): Ghost<nat>,
    ) -> (r: usize)
        requires
            old(self).wf(),
            idx < old(self)@.len(),
            level(cut, c),
            level(span, s),
        ensures
            final(self).wf(),
            final(self).extends(old(self)),
            r < final(self)@.len(),
            final(self).expr(r as int) == lower(old(self).expr(idx as int), c, s),
        decreases idx, 1nat,
    {
        let ghost start = *self;
        assert(shape_ok(start@[idx as int], idx as int));
        match self.get(idx) {
            Node::Var(i) => {
                let moved = match (cut, span) {
                    (Some(x), Some(y)) => i >= x && i - x >= y,
                    _ => false,
                };
                assert(start.expr(idx as int) == Expr::Var(i as nat));
                if moved {
                    let y = span.unwrap();
                    assert(lower(Expr::Var(i as nat), c, s) == Expr::Var((i - y) as nat));
                    let r = self.insert(Node::Var(i - y));
                    r.unwrap()
                } else {
                    assert(lower(Expr::Var(i as nat), c, s) == Expr::Var(i as nat));
                    idx
                }
            },
            Node::Lam { params, body } => {
                let inner = deeper(cut, params);
                assert(start.expr(idx as int) == Expr::Lam(
                    params as nat,
                    Box::new(start.expr(body as int)),
                ));
                let b = self.lower_at(body, inner, span, Ghost(c + params as nat), Ghost(s));
                let ghost mid = *self;
                let r = self.insert(Node::Lam { params, body: b });
                proof {
                    self.lemma_extends_trans(&mid, &start);
                }
                r.unwrap()
            },
            Node::App(items) => self.lower_app(idx, items, cut, span, Ghost(c), Ghost(s)),
            _ => idx,
        }
    }

    /// Moves the application stored at `idx`, item by item.
    #[verifier::rlimit(30)]
    fn lower_app(
        &mut self,
        idx: usize,
        items: Vec<usize>,
        cut: Option<usize>,
        span: Option<usize>,
        Ghost(c): Ghost<nat>,
        Ghost(s): Ghost<nat>,
    ) -> (r: usize)
        requires
            old(self).wf(),
            idx < old(self)@.len(),
            old(self)@[idx as int] == Shape::App(items@),
            level(cut, c),
            level(span, s),
        ensures
            final(self).wf(),
            final(self).extends(old(self)),
            r < final(self)@.len(),
            final(self).expr(r as int) == lower(old(self).expr(idx as int), c, s),
        decreases idx, 0nat,
    {
        let ghost start = *self;
        let ghost es = exprs_at(start@, items@, idx as int);
        let mut out: Vec<usize> = Vec::new();
        let mut k: usize = 0;
        while k < items.len()
            invariant
                self.wf(),
                self.extends(&start),
                start.wf(),
                idx < start@.len(),
                start@[idx as int] == Shape::App(items@),
                es == exprs_at(start@, items@, idx as int),
                level(cut, c),
                level(span, s),
                k <= items@.len(),
                out@.len() == k,
                forall|j: int| 0 <= j < k ==> #[trigger] out@[j] < self@.len(),
                forall|j: int|
                    0 <= j < k ==> expr_at(self@, #[trigger] out@[j] as int) == lower(
                        es[j],
                        c,
                        s,
                    ),
            decreases items@.len() - k,
        {
            assert(shape_ok(start@[idx as int], idx as int));
            assert(items@[k as int] < idx);
            assert(es[k as int] == expr_at(start@, items@[k as int] as int));
            let ghost mid = *self;
            proof {
                mid.lemma_extends_expr(&start, items@[k as int] as int);
            }
            let x = self.lower_at(items[k], cut, span, Ghost(c), Ghost(s));
            proof {
                self.lemma_extends_trans(&mid, &start);
                assert forall|j: int| 0 <= j < k implies expr_at(
                    self@,
                    #[trigger] out@[j] as int,
                ) == lower(es[j], c, s) by {
                    self.lemma_extends_expr(&mid, out@[j] as int);
                }
            }
            out.push(x);
            k += 1;
        }
        let ghost mid = *self;
        let ghost list = out@;
        assert(shape_ok(start@[idx as int], idx as int));
        let r = self.insert(Node::App(out)).unwrap();
        proof {
            self.lemma_extends_trans(&mid, &start);
            assert(exprs_at(mid@, list, mid@.len() as int) =~= lower(
                start.expr(idx as int),
                c,
                s,
            )->App_0);
        }
        r
    }

    /// Interns the expression at `idx` moved out of the `span` binders
    /// nearest around it.
    pub fn lower(&mut self, idx: usize, span: usize) -> (r: usize)
        requires
            old(self).wf(),
            idx < old(self)@.len(),
        ensures
            final(self).wf(),
            final(self).extends(old(self)),
            r < final(self)@.len(),
            final(self).expr(r as int) == lower(old(self).expr(idx as int), 0, span as nat),
    {
        self.lower_at(idx, Some(0), Some(span), Ghost(0), Ghost(span as nat))
    }
}

/// An expression without parameter slots is one whose slots are all below 0.
pub proof fn lemma_params_below_zero(e: Expr)
    ensures
        params_below(e, 0) == no_params(e),
    decreases e,
{
    match e {
        Expr::Lam(_, body) => {
            lemma_params_below_zero(*body);
        },
        Expr::App(items) => {
            assert forall|k: int| 0 <= k < items.len() implies params_below(#[trigger] items[k], 0)
                == no_params(items[k]) by {
                lemma_params_below_zero(items[k]);
            }
        },
        _ => {},
    }
}

} // verus!
