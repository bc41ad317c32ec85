//! The sub-expressions of a corpus: where candidates are looked for.

use vstd::prelude::*;
use crate::expr::Expr;
use crate::store::{
    expr_at, exprs_at, lemma_canonical, shape_ok, valid_nodes, ExprStore, Node, Shape,
};

verus! {

/// Whether `s` occurs in `t`, as `t` itself or inside it.
pub open spec fn subterm(s: Expr, t: Expr) -> bool
    decreases t,
{
    s == t || match t {
        Expr::Lam(_, body) => subterm(s, *body),
        Expr::App(items) => exists|k: int| 0 <= k < items.len() && subterm(s, #[trigger] items[k]),
        _ => false,
    }
}

/// Whether `s` occurs in one of the programs.
pub open spec fn in_corpus(s: Expr, programs: Seq<Expr>) -> bool {
    exists|i: int| 0 <= i < programs.len() && subterm(s, #[trigger] programs[i])
}

/// What occurs in a sub-expression occurs in the expression.
pub proof fn lemma_subterm_trans(a: Expr, b: Expr, c: Expr)
    requires
        subterm(a, b),
        subterm(b, c),
    ensures
        subterm(a, c),
    decreases c,
{
    if b != c {
        match c {
            Expr::Lam(_, body) => {
                lemma_subterm_trans(a, b, *body);
            },
            Expr::App(items) => {
                let k = choose|k: int| 0 <= k < items.len() && subterm(b, #[trigger] items[k]);
                lemma_subterm_trans(a, b, items[k]);
            },
            _ => {},
        }
    }
}

/// The children of slot `x` are marked.
pub open spec fn children_marked(nodes: Seq<Shape>, marks: Seq<bool>, x: int) -> bool {
    match nodes[x] {
        Shape::Lam { params, body } => marks[body as int],
        Shape::App(items) => forall|k: int| 0 <= k < items.len() ==> marks[#[trigger] items[k] as int],
        _ => true,
    }
}

/// From slot `from` on, the children of marked slots are marked.
pub open spec fn marks_closed(nodes: Seq<Shape>, marks: Seq<bool>, from: int) -> bool {
    forall|x: int|
        from <= x < nodes.len() && #[trigger] marks[x] ==> children_marked(nodes, marks, x)
}

/// Every marked slot denotes a sub-expression of a program.
pub open spec fn marks_sound(nodes: Seq<Shape>, marks: Seq<bool>, programs: Seq<Expr>) -> bool {
    forall|x: int| 0 <= x < nodes.len() && #[trigger] marks[x] ==> in_corpus(expr_at(nodes, x), programs)
}

/// With closed marks, what occurs in a marked slot is itself marked.
pub proof fn lemma_marks_complete(nodes: Seq<Shape>, marks: Seq<bool>, r: int, s: Expr)
    requires
        valid_nodes(nodes),
        marks.len() == nodes.len(),
        marks_closed(nodes, marks, 0),
        0 <= r < nodes.len(),
        marks[r],
        subterm(s, expr_at(nodes, r)),
    ensures
        exists|x: int| 0 <= x < nodes.len() && marks[x] && expr_at(nodes, x) == s,
    decreases r,
{
    let e = expr_at(nodes, r);
    assert(shape_ok(nodes[r], r));
    assert(children_marked(nodes, marks, r));
    if s != e {
        match nodes[r] {
            Shape::Lam { params, body } => {
                lemma_marks_complete(nodes, marks, body as int, s);
            },
            Shape::App(items) => {
                let es = exprs_at(nodes, items, r);
                assert(e->App_0 == es);
                let k = choose|k: int| 0 <= k < es.len() && subterm(s, #[trigger] es[k]);
                assert(es[k] == expr_at(nodes, items[k] as int));
                assert(marks[items[k] as int]);
                lemma_marks_complete(nodes, marks, items[k] as int, s);
            },
            _ => {},
        }
    }
}

/// The child at `c` of the slot `x` denotes a sub-expression of what `x`
/// denotes.
pub proof fn lemma_child_subterm(nodes: Seq<Shape>, x: int, c: int)
    requires
        valid_nodes(nodes),
        0 <= x < nodes.len(),
        match nodes[x] {
            Shape::Lam { params, body } => body == c,
            Shape::App(items) => exists|k: int| 0 <= k < items.len() && #[trigger] items[k] == c,
            _ => false,
        },
    ensures
        subterm(expr_at(nodes, c), expr_at(nodes, x)),
{
    assert(shape_ok(nodes[x], x));
    let e = expr_at(nodes, x);
    match nodes[x] {
        Shape::App(items) => {
            let k = choose|k: int| 0 <= k < items.len() && #[trigger] items[k] == c;
            let es = exprs_at(nodes, items, x);
            assert(e->App_0 == es);
            assert(es[k] == expr_at(nodes, c));
            assert(subterm(expr_at(nodes, c), es[k]));
        },
        _ => {
            assert(subterm(expr_at(nodes, c), expr_at(nodes, c)));
        },
    }
}

/// Marks the slots that denote sub-expressions of the expressions at
/// `roots`.
pub fn mark_subterms(store: &ExprStore, roots: &Vec<usize>) -> (marks: Vec<bool>)
    requires
        store.wf(),
        forall|i: int| 0 <= i < roots@.len() ==> #[trigger] roots@[i] < store@.len(),
    ensures
        marks@.len() == store@.len(),
        forall|x: int|
            0 <= x < store@.len() ==> (#[trigger] marks@[x] <==> in_corpus(
                store.expr(x),
                store.exprs(roots@),
            )),
        forall|s: Expr| #[trigger]
            in_corpus(s, store.exprs(roots@)) ==> exists|x: int|
                0 <= x < store@.len() && marks@[x] && store.expr(x) == s,
{
    let n = store.len();
    let ghost nodes = store@;
    let ghost programs = store.exprs(roots@);
    let mut marks: Vec<bool> = Vec::new();
    let mut i: usize = 0;
    while i < n
        invariant
            i <= n,
            marks@.len() == i,
            forall|x: int| 0 <= x < i ==> !#[trigger] marks@[x],
        decreases n - i,
    {
        marks.push(false);
        i += 1;
    }
    let mut r: usize = 0;
    while r < roots.len()
        invariant
            store.wf(),
            nodes == store@,
            programs == store.exprs(roots@),
            n == nodes.len(),
            marks@.len() == n,
            r <= roots@.len(),
            forall|i: int| 0 <= i < roots@.len() ==> #[trigger] roots@[i] < n,
            forall|i: int| 0 <= i < r ==> marks@[#[trigger] roots@[i] as int],
            marks_sound(nodes, marks@, programs),
        decreases roots@.len() - r,
    {
        let root = roots[r];
        let ghost before = marks@;
        marks.set(root, true);
        proof {
            assert(programs[r as int] == expr_at(nodes, root as int));
            assert(subterm(expr_at(nodes, root as int), programs[r as int]));
            assert forall|x: int| 0 <= x < nodes.len() && #[trigger] marks@[x] implies in_corpus(
                expr_at(nodes, x),
                programs,
            ) by {
                if x != root {
                    assert(before[x]);
                }
            }
        }
        r += 1;
    }
    let mut x: usize = n;
    while x > 0
        invariant
            store.wf(),
            nodes == store@,
            programs == store.exprs(roots@),
            n == nodes.len(),
            marks@.len() == n,
            x <= n,
            forall|i: int| 0 <= i < roots@.len() ==> #[trigger] roots@[i] < n,
            forall|i: int| 0 <= i < roots@.len() ==> marks@[#[trigger] roots@[i] as int],
            marks_sound(nodes, marks@, programs),
            marks_closed(nodes, marks@, x as int),
        decreases x,
    {
        x -= 1;
        assert(shape_ok(nodes[x as int], x as int));
        if marks[x] {
            let ghost top = marks@;
            assert(in_corpus(expr_at(nodes, x as int), programs));
            let ghost home = choose|i: int|
                0 <= i < programs.len() && subterm(expr_at(nodes, x as int), #[trigger] programs[i]);
            match store.node(x) {
                Node::Lam { params, body } => {
                    marks.set(*body, true);
                    proof {
                        lemma_child_subterm(nodes, x as int, *body as int);
                        lemma_subterm_trans(
                            expr_at(nodes, *body as int),
                            expr_at(nodes, x as int),
                            programs[home],
                        );
                        assert forall|y: int|
                            0 <= y < nodes.len() && #[trigger] marks@[y] implies in_corpus(
                            expr_at(nodes, y),
                            programs,
                        ) by {
                            if y != *body {
                                assert(top[y]);
                            }
                        }
                        assert forall|y: int|
                            x <= y < nodes.len() && #[trigger] marks@[y] implies children_marked(
                            nodes,
                            marks@,
                            y,
                        ) by {
                            if y > x {
                                assert(top[y]);
                                assert(children_marked(nodes, top, y));
                                assert(shape_ok(nodes[y], y));
                            }
                        }
                    }
                },
                Node::App(items) => {
                    let mut k: usize = 0;
                    while k < items.len()
                        invariant
                            store.wf(),
                            nodes == store@,
                            programs == store.exprs(roots@),
                            n == nodes.len(),
                            marks@.len() == n,
                            x < n,
                            nodes[x as int] == Shape::App(items@),
                            0 <= home < programs.len(),
                            subterm(expr_at(nodes, x as int), programs[home]),
                            marks@[x as int],
                            forall|i: int| 0 <= i < roots@.len() ==> #[trigger] roots@[i] < n,
                            forall|i: int|
                                0 <= i < roots@.len() ==> marks@[#[trigger] roots@[i] as int],
                            marks_sound(nodes, marks@, programs),
                            marks_closed(nodes, marks@, x + 1),
                            k <= items@.len(),
                            forall|j: int| 0 <= j < k ==> marks@[#[trigger] items@[j] as int],
                        decreases items@.len() - k,
                    {
                        let c = items[k];
                        let ghost top = marks@;
                        assert(shape_ok(nodes[x as int], x as int));
                        assert(items@[k as int] < x);
                        marks.set(c, true);
                        proof {
                            lemma_child_subterm(nodes, x as int, c as int);
                            lemma_subterm_trans(
                                expr_at(nodes, c as int),
                                expr_at(nodes, x as int),
                                programs[home],
                            );
                            assert forall|y: int|
                                0 <= y < nodes.len() && #[trigger] marks@[y] implies in_corpus(
                                expr_at(nodes, y),
                                programs,
                            ) by {
                                if y != c {
                                    assert(top[y]);
                                }
                            }
                            assert forall|y: int|
                                x + 1 <= y < nodes.len() && #[trigger] marks@[y] implies children_marked(
                                nodes,
                                marks@,
                                y,
                            ) by {
                                assert(top[y]);
                                assert(children_marked(nodes, top, y));
                                assert(shape_ok(nodes[y], y));
                            }
                            assert forall|j: int| 0 <= j < k + 1 implies marks@[#[trigger] items@[j] as int] by {
                                if j < k {
                                    assert(top[items@[j] as int]);
                                }
                            }
                        }
                        k += 1;
                    }
                    proof {
                        assert(children_marked(nodes, marks@, x as int));
                    }
                },
                _ => {},
            }
        } else {
        }
    }
    proof {
        assert forall|y: int| 0 <= y < store@.len() implies (#[trigger] marks@[y] <==> in_corpus(
            store.expr(y),
            store.exprs(roots@),
        )) by {
            if in_corpus(store.expr(y), programs) {
                let i = choose|i: int|
                    0 <= i < programs.len() && subterm(store.expr(y), #[trigger] programs[i]);
                assert(programs[i] == expr_at(nodes, roots@[i] as int));
                assert(marks@[roots@[i] as int]);
                lemma_marks_complete(nodes, marks@, roots@[i] as int, store.expr(y));
                let z = choose|z: int|
                    0 <= z < nodes.len() && marks@[z] && expr_at(nodes, z) == store.expr(y);
                lemma_canonical(nodes, z, y);
            }
        }
        assert forall|s: Expr| #[trigger] in_corpus(s, store.exprs(roots@)) implies exists|x: int|
            0 <= x < store@.len() && marks@[x] && store.expr(x) == s by {
            let i = choose|i: int| 0 <= i < programs.len() && subterm(s, #[trigger] programs[i]);
            assert(programs[i] == expr_at(nodes, roots@[i] as int));
            assert(marks@[roots@[i] as int]);
            lemma_marks_complete(nodes, marks@, roots@[i] as int, s);
        }
    }
    marks
}

impl ExprStore {
    /// Whether two slots denote the same expression. Because equal
    /// expressions share a slot, this compares the indices.
    pub fn same_expr(&self, a: usize, b: usize) -> (r: bool)
        requires
            self.wf(),
            a < self@.len(),
            b < self@.len(),
        ensures
            r == (self.expr(a as int) == self.expr(b as int)),
    {
        proof {
            if self.expr(a as int) == self.expr(b as int) {
                lemma_canonical(self@, a as int, b as int);
            }
        }
        a == b
    }

    /// The slots of the sub-expressions of the expression at `idx`, each
    /// once, in the order of the arena: children before their parents and
    /// `idx` itself last.
    pub fn traverse(&self, idx: usize) -> (r: Vec<usize>)
        requires
            self.wf(),
            idx < self@.len(),
        ensures
            forall|i: int, j: int| 0 <= i < j < r@.len() ==> r@[i] < r@[j],
            forall|k: int|
                0 <= k < r@.len() ==> #[trigger] r@[k] <= idx && subterm(
                    self.expr(r@[k] as int),
                    self.expr(idx as int),
                ),
            forall|x: int|
                0 <= x < self@.len() && subterm(self.expr(x), self.expr(idx as int)) ==> r@.contains(
                    x as usize,
                ),
            r@.len() > 0,
            r@[r@.len() - 1] == idx,
    {
        let mut roots: Vec<usize> = Vec::new();
        roots.push(idx);
        let ghost top = self.expr(idx as int);
        let ghost programs = self.exprs(roots@);
        assert(programs[0] == top);
        let marks = mark_subterms(self, &roots);
        proof {
            assert forall|x: int| 0 <= x < self@.len() implies (marks@[x] <==> subterm(
                self.expr(x),
                top,
            )) by {
                if subterm(self.expr(x), top) {
                    assert(subterm(self.expr(x), programs[0]));
                }
                if marks@[x] {
                    let i = choose|i: int|
                        0 <= i < programs.len() && subterm(self.expr(x), #[trigger] programs[i]);
                    assert(i == 0);
                }
            }
            assert(subterm(top, top));
        }
        let n = self.len();
        let mut out: Vec<usize> = Vec::new();
        let mut x: usize = 0;
        while x < n
            invariant
                self.wf(),
                idx < self@.len(),
                n == self@.len(),
                marks@.len() == self@.len(),
                top == self.expr(idx as int),
                forall|y: int|
                    0 <= y < self@.len() ==> (#[trigger] marks@[y] <==> subterm(self.expr(y), top)),
                x <= n,
                forall|i: int, j: int| 0 <= i < j < out@.len() ==> out@[i] < out@[j],
                forall|k: int| 0 <= k < out@.len() ==> #[trigger] out@[k] < x && marks@[out@[k] as int],
                forall|y: int| 0 <= y < x && marks@[y] ==> out@.contains(y as usize),
            decreases n - x,
        {
            if marks[x] {
                let ghost before = out@;
                out.push(x);
                proof {
                    assert(out@[before.len() as int] == x);
                    assert forall|y: int| 0 <= y < x + 1 && marks@[y] implies out@.contains(
                        y as usize,
                    ) by {
                        if y < x {
                            let k = choose|k: int| 0 <= k < before.len() && before[k] == y as usize;
                            assert(out@[k] == y as usize);
                        }
                    }
                }
            }
            x += 1;
        }
        proof {
            assert(marks@[idx as int]);
            assert(out@.contains(idx));
            assert forall|k: int| 0 <= k < out@.len() implies #[trigger] out@[k] <= idx && subterm(
                self.expr(out@[k] as int),
                top,
            ) by {
                assert(marks@[out@[k] as int]);
                lemma_subterm_slot(self@, out@[k] as int, idx as int);
            }
            let k = choose|k: int| 0 <= k < out@.len() && out@[k] == idx;
            if k < out@.len() - 1 {
                assert(out@[k] < out@[out@.len() - 1]);
                assert(out@[out@.len() - 1] <= idx);
            }
            assert forall|y: int|
                0 <= y < self@.len() && subterm(self.expr(y), top) implies out@.contains(
                y as usize,
            ) by {
                assert(marks@[y]);
            }
        }
        out
    }
}

/// A slot that denotes a sub-expression of what a slot `x` denotes is `x`
/// or lies before it.
pub proof fn lemma_subterm_slot(nodes: Seq<Shape>, y: int, x: int)
    requires
        valid_nodes(nodes),
        0 <= x < nodes.len(),
        0 <= y < nodes.len(),
        subterm(expr_at(nodes, y), expr_at(nodes, x)),
    ensures
        y <= x,
    decreases x,
{
    let e = expr_at(nodes, x);
    let s = expr_at(nodes, y);
    assert(shape_ok(nodes[x], x));
    if s == e {
        lemma_canonical(nodes, y, x);
    } else {
        match nodes[x] {
            Shape::Lam { params, body } => {
                lemma_subterm_slot(nodes, y, body as int);
            },
            Shape::App(items) => {
                let es = exprs_at(nodes, items, x);
                assert(e->App_0 == es);
                let k = choose|k: int| 0 <= k < es.len() && subterm(s, #[trigger] es[k]);
                assert(es[k] == expr_at(nodes, items[k] as int));
                lemma_subterm_slot(nodes, y, items[k] as int);
            },
            _ => {},
        }
    }
}

} // verus!
