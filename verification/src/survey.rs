//! The candidates of a round and their scores, whether they pay or not: what
//! a report or a diagnosis of a round is made from.

use vstd::prelude::*;
use crate::antiunify::antiunify;
use crate::corpus::{total_size, valid_program, Corpus, MAX_PROGRAM_SIZE, UNIT};
use crate::expr::{size, valid_symbol, Expr};
use crate::rewriter::Invention;
use crate::search::{
    admissible, is_candidate, keeps_sizes, named, pays, rewrite_all, rewrite_roots, uses,
    Candidate,
};
use crate::store::{ExprStore, Node};
use crate::subterms::{in_corpus, mark_subterms};

verus! {

/// The score of a candidate, in its parts: the score is `before - after -
/// cost`.
#[derive(Clone, Copy, Debug, PartialEq, Eq, Structural)]
pub struct Score {
    /// Weighted size of the corpus.
    pub before: u128,
    /// Weighted size of the corpus rewritten with the candidate.
    pub after: u128,
    /// The cost of the body: its size at weight 1.0.
    pub cost: u128,
    /// Number of calls that rewriting puts.
    pub uses: u128,
    /// Whether the candidate occurs twice or more and its score is
    /// positive.
    pub pays: bool,
}

/// The pattern that the slots `x` and `y` of `start` share has been listed
/// if it is a candidate.
pub open spec fn listed(
    found: Seq<(usize, usize)>,
    store: &ExprStore,
    start: &ExprStore,
    max_arity: nat,
    min_size: nat,
    x: int,
    y: int,
) -> bool {
    match antiunify(start.expr(x), start.expr(y), max_arity) {
        Some((body, arity)) => admissible(body, min_size) ==> exists|k: int|
            0 <= k < found.len() && (#[trigger] found[k]).0 < store@.len() && store.expr(
                found[k].0 as int,
            ) == body && found[k].1 == arity,
        None => true,
    }
}

/// Every pair of marked slots that comes before `(x, y)`, row by row, has
/// been listed.
pub open spec fn surveyed(
    found: Seq<(usize, usize)>,
    store: &ExprStore,
    start: &ExprStore,
    marks: Seq<bool>,
    max_arity: nat,
    min_size: nat,
    x: int,
    y: int,
) -> bool {
    forall|i: int, j: int|
        0 <= i < marks.len() && 0 <= j < marks.len() && marks[i] && marks[j] && (i < x || (i == x
            && j < y)) ==> #[trigger] listed(found, store, start, max_arity, min_size, i, j)
}

/// Every entry of the list is a candidate.
pub open spec fn all_candidates(
    found: Seq<(usize, usize)>,
    store: &ExprStore,
    programs: Seq<Expr>,
    max_arity: nat,
    min_size: nat,
) -> bool {
    forall|k: int|
        0 <= k < found.len() ==> (#[trigger] found[k]).0 < store@.len() && is_candidate(
            programs,
            max_arity,
            min_size,
            Candidate { body: store.expr(found[k].0 as int), arity: found[k].1 as nat },
        )
}

/// What was listed stays listed when the list and the store grow.
pub proof fn lemma_listed_grows(
    old_found: Seq<(usize, usize)>,
    found: Seq<(usize, usize)>,
    old_store: &ExprStore,
    store: &ExprStore,
    start: &ExprStore,
    max_arity: nat,
    min_size: nat,
    x: int,
    y: int,
)
    requires
        listed(old_found, old_store, start, max_arity, min_size, x, y),
        store.extends(old_store),
        old_found.len() <= found.len(),
        forall|k: int| 0 <= k < old_found.len() ==> found[k] == #[trigger] old_found[k],
    ensures
        listed(found, store, start, max_arity, min_size, x, y),
{
    match antiunify(start.expr(x), start.expr(y), max_arity) {
        Some((body, arity)) => {
            if admissible(body, min_size) {
                let k = choose|k: int|
                    0 <= k < old_found.len() && (#[trigger] old_found[k]).0 < old_store@.len()
                        && old_store.expr(old_found[k].0 as int) == body && old_found[k].1
                        == arity;
                store.lemma_extends_expr(old_store, old_found[k].0 as int);
                assert(found[k] == old_found[k]);
            }
        },
        None => {},
    }
}

impl Corpus {
    /// The candidates of the corpus: for every two sub-expressions of the
    /// programs the pattern they share, if it has at most `max_arity`
    /// parameters and a body of at least `min_size` nodes that is more than
    /// a bare parameter. Each is given by the slot of its body and its
    /// arity; a candidate may be listed more than once.
    pub fn candidates(&mut self, max_arity: usize, min_size: u64) -> (r: Vec<(usize, usize)>)
        requires
            old(self).wf(),
        ensures
            final(self).wf(),
            final(self).store.extends(&old(self).store),
            final(self).roots == old(self).roots,
            final(self).weights == old(self).weights,
            final(self).programs() == old(self).programs(),
            all_candidates(
                r@,
                &final(self).store,
                old(self).programs(),
                max_arity as nat,
                min_size as nat,
            ),
            forall|c: Candidate| #[trigger]
                is_candidate(old(self).programs(), max_arity as nat, min_size as nat, c)
                    ==> exists|k: int|
                    0 <= k < r@.len() && final(self).store.expr((#[trigger] r@[k]).0 as int)
                        == c.body && r@[k].1 == c.arity,
    {
        let ghost start = self.store;
        let ghost programs = self.programs();
        let marks = mark_subterms(&self.store, &self.roots);
        let n = self.store.len();
        let mut found: Vec<(usize, usize)> = Vec::new();
        let mut x: usize = 0;
        while x < n
            invariant
                self.store.wf(),
                self.store.extends(&start),
                start.wf(),
                self.roots == old(self).roots,
                self.weights == old(self).weights,
                programs == start.exprs(self.roots@),
                n == start@.len(),
                marks@.len() == n,
                forall|i: int|
                    0 <= i < n ==> (#[trigger] marks@[i] <==> in_corpus(start.expr(i), programs)),
                x <= n,
                all_candidates(found@, &self.store, programs, max_arity as nat, min_size as nat),
                surveyed(
                    found@,
                    &self.store,
                    &start,
                    marks@,
                    max_arity as nat,
                    min_size as nat,
                    x as int,
                    0,
                ),
            decreases n - x,
        {
            if marks[x] {
                let mut y: usize = 0;
                while y < n
                    invariant
                        self.store.wf(),
                        self.store.extends(&start),
                        start.wf(),
                        self.roots == old(self).roots,
                        self.weights == old(self).weights,
                        programs == start.exprs(self.roots@),
                        n == start@.len(),
                        marks@.len() == n,
                        forall|i: int|
                            0 <= i < n ==> (#[trigger] marks@[i] <==> in_corpus(
                                start.expr(i),
                                programs,
                            )),
                        x < n,
                        marks@[x as int],
                        y <= n,
                        all_candidates(
                            found@,
                            &self.store,
                            programs,
                            max_arity as nat,
                            min_size as nat,
                        ),
                        surveyed(
                            found@,
                            &self.store,
                            &start,
                            marks@,
                            max_arity as nat,
                            min_size as nat,
                            x as int,
                            y as int,
                        ),
                    decreases n - y,
                {
                    if marks[y] {
                        let ghost mid = self.store;
                        let ghost before = found@;
                        proof {
                            mid.lemma_extends_expr(&start, x as int);
                            mid.lemma_extends_expr(&start, y as int);
                        }
                        match self.store.antiunify(x, y, max_arity) {
                            Some((p, arity)) => {
                                let bare = match self.store.node(p) {
                                    Node::Param(_) => true,
                                    _ => false,
                                };
                                let sz = self.store.size(p);
                                if !bare && sz >= min_size && sz <= MAX_PROGRAM_SIZE {
                                    found.push((p, arity));
                                    proof {
                                        let c = Candidate {
                                            body: self.store.expr(p as int),
                                            arity: arity as nat,
                                        };
                                        assert(antiunify(
                                            start.expr(x as int),
                                            start.expr(y as int),
                                            max_arity as nat,
                                        ) == Some((c.body, c.arity)));
                                        assert(is_candidate(
                                            programs,
                                            max_arity as nat,
                                            min_size as nat,
                                            c,
                                        ));
                                        assert(found@[before.len() as int] == (p, arity));
                                    }
                                }
                            },
                            None => {},
                        }
                        proof {
                            self.store.lemma_extends_trans(&mid, &start);
                            assert forall|k: int| 0 <= k < found@.len() implies (
                            #[trigger] found@[k]).0 < self.store@.len() && is_candidate(
                                programs,
                                max_arity as nat,
                                min_size as nat,
                                Candidate {
                                    body: self.store.expr(found@[k].0 as int),
                                    arity: found@[k].1 as nat,
                                },
                            ) by {
                                if k < before.len() {
                                    assert(found@[k] == before[k]);
                                    self.store.lemma_extends_expr(&mid, before[k].0 as int);
                                }
                            }
                            assert forall|i: int, j: int|
                                0 <= i < marks@.len() && 0 <= j < marks@.len() && marks@[i]
                                    && marks@[j] && (i < x || (i == x && j < y + 1)) implies #[trigger] listed(
                                found@,
                                &self.store,
                                &start,
                                max_arity as nat,
                                min_size as nat,
                                i,
                                j,
                            ) by {
                                if i < x || (i == x && j < y) {
                                    lemma_listed_grows(
                                        before,
                                        found@,
                                        &mid,
                                        &self.store,
                                        &start,
                                        max_arity as nat,
                                        min_size as nat,
                                        i,
                                        j,
                                    );
                                }
                            }
                        }
                    }
                    y += 1;
                }
            }
            x += 1;
        }
        proof {
            self.store.lemma_extends_exprs(&start, self.roots@);
            assert forall|i: int| 0 <= i < self.roots@.len() implies valid_program(
                self.store.expr(#[trigger] self.roots@[i] as int),
            ) by {
                self.store.lemma_extends_expr(&start, self.roots@[i] as int);
            }
            assert forall|c: Candidate| #[trigger]
                is_candidate(programs, max_arity as nat, min_size as nat, c) implies exists|k: int|
                0 <= k < found@.len() && self.store.expr((#[trigger] found@[k]).0 as int) == c.body
                    && found@[k].1 == c.arity by {
                let (a, b) = choose|a: Expr, b: Expr|
                    in_corpus(a, programs) && in_corpus(b, programs) && #[trigger] antiunify(
                        a,
                        b,
                        max_arity as nat,
                    ) == Some((c.body, c.arity));
                let i = choose|i: int| 0 <= i < start@.len() && marks@[i] && start.expr(i) == a;
                let j = choose|j: int| 0 <= j < start@.len() && marks@[j] && start.expr(j) == b;
                assert(listed(
                    found@,
                    &self.store,
                    &start,
                    max_arity as nat,
                    min_size as nat,
                    i,
                    j,
                ));
            }
        }
        found
    }

    /// The score of the candidate with the body at `body` and `arity`
    /// parameters, called `name`. `None` if rewriting with it makes a
    /// program larger than the engine accounts for, or if the body is
    /// larger than that.
    pub fn score(&mut self, name: &Vec<u8>, body: usize, arity: usize) -> (r: Option<Score>)
        requires
            old(self).wf(),
            valid_symbol(name@),
            body < old(self).store@.len(),
        ensures
            final(self).wf(),
            final(self).store.extends(&old(self).store),
            final(self).roots == old(self).roots,
            final(self).weights == old(self).weights,
            final(self).programs() == old(self).programs(),
            ({
                let c = Candidate { body: old(self).store.expr(body as int), arity: arity as nat };
                let ps = old(self).programs();
                let ws = old(self).weights@;
                match r {
                    Some(s) => {
                        &&& keeps_sizes(named(name@, c), ps)
                        &&& size(c.body) <= MAX_PROGRAM_SIZE
                        &&& s.before == total_size(ws, ps)
                        &&& s.after == total_size(ws, rewrite_all(named(name@, c), ps))
                        &&& s.cost == UNIT * size(c.body)
                        &&& s.uses == uses(named(name@, c), ps, ps.len())
                        &&& s.pays == pays(name@, ws, ps, c)
                    },
                    None => !keeps_sizes(named(name@, c), ps) || size(c.body) > MAX_PROGRAM_SIZE,
                }
            }),
    {
        let ghost start = self.store;
        let ghost programs = self.programs();
        let sz = self.store.size(body);
        if sz > MAX_PROGRAM_SIZE {
            return None;
        }
        let before = self.total_size();
        let inv = Invention { name: vstd::slice::slice_to_vec(name.as_slice()), arity, body };
        proof {
            assert forall|i: int| 0 <= i < self.roots@.len() implies size(
                self.store.expr(#[trigger] self.roots@[i] as int),
            ) <= MAX_PROGRAM_SIZE by {
                assert(valid_program(self.store.expr(self.roots@[i] as int)));
            }
        }
        let measured = rewrite_roots(&mut self.store, &self.roots, &self.weights, &inv);
        proof {
            self.store.lemma_extends_exprs(&start, self.roots@);
            assert forall|i: int| 0 <= i < self.roots@.len() implies valid_program(
                self.store.expr(#[trigger] self.roots@[i] as int),
            ) by {
                self.store.lemma_extends_expr(&start, self.roots@[i] as int);
            }
        }
        match measured {
            Ok(m) => {
                let cost: u128 = (UNIT as u128) * (sz as u128);
                let pays = m.uses >= 2 && match m.after.checked_add(cost) {
                    Some(burden) => burden < before,
                    None => false,
                };
                Some(Score { before, after: m.after, cost, uses: m.uses, pays })
            },
            Err(_) => None,
        }
    }
}

} // verus!
