//! The search for the best invention of a round: every pattern that two
//! sub-expressions of the corpus share is a candidate; a candidate is
//! scored by the weighted size of the corpus rewritten with it, and the best
//! one that occurs twice or more and pays for itself wins.

use vstd::prelude::*;
use crate::antiunify::antiunify;
use crate::corpus::{total_size, weighted, Corpus, MAX_PROGRAM_SIZE, UNIT};
use crate::expr::{size, sizes, valid_symbol, wf, Expr};
use crate::invention::{occurrences, occurrences_in, rewrite, Abstraction};
use crate::ranking::{bytes_less, lemma_outranks_trans, outranks, Rank};
use crate::rewriter::Invention;
use crate::store::{ExprStore, Node};
use crate::subterms::{in_corpus, mark_subterms};
use crate::syntax::print;

verus! {

/// A candidate invention: a body and the number of its parameters.
pub struct Candidate {
    pub body: Expr,
    pub arity: nat,
}

/// Bodies worth considering: more than a bare parameter, at least
/// `min_size` nodes, and of a size the engine accounts for.
pub open spec fn admissible(body: Expr, min_size: nat) -> bool {
    !(body is Param) && min_size <= size(body) <= MAX_PROGRAM_SIZE
}

/// Whether `c` is what two sub-expressions of the corpus share.
pub open spec fn is_candidate(
    programs: Seq<Expr>,
    max_arity: nat,
    min_size: nat,
    c: Candidate,
) -> bool {
    &&& admissible(c.body, min_size)
    &&& exists|a: Expr, b: Expr|
        in_corpus(a, programs) && in_corpus(b, programs) && #[trigger] antiunify(a, b, max_arity)
            == Some((c.body, c.arity))
}

/// Whether `c` is the pattern that two sub-expressions of the corpus share.
pub open spec fn sourced(programs: Seq<Expr>, max_arity: nat, c: Candidate) -> bool {
    exists|a: Expr, b: Expr|
        in_corpus(a, programs) && in_corpus(b, programs) && #[trigger] antiunify(a, b, max_arity)
            == Some((c.body, c.arity))
}

/// The programs rewritten with `inv`.
pub open spec fn rewrite_all(inv: Abstraction, programs: Seq<Expr>) -> Seq<Expr> {
    Seq::new(programs.len(), |i: int| rewrite(inv, programs[i]))
}

/// The number of calls that rewriting puts in the first `n` programs.
pub open spec fn uses(inv: Abstraction, programs: Seq<Expr>, n: nat) -> nat
    decreases n,
{
    if n == 0 || n > programs.len() {
        0
    } else {
        uses(inv, programs, (n - 1) as nat) + occurrences(inv, programs[n - 1])
    }
}

/// Rewriting with `inv` leaves every program within the size the engine
/// accounts for.
pub open spec fn keeps_sizes(inv: Abstraction, programs: Seq<Expr>) -> bool {
    forall|i: int|
        0 <= i < programs.len() ==> size(rewrite(inv, #[trigger] programs[i])) <= MAX_PROGRAM_SIZE
}

/// The position of the first program, among the first `n`, that rewriting
/// with `inv` makes larger than the engine accounts for.
pub open spec fn oversize(inv: Abstraction, programs: Seq<Expr>, n: nat) -> Option<nat>
    decreases n,
{
    if n == 0 || n > programs.len() {
        None
    } else {
        match oversize(inv, programs, (n - 1) as nat) {
            Some(i) => Some(i),
            None => if size(rewrite(inv, programs[n - 1])) > MAX_PROGRAM_SIZE {
                Some((n - 1) as nat)
            } else {
                None
            },
        }
    }
}

/// The first oversize program among more programs is the first one found.
pub proof fn lemma_oversize_found(inv: Abstraction, programs: Seq<Expr>, n: nat, i: nat)
    requires
        i < n <= programs.len(),
        oversize(inv, programs, i) is None,
        size(rewrite(inv, programs[i as int])) > MAX_PROGRAM_SIZE,
    ensures
        oversize(inv, programs, n) == Some(i),
    decreases n,
{
    if n > i + 1 {
        lemma_oversize_found(inv, programs, (n - 1) as nat, i);
    }
}

/// The candidate `c` as the invention called `name`.
pub open spec fn named(name: Seq<u8>, c: Candidate) -> Abstraction {
    Abstraction { name, arity: c.arity, body: c.body }
}

/// What the candidate `c`, called `name`, is ranked by.
pub open spec fn rank(name: Seq<u8>, weights: Seq<u32>, programs: Seq<Expr>, c: Candidate) -> Rank {
    Rank {
        burden: total_size(weights, rewrite_all(named(name, c), programs)) + (UNIT as nat) * size(
            c.body,
        ),
        uses: uses(named(name, c), programs, programs.len()),
        text: print(c.body),
        arity: c.arity,
    }
}

/// The candidate `c` occurs at two places or more, and its score is
/// positive: the rewritten corpus together with the body weighs less than
/// the corpus does.
pub open spec fn pays(name: Seq<u8>, weights: Seq<u32>, programs: Seq<Expr>, c: Candidate) -> bool {
    &&& keeps_sizes(named(name, c), programs)
    &&& rank(name, weights, programs, c).uses >= 2
    &&& rank(name, weights, programs, c).burden < total_size(weights, programs)
}

/// `c` is a candidate with a positive score.
pub open spec fn eligible(
    name: Seq<u8>,
    weights: Seq<u32>,
    programs: Seq<Expr>,
    max_arity: nat,
    min_size: nat,
    c: Candidate,
) -> bool {
    is_candidate(programs, max_arity, min_size, c) && pays(name, weights, programs, c)
}

/// `c` is the best candidate with a positive score.
pub open spec fn is_winner(
    name: Seq<u8>,
    weights: Seq<u32>,
    programs: Seq<Expr>,
    max_arity: nat,
    min_size: nat,
    c: Candidate,
) -> bool {
    &&& wf(c.body)
    &&& eligible(name, weights, programs, max_arity, min_size, c)
    &&& forall|d: Candidate| #[trigger]
        eligible(name, weights, programs, max_arity, min_size, d) ==> !outranks(
            rank(name, weights, programs, d),
            rank(name, weights, programs, c),
        )
}

/// Rewriting puts at most one call per node.
pub proof fn lemma_occurrences_bound(inv: Abstraction, t: Expr)
    ensures
        occurrences(inv, t) <= size(t),
    decreases t, 1nat,
{
    match t {
        Expr::Lam(_, body) => {
            lemma_occurrences_bound(inv, *body);
        },
        Expr::App(items) => {
            lemma_occurrences_in_bound(inv, items, items.len());
        },
        _ => {},
    }
}

/// The same, for the first `n` expressions of `items`.
pub proof fn lemma_occurrences_in_bound(inv: Abstraction, items: Seq<Expr>, n: nat)
    requires
        n <= items.len(),
    ensures
        occurrences_in(inv, items, n) <= sizes(items, n),
    decreases items, n,
{
    if n > 0 {
        lemma_occurrences_in_bound(inv, items, (n - 1) as nat);
        lemma_occurrences_bound(inv, items[n - 1]);
    }
}

/// The programs of a corpus rewritten with an invention, and their measure.
#[derive(Debug)]
pub struct Rewritten {
    /// The slots of the rewritten programs.
    pub roots: Vec<usize>,
    /// Their weighted size.
    pub after: u128,
    /// The number of calls that rewriting put.
    pub uses: u128,
}

/// Rewrites every program with `inv` and measures the result. Fails with
/// the position of the first program that rewriting makes larger than the
/// engine accounts for.
pub fn rewrite_roots(
    store: &mut ExprStore,
    roots: &Vec<usize>,
    weights: &Vec<u32>,
    inv: &Invention,
) -> (r: Result<Rewritten, usize>)
    requires
        old(store).wf(),
        inv.fits(old(store)),
        weights@.len() == roots@.len(),
        forall|i: int| 0 <= i < roots@.len() ==> #[trigger] roots@[i] < old(store)@.len(),
        forall|i: int|
            0 <= i < roots@.len() ==> size(old(store).expr(#[trigger] roots@[i] as int))
                <= MAX_PROGRAM_SIZE,
    ensures
        final(store).wf(),
        final(store).extends(old(store)),
        ({
            let m = inv.view_in(old(store));
            let ps = old(store).exprs(roots@);
            match r {
                Ok(out) => {
                    &&& keeps_sizes(m, ps)
                    &&& oversize(m, ps, ps.len()) is None
                    &&& out.after == total_size(weights@, rewrite_all(m, ps))
                    &&& out.uses == uses(m, ps, ps.len())
                    &&& out.roots@.len() == roots@.len()
                    &&& forall|i: int|
                        0 <= i < roots@.len() ==> #[trigger] out.roots@[i] < final(store)@.len()
                    &&& final(store).exprs(out.roots@) == rewrite_all(m, ps)
                },
                Err(i) => !keeps_sizes(m, ps) && oversize(m, ps, ps.len()) == Some(i as nat),
            }
        }),
{
    let ghost start = *store;
    let ghost m = inv.view_in(&start);
    let ghost ps = start.exprs(roots@);
    let ghost qs = rewrite_all(m, ps);
    let mut after: u128 = 0;
    let mut count: u128 = 0;
    let mut fresh: Vec<usize> = Vec::new();
    let mut i: usize = 0;
    while i < roots.len()
        invariant
            store.wf(),
            store.extends(&start),
            start == *old(store),
            fresh@.len() == i,
            forall|k: int| 0 <= k < i ==> #[trigger] fresh@[k] < store@.len(),
            forall|k: int| 0 <= k < i ==> store.expr(#[trigger] fresh@[k] as int) == qs[k],
            start.wf(),
            inv.fits(&start),
            m == inv.view_in(&start),
            ps == start.exprs(roots@),
            qs == rewrite_all(m, ps),
            weights@.len() == roots@.len(),
            forall|k: int| 0 <= k < roots@.len() ==> #[trigger] roots@[k] < start@.len(),
            forall|k: int|
                0 <= k < roots@.len() ==> size(start.expr(#[trigger] roots@[k] as int))
                    <= MAX_PROGRAM_SIZE,
            i <= roots@.len(),
            forall|k: int| 0 <= k < i ==> size(#[trigger] qs[k]) <= MAX_PROGRAM_SIZE,
            oversize(m, ps, i as nat) is None,
            after == weighted(weights@, qs, i as nat),
            count == uses(m, ps, i as nat),
            after <= i * 0xFFFF_FFFF * 0xFFFF_FFFF,
            count <= i * 0xFFFF_FFFF,
        decreases roots@.len() - i,
    {
        let root = roots[i];
        let ghost mid = *store;
        proof {
            mid.lemma_extends_expr(&start, root as int);
            mid.lemma_extends_expr(&start, inv.body as int);
            assert(ps[i as int] == start.expr(root as int));
            assert(size(start.expr(roots@[i as int] as int)) <= MAX_PROGRAM_SIZE);
        }
        let (out, n) = store.rewrite(inv, root);
        proof {
            store.lemma_extends_trans(&mid, &start);
            assert(store.expr(out as int) == qs[i as int]);
            lemma_occurrences_bound(m, ps[i as int]);
            assert forall|k: int| 0 <= k < i implies store.expr(#[trigger] fresh@[k] as int)
                == qs[k] by {
                store.lemma_extends_expr(&mid, fresh@[k] as int);
            }
        }
        let sz = store.size(out);
        if sz > MAX_PROGRAM_SIZE {
            proof {
                assert(size(rewrite(m, ps[i as int])) > MAX_PROGRAM_SIZE);
                lemma_oversize_found(m, ps, ps.len(), i as nat);
            }
            return Err(i);
        }
        let w = weights[i] as u128;
        proof {
            assert(w * (sz as u128) <= 0xFFFF_FFFF * 0xFFFF_FFFF) by (nonlinear_arith)
                requires
                    w <= 0xFFFF_FFFF,
                    sz <= 0xFFFF_FFFF,
            ;
            assert((i + 1) * 0xFFFF_FFFF * 0xFFFF_FFFF == i * 0xFFFF_FFFF * 0xFFFF_FFFF
                + 0xFFFF_FFFF * 0xFFFF_FFFF) by (nonlinear_arith);
            assert(i * 0xFFFF_FFFF * 0xFFFF_FFFF <= 0xFFFF_FFFF_FFFF_FFFF * 0xFFFF_FFFF
                * 0xFFFF_FFFF) by (nonlinear_arith)
                requires
                    i <= 0xFFFF_FFFF_FFFF_FFFF,
            ;
            assert(i * 0xFFFF_FFFF <= 0xFFFF_FFFF_FFFF_FFFF * 0xFFFF_FFFF) by (nonlinear_arith)
                requires
                    i <= 0xFFFF_FFFF_FFFF_FFFF,
            ;
        }
        after = after + w * (sz as u128);
        count = count + n as u128;
        fresh.push(out);
        i += 1;
    }
    proof {
        assert forall|k: int| 0 <= k < ps.len() implies size(rewrite(m, #[trigger] ps[k]))
            <= MAX_PROGRAM_SIZE by {
            assert(qs[k] == rewrite(m, ps[k]));
        }
        assert(store.exprs(fresh@) =~= qs);
    }
    Ok(Rewritten { roots: fresh, after, uses: count })
}

/// A candidate that was found and measured.
#[derive(Debug)]
pub struct Found {
    /// The slot of the body.
    pub body: usize,
    /// The number of parameters.
    pub arity: usize,
    /// Weighted size of the corpus rewritten with the candidate.
    pub after: u128,
    /// Number of calls that rewriting puts.
    pub uses: u128,
    /// `after` plus the cost of the body.
    pub burden: u128,
    /// The text of the body.
    pub text: Vec<u8>,
}

impl Found {
    /// What the candidate is ranked by.
    pub open spec fn rank(&self) -> Rank {
        Rank {
            burden: self.burden as nat,
            uses: self.uses as nat,
            text: self.text@,
            arity: self.arity as nat,
        }
    }

    /// The candidate, with its body read in `store`.
    pub open spec fn candidate(&self, store: &ExprStore) -> Candidate {
        Candidate { body: store.expr(self.body as int), arity: self.arity as nat }
    }

    /// The record describes an eligible candidate faithfully.
    pub open spec fn faithful(
        &self,
        store: &ExprStore,
        name: Seq<u8>,
        weights: Seq<u32>,
        programs: Seq<Expr>,
        max_arity: nat,
        min_size: nat,
    ) -> bool {
        &&& self.body < store@.len()
        &&& eligible(name, weights, programs, max_arity, min_size, self.candidate(store))
        &&& rank(name, weights, programs, self.candidate(store)) == self.rank()
        &&& self.after == total_size(
            weights,
            rewrite_all(named(name, self.candidate(store)), programs),
        )
    }

    /// Whether this candidate is preferred to `other`.
    pub fn preferred_to(&self, other: &Found) -> (r: bool)
        ensures
            r == outranks(self.rank(), other.rank()),
    {
        if self.burden != other.burden {
            return self.burden < other.burden;
        }
        if self.uses != other.uses {
            return self.uses > other.uses;
        }
        if bytes_less(self.text.as_slice(), other.text.as_slice()) {
            return true;
        }
        crate::store::bytes_eq(self.text.as_slice(), other.text.as_slice()) && self.arity
            < other.arity
    }
}

/// The rank of the best candidate so far, if there is one.
pub open spec fn rank_of(best: Option<Found>) -> Option<Rank> {
    match best {
        Some(f) => Some(f.rank()),
        None => None,
    }
}

/// The candidate `c` has been taken into account: if it is admissible and
/// pays, it is not preferred to the best.
pub open spec fn verdict(
    best: Option<Rank>,
    name: Seq<u8>,
    weights: Seq<u32>,
    programs: Seq<Expr>,
    min_size: nat,
    c: Candidate,
) -> bool {
    admissible(c.body, min_size) && pays(name, weights, programs, c) ==> best is Some && !outranks(
        rank(name, weights, programs, c),
        best->Some_0,
    )
}

/// The pattern that `a` and `b` share has been taken into account.
pub open spec fn covers(
    best: Option<Rank>,
    name: Seq<u8>,
    weights: Seq<u32>,
    programs: Seq<Expr>,
    max_arity: nat,
    min_size: nat,
    a: Expr,
    b: Expr,
) -> bool {
    match antiunify(a, b, max_arity) {
        Some((body, arity)) => verdict(
            best,
            name,
            weights,
            programs,
            min_size,
            Candidate { body, arity },
        ),
        None => true,
    }
}

/// Every body that is marked, with the arity it is marked with, has been
/// taken into account.
pub open spec fn judged(
    seen: Seq<Option<usize>>,
    store: &ExprStore,
    best: Option<Rank>,
    name: Seq<u8>,
    weights: Seq<u32>,
    programs: Seq<Expr>,
    min_size: nat,
) -> bool {
    forall|q: int|
        0 <= q < seen.len() && (#[trigger] seen[q]) is Some ==> q < store@.len() && verdict(
            best,
            name,
            weights,
            programs,
            min_size,
            Candidate { body: store.expr(q), arity: seen[q]->Some_0 as nat },
        )
}

/// What was taken into account stays so when the best gets better.
pub proof fn lemma_verdict_better(
    old: Option<Rank>,
    new: Option<Rank>,
    name: Seq<u8>,
    weights: Seq<u32>,
    programs: Seq<Expr>,
    min_size: nat,
    c: Candidate,
)
    requires
        verdict(old, name, weights, programs, min_size, c),
        old is Some ==> new is Some && (new == old || outranks(new->Some_0, old->Some_0)),
    ensures
        verdict(new, name, weights, programs, min_size, c),
{
    let r = rank(name, weights, programs, c);
    if admissible(c.body, min_size) && pays(name, weights, programs, c) {
        if new != old && outranks(r, new->Some_0) {
            lemma_outranks_trans(r, new->Some_0, old->Some_0);
        }
    }
}

/// What was taken into account stays so when the best gets better.
pub proof fn lemma_covers_better(
    old: Option<Rank>,
    new: Option<Rank>,
    name: Seq<u8>,
    weights: Seq<u32>,
    programs: Seq<Expr>,
    max_arity: nat,
    min_size: nat,
    a: Expr,
    b: Expr,
)
    requires
        covers(old, name, weights, programs, max_arity, min_size, a, b),
        old is Some ==> new is Some && (new == old || outranks(new->Some_0, old->Some_0)),
    ensures
        covers(new, name, weights, programs, max_arity, min_size, a, b),
{
    match antiunify(a, b, max_arity) {
        Some((body, arity)) => {
            lemma_verdict_better(
                old,
                new,
                name,
                weights,
                programs,
                min_size,
                Candidate { body, arity },
            );
        },
        None => {},
    }
}

/// The marks stay true when the store grows and the best gets better.
pub proof fn lemma_judged_better(
    seen: Seq<Option<usize>>,
    old_store: &ExprStore,
    store: &ExprStore,
    old: Option<Rank>,
    new: Option<Rank>,
    name: Seq<u8>,
    weights: Seq<u32>,
    programs: Seq<Expr>,
    min_size: nat,
)
    requires
        judged(seen, old_store, old, name, weights, programs, min_size),
        store.extends(old_store),
        old is Some ==> new is Some && (new == old || outranks(new->Some_0, old->Some_0)),
    ensures
        judged(seen, store, new, name, weights, programs, min_size),
{
    assert forall|q: int| 0 <= q < seen.len() && (#[trigger] seen[q]) is Some implies q
        < store@.len() && verdict(
        new,
        name,
        weights,
        programs,
        min_size,
        Candidate { body: store.expr(q), arity: seen[q]->Some_0 as nat },
    ) by {
        store.lemma_extends_expr(old_store, q);
        lemma_verdict_better(
            old,
            new,
            name,
            weights,
            programs,
            min_size,
            Candidate { body: old_store.expr(q), arity: seen[q]->Some_0 as nat },
        );
    }
}

/// Marks the body at `p` as taken into account with `arity` parameters.
fn mark(seen: &mut Vec<Option<usize>>, p: usize, arity: usize)
    ensures
        final(seen)@.len() > p,
        final(seen)@.len() >= old(seen)@.len(),
        final(seen)@[p as int] == Some(arity),
        forall|q: int|
            0 <= q < final(seen)@.len() && q != p ==> #[trigger] final(seen)@[q] == (if q < old(
                seen,
            )@.len() {
                old(seen)@[q]
            } else {
                None
            }),
{
    while seen.len() <= p
        invariant
            seen@.len() >= old(seen)@.len(),
            forall|q: int|
                0 <= q < seen@.len() ==> #[trigger] seen@[q] == (if q < old(seen)@.len() {
                    old(seen)@[q]
                } else {
                    None
                }),
        decreases p + 1 - seen@.len(),
    {
        seen.push(None);
    }
    seen.set(p, Some(arity));
}

/// Takes the candidate with the body at `p` into account: returns it as
/// the best if it is eligible and preferred to `best`, and `best`
/// otherwise.
fn judge(
    store: &mut ExprStore,
    roots: &Vec<usize>,
    weights: &Vec<u32>,
    name: &Vec<u8>,
    max_arity: usize,
    min_size: u64,
    before: u128,
    p: usize,
    arity: usize,
    best: Option<Found>,
    Ghost(programs): Ghost<Seq<Expr>>,
) -> (r: Option<Found>)
    requires
        old(store).wf(),
        valid_symbol(name@),
        weights@.len() == roots@.len(),
        forall|i: int| 0 <= i < roots@.len() ==> #[trigger] roots@[i] < old(store)@.len(),
        programs == old(store).exprs(roots@),
        forall|i: int| 0 <= i < programs.len() ==> size(#[trigger] programs[i]) <= MAX_PROGRAM_SIZE,
        before == total_size(weights@, programs),
        p < old(store)@.len(),
        sourced(
            programs,
            max_arity as nat,
            Candidate { body: old(store).expr(p as int), arity: arity as nat },
        ),
        best matches Some(f) ==> f.faithful(
            old(store),
            name@,
            weights@,
            programs,
            max_arity as nat,
            min_size as nat,
        ),
    ensures
        final(store).wf(),
        final(store).extends(old(store)),
        r matches Some(f) ==> f.faithful(
            final(store),
            name@,
            weights@,
            programs,
            max_arity as nat,
            min_size as nat,
        ),
        best is Some ==> r is Some && (rank_of(r) == rank_of(best) || outranks(
            r->Some_0.rank(),
            best->Some_0.rank(),
        )),
        verdict(
            rank_of(r),
            name@,
            weights@,
            programs,
            min_size as nat,
            Candidate { body: old(store).expr(p as int), arity: arity as nat },
        ),
{
    let ghost start = *store;
    let ghost c = Candidate { body: store.expr(p as int), arity: arity as nat };
    let bare = match store.node(p) {
        Node::Param(_) => true,
        _ => false,
    };
    let sz = store.size(p);
    if bare || sz < min_size || sz > MAX_PROGRAM_SIZE {
        return best;
    }
    let inv = Invention { name: vstd::slice::slice_to_vec(name.as_slice()), arity, body: p };
    let ghost mid = *store;
    proof {
        mid.lemma_extends_exprs(&start, roots@);
        assert forall|i: int| 0 <= i < roots@.len() implies size(
            mid.expr(#[trigger] roots@[i] as int),
        ) <= MAX_PROGRAM_SIZE by {
            assert(programs[i] == mid.expr(roots@[i] as int));
        }
    }
    let measured = rewrite_roots(store, roots, weights, &inv);
    proof {
        store.lemma_extends_trans(&mid, &start);
        store.lemma_extends_expr(&mid, p as int);
        lemma_keeps_faith(
            best,
            store,
            &mid,
            name@,
            weights@,
            programs,
            max_arity as nat,
            min_size as nat,
        );
        assert(inv.view_in(&mid) == named(name@, c));
    }
    let (after, count) = match measured {
        Ok(m) => (m.after, m.uses),
        Err(_) => {
            return best;
        },
    };
    if count < 2 {
        return best;
    }
    let cost: u128 = (UNIT as u128) * (sz as u128);
    let burden = match after.checked_add(cost) {
        Some(b) => b,
        None => {
            return best;
        },
    };
    if burden >= before {
        return best;
    }
    let text = store.print(p);
    let new = Found { body: p, arity, after, uses: count, burden, text };
    proof {
        assert(is_candidate(programs, max_arity as nat, min_size as nat, c));
        assert(new.candidate(store) == c);
        crate::ranking::lemma_outranks_irreflexive(new.rank());
    }
    match best {
        None => Some(new),
        Some(f) => {
            if new.preferred_to(&f) {
                Some(new)
            } else {
                Some(f)
            }
        },
    }
}

/// Takes the pattern that the expressions at `x` and `y` share into
/// account, unless its body is marked as taken into account already:
/// returns it as the best if it is eligible and preferred to `best`, and
/// `best` otherwise, and marks its body.
pub(crate) fn consider(
    store: &mut ExprStore,
    roots: &Vec<usize>,
    weights: &Vec<u32>,
    name: &Vec<u8>,
    max_arity: usize,
    min_size: u64,
    before: u128,
    x: usize,
    y: usize,
    best: Option<Found>,
    seen: &mut Vec<Option<usize>>,
    Ghost(programs): Ghost<Seq<Expr>>,
) -> (r: Option<Found>)
    requires
        old(store).wf(),
        valid_symbol(name@),
        weights@.len() == roots@.len(),
        forall|i: int| 0 <= i < roots@.len() ==> #[trigger] roots@[i] < old(store)@.len(),
        programs == old(store).exprs(roots@),
        forall|i: int| 0 <= i < programs.len() ==> size(#[trigger] programs[i]) <= MAX_PROGRAM_SIZE,
        before == total_size(weights@, programs),
        x < old(store)@.len(),
        y < old(store)@.len(),
        in_corpus(old(store).expr(x as int), programs),
        in_corpus(old(store).expr(y as int), programs),
        best matches Some(f) ==> f.faithful(
            old(store),
            name@,
            weights@,
            programs,
            max_arity as nat,
            min_size as nat,
        ),
        judged(
            old(seen)@,
            old(store),
            rank_of(best),
            name@,
            weights@,
            programs,
            min_size as nat,
        ),
    ensures
        final(store).wf(),
        final(store).extends(old(store)),
        r matches Some(f) ==> f.faithful(
            final(store),
            name@,
            weights@,
            programs,
            max_arity as nat,
            min_size as nat,
        ),
        best is Some ==> r is Some && (rank_of(r) == rank_of(best) || outranks(
            r->Some_0.rank(),
            best->Some_0.rank(),
        )),
        covers(
            rank_of(r),
            name@,
            weights@,
            programs,
            max_arity as nat,
            min_size as nat,
            old(store).expr(x as int),
            old(store).expr(y as int),
        ),
        judged(
            final(seen)@,
            final(store),
            rank_of(r),
            name@,
            weights@,
            programs,
            min_size as nat,
        ),
{
    let ghost start = *store;
    let ghost a = start.expr(x as int);
    let ghost b = start.expr(y as int);
    let ghost best_rank = rank_of(best);
    let shared = store.antiunify(x, y, max_arity);
    proof {
        lemma_keeps_faith(
            best,
            store,
            &start,
            name@,
            weights@,
            programs,
            max_arity as nat,
            min_size as nat,
        );
        lemma_judged_better(
            seen@,
            &start,
            store,
            best_rank,
            best_rank,
            name@,
            weights@,
            programs,
            min_size as nat,
        );
    }
    let (p, arity) = match shared {
        Some(found) => found,
        None => {
            return best;
        },
    };
    let ghost c = Candidate { body: store.expr(p as int), arity: arity as nat };
    let known = if p < seen.len() {
        match seen[p] {
            Some(n) => n == arity,
            None => false,
        }
    } else {
        false
    };
    if known {
        return best;
    }
    let ghost mid = *store;
    proof {
        assert(antiunify(a, b, max_arity as nat) == Some((c.body, c.arity)));
        assert(sourced(programs, max_arity as nat, c));
        mid.lemma_extends_exprs(&start, roots@);
    }
    let r = judge(
        store,
        roots,
        weights,
        name,
        max_arity,
        min_size,
        before,
        p,
        arity,
        best,
        Ghost(programs),
    );
    let ghost marks = seen@;
    mark(seen, p, arity);
    proof {
        store.lemma_extends_trans(&mid, &start);
        store.lemma_extends_expr(&mid, p as int);
        lemma_judged_better(
            marks,
            &mid,
            store,
            best_rank,
            rank_of(r),
            name@,
            weights@,
            programs,
            min_size as nat,
        );
        assert forall|q: int| 0 <= q < seen@.len() && (#[trigger] seen@[q]) is Some implies q
            < store@.len() && verdict(
            rank_of(r),
            name@,
            weights@,
            programs,
            min_size as nat,
            Candidate { body: store.expr(q), arity: seen@[q]->Some_0 as nat },
        ) by {
            if q != p {
                assert(seen@[q] == marks[q]);
            }
        }
    }
    r
}

/// A faithful record stays faithful when the store grows.
pub proof fn lemma_keeps_faith(
    best: Option<Found>,
    new: &ExprStore,
    old: &ExprStore,
    name: Seq<u8>,
    weights: Seq<u32>,
    programs: Seq<Expr>,
    max_arity: nat,
    min_size: nat,
)
    requires
        new.extends(old),
        best matches Some(f) ==> f.faithful(old, name, weights, programs, max_arity, min_size),
    ensures
        best matches Some(f) ==> f.faithful(new, name, weights, programs, max_arity, min_size),
{
    match best {
        Some(f) => {
            new.lemma_extends_expr(old, f.body as int);
        },
        None => {},
    }
}

/// Every pair of marked slots that comes before `(x, y)`, row by row, has
/// been taken into account.
pub open spec fn swept(
    best: Option<Rank>,
    start: &ExprStore,
    marks: Seq<bool>,
    name: Seq<u8>,
    weights: Seq<u32>,
    programs: Seq<Expr>,
    max_arity: nat,
    min_size: nat,
    x: int,
    y: int,
) -> bool {
    forall|i: int, j: int|
        0 <= i < marks.len() && 0 <= j < marks.len() && marks[i] && marks[j] && (i < x || (i == x
            && j < y)) ==> #[trigger] covers(
            best,
            name,
            weights,
            programs,
            max_arity,
            min_size,
            start.expr(i),
            start.expr(j),
        )
}

/// What was swept stays swept when the best gets better.
pub proof fn lemma_swept_better(
    old: Option<Rank>,
    new: Option<Rank>,
    start: &ExprStore,
    marks: Seq<bool>,
    name: Seq<u8>,
    weights: Seq<u32>,
    programs: Seq<Expr>,
    max_arity: nat,
    min_size: nat,
    x: int,
    y: int,
)
    requires
        swept(old, start, marks, name, weights, programs, max_arity, min_size, x, y),
        old is Some ==> new is Some && (new == old || outranks(new->Some_0, old->Some_0)),
    ensures
        swept(new, start, marks, name, weights, programs, max_arity, min_size, x, y),
{
    assert forall|i: int, j: int|
        0 <= i < marks.len() && 0 <= j < marks.len() && marks[i] && marks[j] && (i < x || (i == x
            && j < y)) implies #[trigger] covers(
        new,
        name,
        weights,
        programs,
        max_arity,
        min_size,
        start.expr(i),
        start.expr(j),
    ) by {
        assert(covers(old, name, weights, programs, max_arity, min_size, start.expr(i), start.expr(j)));
        lemma_covers_better(
            old,
            new,
            name,
            weights,
            programs,
            max_arity,
            min_size,
            start.expr(i),
            start.expr(j),
        );
    }
}

impl Corpus {
    /// The best candidate with a positive score, called `name`; `None` if
    /// no candidate has a positive score.
    pub fn find_winner(&mut self, name: &Vec<u8>, max_arity: usize, min_size: u64) -> (r: Option<
        Found,
    >)
        requires
            old(self).wf(),
            valid_symbol(name@),
        ensures
            final(self).wf(),
            final(self).store.extends(&old(self).store),
            final(self).roots == old(self).roots,
            final(self).weights == old(self).weights,
            final(self).programs() == old(self).programs(),
            match r {
                Some(f) => f.faithful(
                    &final(self).store,
                    name@,
                    old(self).weights@,
                    old(self).programs(),
                    max_arity as nat,
                    min_size as nat,
                ) && is_winner(
                    name@,
                    old(self).weights@,
                    old(self).programs(),
                    max_arity as nat,
                    min_size as nat,
                    f.candidate(&final(self).store),
                ),
                None => forall|c: Candidate|
                    !#[trigger] eligible(
                        name@,
                        old(self).weights@,
                        old(self).programs(),
                        max_arity as nat,
                        min_size as nat,
                        c,
                    ),
            },
    {
        let ghost start = self.store;
        let ghost programs = self.programs();
        let ghost ws = self.weights@;
        let marks = mark_subterms(&self.store, &self.roots);
        let n = self.store.len();
        let before = self.total_size();
        let mut best: Option<Found> = None;
        let mut seen: Vec<Option<usize>> = Vec::new();
        let mut x: usize = 0;
        proof {
            assert forall|i: int| 0 <= i < programs.len() implies size(#[trigger] programs[i])
                <= MAX_PROGRAM_SIZE by {
                assert(crate::corpus::valid_program(self.store.expr(self.roots@[i] as int)));
            }
        }
        while x < n
            invariant
                self.store.wf(),
                self.store.extends(&start),
                start.wf(),
                self.roots == old(self).roots,
                self.weights == old(self).weights,
                ws == self.weights@,
                ws.len() == self.roots@.len(),
                valid_symbol(name@),
                forall|i: int| 0 <= i < self.roots@.len() ==> #[trigger] self.roots@[i] < start@.len(),
                programs == start.exprs(self.roots@),
                forall|i: int|
                    0 <= i < programs.len() ==> size(#[trigger] programs[i]) <= MAX_PROGRAM_SIZE,
                before == total_size(ws, programs),
                n == start@.len(),
                marks@.len() == n,
                forall|i: int|
                    0 <= i < n ==> (#[trigger] marks@[i] <==> in_corpus(start.expr(i), programs)),
                x <= n,
                best matches Some(f) ==> f.faithful(
                    &self.store,
                    name@,
                    ws,
                    programs,
                    max_arity as nat,
                    min_size as nat,
                ),
                judged(
                    seen@,
                    &self.store,
                    rank_of(best),
                    name@,
                    ws,
                    programs,
                    min_size as nat,
                ),
                swept(
                    rank_of(best),
                    &start,
                    marks@,
                    name@,
                    ws,
                    programs,
                    max_arity as nat,
                    min_size as nat,
                    x as int,
                    0,
                ),
            decreases n - x,
        {
            if marks[x] {
                let mut y: usize = 0;
                while y < n
                    invariant
                        self.store.wf(),
                        self.store.extends(&start),
                        start.wf(),
                        self.roots == old(self).roots,
                        self.weights == old(self).weights,
                        ws == self.weights@,
                        ws.len() == self.roots@.len(),
                        valid_symbol(name@),
                        forall|i: int|
                            0 <= i < self.roots@.len() ==> #[trigger] self.roots@[i] < start@.len(),
                        programs == start.exprs(self.roots@),
                        forall|i: int|
                            0 <= i < programs.len() ==> size(#[trigger] programs[i])
                                <= MAX_PROGRAM_SIZE,
                        before == total_size(ws, programs),
                        n == start@.len(),
                        marks@.len() == n,
                        forall|i: int|
                            0 <= i < n ==> (#[trigger] marks@[i] <==> in_corpus(
                                start.expr(i),
                                programs,
                            )),
                        x < n,
                        marks@[x as int],
                        y <= n,
                        best matches Some(f) ==> f.faithful(
                            &self.store,
                            name@,
                            ws,
                            programs,
                            max_arity as nat,
                            min_size as nat,
                        ),
                        judged(
                            seen@,
                            &self.store,
                            rank_of(best),
                            name@,
                            ws,
                            programs,
                            min_size as nat,
                        ),
                        swept(
                            rank_of(best),
                            &start,
                            marks@,
                            name@,
                            ws,
                            programs,
                            max_arity as nat,
                            min_size as nat,
                            x as int,
                            y as int,
                        ),
                    decreases n - y,
                {
                    if marks[y] {
                        let ghost mid = self.store;
                        let ghost old_rank = rank_of(best);
                        proof {
                            mid.lemma_extends_exprs(&start, self.roots@);
                            mid.lemma_extends_expr(&start, x as int);
                            mid.lemma_extends_expr(&start, y as int);
                        }
                        best =
                        consider(
                            &mut self.store,
                            &self.roots,
                            &self.weights,
                            name,
                            max_arity,
                            min_size,
                            before,
                            x,
                            y,
                            best,
                            &mut seen,
                            Ghost(programs),
                        );
                        proof {
                            self.store.lemma_extends_trans(&mid, &start);
                            lemma_swept_better(
                                old_rank,
                                rank_of(best),
                                &start,
                                marks@,
                                name@,
                                ws,
                                programs,
                                max_arity as nat,
                                min_size as nat,
                                x as int,
                                y as int,
                            );
                        }
                    }
                    y += 1;
                }
            }
            x += 1;
        }
        proof {
            self.store.lemma_extends_exprs(&start, self.roots@);
            assert forall|i: int| 0 <= i < self.roots@.len() implies crate::corpus::valid_program(
                self.store.expr(#[trigger] self.roots@[i] as int),
            ) by {
                self.store.lemma_extends_expr(&start, self.roots@[i] as int);
            }
            let top = rank_of(best);
            if best is Some {
                crate::store::lemma_expr_wf(self.store@, best->Some_0.body as int);
            }
            assert forall|c: Candidate| #[trigger]
                eligible(name@, ws, programs, max_arity as nat, min_size as nat, c) implies top
                is Some && !outranks(rank(name@, ws, programs, c), top->Some_0) by {
                let (a, b) = choose|a: Expr, b: Expr|
                    in_corpus(a, programs) && in_corpus(b, programs) && #[trigger] antiunify(
                        a,
                        b,
                        max_arity as nat,
                    ) == Some((c.body, c.arity));
                let i = choose|i: int| 0 <= i < start@.len() && marks@[i] && start.expr(i) == a;
                let j = choose|j: int| 0 <= j < start@.len() && marks@[j] && start.expr(j) == b;
                assert(covers(
                    top,
                    name@,
                    ws,
                    programs,
                    max_arity as nat,
                    min_size as nat,
                    start.expr(i),
                    start.expr(j),
                ));
            }
        }
        best
    }
}

/// There is at most one best candidate: the order of preference is total,
/// and different bodies have different texts.
pub proof fn lemma_winner_unique(
    name: Seq<u8>,
    weights: Seq<u32>,
    programs: Seq<Expr>,
    max_arity: nat,
    min_size: nat,
    c1: Candidate,
    c2: Candidate,
)
    requires
        is_winner(name, weights, programs, max_arity, min_size, c1),
        is_winner(name, weights, programs, max_arity, min_size, c2),
    ensures
        c1 == c2,
{
    let r1 = rank(name, weights, programs, c1);
    let r2 = rank(name, weights, programs, c2);
    if r1 == r2 {
        crate::roundtrip::lemma_parse_print(c1.body);
        crate::roundtrip::lemma_parse_print(c2.body);
    } else {
        crate::ranking::lemma_outranks_total(r1, r2);
    }
}

} // verus!
