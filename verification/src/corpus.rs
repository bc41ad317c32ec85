//! The corpus: the programs under compression, with their weights.

use vstd::prelude::*;
use crate::debruijn::{closed_at, no_params};
use crate::error::{ConfigError, Error, InvariantViolation};
use crate::expr::{size, Expr};
use crate::hygiene::lemma_rewrite_plain;
use crate::invention::rewrite;
use crate::rewriter::Invention;
use crate::search::{keeps_sizes, oversize, rewrite_all, rewrite_roots, uses};
use crate::store::ExprStore;
use crate::syntax::{parse, ParseError};

verus! {

/// The weight that stands for 1.0: weights are fixed-point numbers in
/// thousandths.
pub const UNIT: u32 = 1000;

/// The largest program, in nodes, that the engine accounts for.
pub const MAX_PROGRAM_SIZE: u64 = 0xFFFF_FFFF;

/// Sum, over the first `n` programs, of weight times size.
pub open spec fn weighted(weights: Seq<u32>, programs: Seq<Expr>, n: nat) -> nat
    decreases n,
{
    if n == 0 || n > programs.len() || n > weights.len() {
        0
    } else {
        weighted(weights, programs, (n - 1) as nat) + (weights[n - 1] as nat) * size(programs[n - 1])
    }
}

/// The weighted size of a whole corpus.
pub open spec fn total_size(weights: Seq<u32>, programs: Seq<Expr>) -> nat {
    weighted(weights, programs, programs.len())
}

/// A program the engine accepts: closed, without parameter slots, and of a
/// size it accounts for.
pub open spec fn valid_program(e: Expr) -> bool {
    closed_at(e, 0) && no_params(e) && size(e) <= MAX_PROGRAM_SIZE
}

/// What is wrong with the text of the program at position `i`, if anything.
pub open spec fn program_error(text: Seq<u8>, i: usize) -> Option<Error> {
    match parse(text) {
        Err(error) => Some(Error::Parse { program: i, error }),
        Ok(e) => if !closed_at(e, 0) {
            Some(Error::Invariant(InvariantViolation::DanglingVariable(i)))
        } else if !no_params(e) {
            Some(Error::Invariant(InvariantViolation::StrayParameter(i)))
        } else if size(e) > MAX_PROGRAM_SIZE {
            Some(Error::TooLarge { program: i })
        } else {
            None
        },
    }
}

/// The error of the first of the first `n` texts that has one.
pub open spec fn first_error(texts: Seq<Seq<u8>>, n: nat) -> Option<Error>
    decreases n,
{
    if n == 0 || n > texts.len() {
        None
    } else {
        match first_error(texts, (n - 1) as nat) {
            Some(e) => Some(e),
            None => program_error(texts[n - 1], (n - 1) as usize),
        }
    }
}

/// The byte strings that a list of owned texts holds.
pub open spec fn texts_view(texts: Seq<Vec<u8>>) -> Seq<Seq<u8>> {
    Seq::new(texts.len(), |i: int| texts[i]@)
}

/// The programs under compression. They live in one store; `roots[i]` is
/// the slot of program `i` and `weights[i]` its weight in thousandths.
pub struct Corpus {
    pub store: ExprStore,
    pub roots: Vec<usize>,
    pub weights: Vec<u32>,
}

impl Corpus {
    /// The programs, as expressions.
    pub open spec fn programs(&self) -> Seq<Expr> {
        self.store.exprs(self.roots@)
    }

    /// The invariant of a corpus.
    pub open spec fn wf(&self) -> bool {
        &&& self.store.wf()
        &&& self.weights@.len() == self.roots@.len()
        &&& forall|i: int| 0 <= i < self.roots@.len() ==> #[trigger] self.roots@[i] < self.store@.len()
        &&& forall|i: int|
            0 <= i < self.roots@.len() ==> valid_program(
                self.store.expr(#[trigger] self.roots@[i] as int),
            )
    }

    /// The weighted size of the corpus.
    pub open spec fn total(&self) -> nat {
        total_size(self.weights@, self.programs())
    }

    /// Number of programs.
    pub fn len(&self) -> (n: usize)
        ensures
            n == self.roots@.len(),
    {
        self.roots.len()
    }

    /// The weighted size of the corpus.
    pub fn total_size(&self) -> (r: u128)
        requires
            self.wf(),
        ensures
            r == self.total(),
    {
        let ghost ps = self.programs();
        let mut acc: u128 = 0;
        let mut i: usize = 0;
        while i < self.roots.len()
            invariant
                self.wf(),
                ps == self.programs(),
                i <= self.roots@.len(),
                acc == weighted(self.weights@, ps, i as nat),
                acc <= i * 0xFFFF_FFFF * 0xFFFF_FFFF,
            decreases self.roots@.len() - i,
        {
            let root = self.roots[i];
            let w = self.weights[i] as u128;
            let n = self.store.size(root) as u128;
            proof {
                assert(valid_program(self.store.expr(self.roots@[i as int] as int)));
                assert(ps[i as int] == self.store.expr(root as int));
                assert(n == size(ps[i as int]));
                assert(w * n <= 0xFFFF_FFFF * 0xFFFF_FFFF) by (nonlinear_arith)
                    requires
                        w <= 0xFFFF_FFFF,
                        n <= 0xFFFF_FFFF,
                ;
                assert((i + 1) * 0xFFFF_FFFF * 0xFFFF_FFFF == i * 0xFFFF_FFFF * 0xFFFF_FFFF
                    + 0xFFFF_FFFF * 0xFFFF_FFFF) by (nonlinear_arith);
                assert(i * 0xFFFF_FFFF * 0xFFFF_FFFF <= 0xFFFF_FFFF_FFFF_FFFF * 0xFFFF_FFFF
                    * 0xFFFF_FFFF) by (nonlinear_arith)
                    requires
                        i <= 0xFFFF_FFFF_FFFF_FFFF,
                ;
            }
            acc = acc + w * n;
            i += 1;
        }
        acc
    }

    /// Reads a corpus from the texts of its programs and their weights in
    /// thousandths. Fails if there is not one weight for each program, and
    /// else with the error of the first text that is not a valid program.
    pub fn from_texts(texts: &Vec<Vec<u8>>, weights: Vec<u32>) -> (r: Result<Corpus, Error>)
        ensures
            match r {
                Ok(c) => {
                    &&& weights@.len() == texts@.len()
                    &&& first_error(texts_view(texts@), texts@.len() as nat) is None
                    &&& c.wf()
                    &&& c.weights@ == weights@
                    &&& c.roots@.len() == texts@.len()
                    &&& forall|i: int|
                        0 <= i < texts@.len() ==> parse(#[trigger] texts@[i]@) == Ok::<
                            Expr,
                            ParseError,
                        >(c.programs()[i])
                },
                Err(e) => if weights@.len() != texts@.len() {
                    e == Error::Configuration(ConfigError::WeightCount)
                } else {
                    first_error(texts_view(texts@), texts@.len() as nat) == Some(e)
                },
            },
    {
        let ghost tv = texts_view(texts@);
        if weights.len() != texts.len() {
            return Err(Error::Configuration(ConfigError::WeightCount));
        }
        let mut store = ExprStore::new();
        let mut roots: Vec<usize> = Vec::new();
        let mut i: usize = 0;
        while i < texts.len()
            invariant
                tv == texts_view(texts@),
                weights@.len() == texts@.len(),
                store.wf(),
                i <= texts@.len(),
                roots@.len() == i,
                first_error(tv, i as nat) is None,
                forall|k: int| 0 <= k < i ==> #[trigger] roots@[k] < store@.len(),
                forall|k: int|
                    0 <= k < i ==> valid_program(store.expr(#[trigger] roots@[k] as int)),
                forall|k: int|
                    0 <= k < i ==> parse(#[trigger] texts@[k]@) == Ok::<Expr, ParseError>(
                        store.expr(roots@[k] as int),
                    ),
            decreases texts@.len() - i,
        {
            let ghost before = store;
            let ghost e = program_error(tv[i as int], i);
            assert(tv[i as int] == texts@[i as int]@);
            let root = match store.parse_extend(texts[i].as_slice()) {
                Ok(root) => root,
                Err(error) => {
                    proof {
                        lemma_first_error_found(tv, texts@.len() as nat, i as nat);
                    }
                    return Err(Error::Parse { program: i, error });
                },
            };
            if !store.is_closed(root) {
                proof {
                    lemma_first_error_found(tv, texts@.len() as nat, i as nat);
                }
                return Err(Error::Invariant(InvariantViolation::DanglingVariable(i)));
            }
            if !store.has_no_params(root) {
                proof {
                    lemma_first_error_found(tv, texts@.len() as nat, i as nat);
                }
                return Err(Error::Invariant(InvariantViolation::StrayParameter(i)));
            }
            if store.size(root) > MAX_PROGRAM_SIZE {
                proof {
                    lemma_first_error_found(tv, texts@.len() as nat, i as nat);
                }
                return Err(Error::TooLarge { program: i });
            }
            proof {
                assert forall|k: int| 0 <= k < i implies store.expr(#[trigger] roots@[k] as int)
                    == before.expr(roots@[k] as int) by {
                    store.lemma_extends_expr(&before, roots@[k] as int);
                }
            }
            roots.push(root);
            i += 1;
        }
        let c = Corpus { store, roots, weights };
        proof {
            assert forall|k: int| 0 <= k < texts@.len() implies parse(#[trigger] texts@[k]@) == Ok::<
                Expr,
                ParseError,
            >(c.programs()[k]) by {
                assert(c.roots@[k] < c.store@.len());
            }
        }
        Ok(c)
    }
}

/// The first error among more texts is the first error found.
pub proof fn lemma_first_error_found(texts: Seq<Seq<u8>>, n: nat, i: nat)
    requires
        i < n <= texts.len(),
        first_error(texts, i) is None,
        program_error(texts[i as int], i as usize) is Some,
    ensures
        first_error(texts, n) == program_error(texts[i as int], i as usize),
    decreases n,
{
    if n > i + 1 {
        lemma_first_error_found(texts, (n - 1) as nat, i);
    }
}

impl Corpus {
    /// Rewrites every program to call `inv`. Returns the number of calls put
    /// and the weighted size of the rewritten corpus. Fails, with the
    /// programs as they were, with the position of the first program that
    /// would get larger than the engine accounts for.
    pub fn apply(&mut self, inv: &Invention) -> (r: Result<(u128, u128), usize>)
        requires
            old(self).wf(),
            inv.fits(&old(self).store),
        ensures
            final(self).wf(),
            final(self).store.extends(&old(self).store),
            final(self).weights == old(self).weights,
            match r {
                Ok((count, after)) => {
                    &&& keeps_sizes(inv.view_in(&old(self).store), old(self).programs())
                    &&& oversize(
                        inv.view_in(&old(self).store),
                        old(self).programs(),
                        old(self).programs().len(),
                    ) is None
                    &&& final(self).programs() == rewrite_all(
                        inv.view_in(&old(self).store),
                        old(self).programs(),
                    )
                    &&& count == uses(
                        inv.view_in(&old(self).store),
                        old(self).programs(),
                        old(self).programs().len(),
                    )
                    &&& after == final(self).total()
                },
                Err(i) => {
                    &&& !keeps_sizes(inv.view_in(&old(self).store), old(self).programs())
                    &&& oversize(
                        inv.view_in(&old(self).store),
                        old(self).programs(),
                        old(self).programs().len(),
                    ) == Some(i as nat)
                    &&& final(self).roots == old(self).roots
                },
            },
    {
        let ghost start = self.store;
        let ghost m = inv.view_in(&start);
        let ghost ps = self.programs();
        proof {
            assert forall|i: int| 0 <= i < self.roots@.len() implies size(
                self.store.expr(#[trigger] self.roots@[i] as int),
            ) <= MAX_PROGRAM_SIZE by {
                assert(valid_program(self.store.expr(self.roots@[i] as int)));
            }
        }
        match rewrite_roots(&mut self.store, &self.roots, &self.weights, inv) {
            Ok(out) => {
                proof {
                    assert forall|i: int| 0 <= i < out.roots@.len() implies valid_program(
                        self.store.expr(#[trigger] out.roots@[i] as int),
                    ) by {
                        assert(valid_program(start.expr(self.roots@[i] as int)));
                        assert(ps[i] == start.expr(self.roots@[i] as int));
                        lemma_rewrite_plain(m, ps[i], 0);
                        assert(self.store.exprs(out.roots@)[i] == rewrite(m, ps[i]));
                    }
                }
                self.roots = out.roots;
                Ok((out.uses, out.after))
            },
            Err(i) => {
                proof {
                    assert forall|i: int| 0 <= i < self.roots@.len() implies valid_program(
                        self.store.expr(#[trigger] self.roots@[i] as int),
                    ) by {
                        assert(valid_program(start.expr(self.roots@[i] as int)));
                        self.store.lemma_extends_expr(&start, self.roots@[i] as int);
                    }
                }
                Err(i)
            },
        }
    }
}

} // verus!
