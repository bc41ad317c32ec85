//! The multistep driver: round after round it finds the best invention of
//! the corpus as it stands, commits it to the library and rewrites the
//! corpus with it, until a stopping condition holds.

use vstd::prelude::*;
use crate::config::{Config, Limits};
use crate::corpus::{total_size, Corpus};
use crate::expr::{size, wf, Expr};
use crate::invention::Abstraction;
use crate::names::{
    free_index, fresh_name, lemma_library_extends, library_fits, library_view, name_for,
};
use crate::rewriter::Invention;
use crate::search::{
    eligible, is_winner, lemma_winner_unique, named, pays, rewrite_all, uses, Candidate,
};

verus! {

/// Why discovery stopped.
#[derive(Clone, Copy, Debug, PartialEq, Eq, Structural)]
pub enum Stop {
    /// The configured number of rounds was run.
    MaxRounds,
    /// The library reached the configured size.
    Budget,
    /// Every name of the form `f<number>` is taken.
    NamesExhausted,
    /// No candidate has a positive score.
    NoCandidate,
}

/// The record of one step: an invention was applied to the corpus.
#[derive(Clone, Copy, Debug, PartialEq, Eq, Structural)]
pub struct Step {
    /// The position of the invention in the library.
    pub invention: usize,
    /// Whether the invention was discovered in this step, not supplied.
    pub discovered: bool,
    /// The number of calls that rewriting put.
    pub occurrences: u128,
    /// The weighted size of the corpus before the step.
    pub size_before: u128,
    /// The weighted size of the corpus after the step.
    pub size_after: u128,
    /// The weighted size of the corpus before the first step; over
    /// `size_after` it is the cumulative compression ratio.
    pub original_size: u128,
}

/// The mathematical content of a [`Step`].
pub struct Record {
    pub invention: nat,
    pub discovered: bool,
    pub occurrences: nat,
    pub size_before: nat,
    pub size_after: nat,
    pub original_size: nat,
}

impl View for Step {
    type V = Record;

    open spec fn view(&self) -> Record {
        Record {
            invention: self.invention as nat,
            discovered: self.discovered,
            occurrences: self.occurrences as nat,
            size_before: self.size_before as nat,
            size_after: self.size_after as nat,
            original_size: self.original_size as nat,
        }
    }
}

/// What a list of steps records.
pub open spec fn records(steps: Seq<Step>) -> Seq<Record> {
    Seq::new(steps.len(), |k: int| steps[k]@)
}

/// What a run works on: the programs and the library.
pub struct State {
    pub programs: Seq<Expr>,
    pub library: Seq<Abstraction>,
}

/// The name that the invention of the next round gets.
pub open spec fn round_name(st: State) -> Seq<u8> {
    name_for(free_index(st.programs, st.library, 0))
}

/// `c` is the invention that the next round commits.
pub open spec fn wins(st: State, weights: Seq<u32>, lim: Limits, c: Candidate) -> bool {
    is_winner(round_name(st), weights, st.programs, lim.max_arity, lim.min_size, c)
}

/// Why discovery stops in state `st` after `rounds` rounds, if it does.
pub open spec fn halt(st: State, weights: Seq<u32>, lim: Limits, rounds: nat) -> Option<Stop> {
    if rounds >= lim.max_rounds {
        Some(Stop::MaxRounds)
    } else if st.library.len() >= lim.budget {
        Some(Stop::Budget)
    } else if free_index(st.programs, st.library, 0) >= usize::MAX {
        Some(Stop::NamesExhausted)
    } else if !exists|c: Candidate| wins(st, weights, lim, c) {
        Some(Stop::NoCandidate)
    } else {
        None
    }
}

/// The state after one round.
pub open spec fn advance(st: State, weights: Seq<u32>, lim: Limits) -> State {
    let c = choose|c: Candidate| wins(st, weights, lim, c);
    let inv = named(round_name(st), c);
    State { programs: rewrite_all(inv, st.programs), library: st.library.push(inv) }
}

/// The state in which discovery stops, and why, when it starts in `st`
/// with `rounds` rounds already run.
pub open spec fn run(st: State, weights: Seq<u32>, lim: Limits, rounds: nat) -> (State, Stop)
    decreases lim.max_rounds - rounds,
{
    match halt(st, weights, lim, rounds) {
        Some(stop) => (st, stop),
        None => run(advance(st, weights, lim), weights, lim, rounds + 1),
    }
}

/// The record of the round that takes discovery on from state `st`.
pub open spec fn round_record(st: State, weights: Seq<u32>, lim: Limits, original: nat) -> Record {
    let c = choose|c: Candidate| wins(st, weights, lim, c);
    let inv = named(round_name(st), c);
    Record {
        invention: st.library.len(),
        discovered: true,
        occurrences: uses(inv, st.programs, st.programs.len()),
        size_before: total_size(weights, st.programs),
        size_after: total_size(weights, rewrite_all(inv, st.programs)),
        original_size: original,
    }
}

/// The records of the rounds that discovery runs when it starts in `st`
/// with `rounds` rounds already run.
pub open spec fn trail(st: State, weights: Seq<u32>, lim: Limits, rounds: nat, original: nat) -> Seq<
    Record,
>
    decreases lim.max_rounds - rounds,
{
    match halt(st, weights, lim, rounds) {
        Some(_) => Seq::empty(),
        None => seq![round_record(st, weights, lim, original)] + trail(
            advance(st, weights, lim),
            weights,
            lim,
            rounds + 1,
            original,
        ),
    }
}

/// Monotone compression: every round of discovery makes the corpus
/// lighter by more than the body of its invention costs, and starts at the
/// weight at which the round before it ended.
pub proof fn lemma_trail_descends(
    st: State,
    weights: Seq<u32>,
    lim: Limits,
    rounds: nat,
    original: nat,
)
    ensures
        ({
            let t = trail(st, weights, lim, rounds, original);
            let end = run(st, weights, lim, rounds).0;
            &&& t.len() == end.library.len() - st.library.len()
            &&& t.len() > 0 ==> t[0].size_before == total_size(weights, st.programs) && t[t.len()
                - 1].size_after == total_size(weights, end.programs)
            &&& t.len() == 0 ==> end == st
            &&& forall|k: int|
                0 <= k < t.len() ==> (#[trigger] t[k]).discovered && t[k].size_after
                    < t[k].size_before
            &&& forall|k: int| 0 < k < t.len() ==> (#[trigger] t[k]).size_before == t[k
                - 1].size_after
            &&& total_size(weights, end.programs) <= total_size(weights, st.programs)
        }),
    decreases lim.max_rounds - rounds,
{
    if halt(st, weights, lim, rounds) is None {
        let next = advance(st, weights, lim);
        let first = round_record(st, weights, lim, original);
        let rest = trail(next, weights, lim, rounds + 1, original);
        let t = trail(st, weights, lim, rounds, original);
        lemma_trail_descends(next, weights, lim, rounds + 1, original);
        let c = choose|c: Candidate| wins(st, weights, lim, c);
        assert(pays(round_name(st), weights, st.programs, c));
        assert(t[0] == first);
        assert forall|k: int| 0 <= k < t.len() implies (#[trigger] t[k]).discovered
            && t[k].size_after < t[k].size_before by {
            if k > 0 {
                assert(t[k] == rest[k - 1]);
            }
        }
        assert forall|k: int| 0 < k < t.len() implies (#[trigger] t[k]).size_before == t[k
            - 1].size_after by {
            assert(t[k] == rest[k - 1]);
            if k > 1 {
                assert(t[k - 1] == rest[k - 2]);
            }
        }
        if rest.len() > 0 {
            assert(t[t.len() - 1] == rest[rest.len() - 1]);
        }
    }
}

/// A corpus with the library applied to it and the record of the steps
/// taken.
pub struct Engine {
    pub corpus: Corpus,
    pub library: Vec<Invention>,
    pub steps: Vec<Step>,
    pub original_size: u128,
}

impl Engine {
    /// The invariant of an engine.
    pub open spec fn wf(&self) -> bool {
        self.corpus.wf() && library_fits(&self.corpus.store, self.library@)
    }

    /// The programs and the library, as a run sees them.
    pub open spec fn state(&self) -> State {
        State {
            programs: self.corpus.programs(),
            library: library_view(&self.corpus.store, self.library@),
        }
    }

    /// An engine for `corpus`, with an empty library and no step taken.
    pub fn new(corpus: Corpus) -> (r: Engine)
        requires
            corpus.wf(),
        ensures
            r.wf(),
            r.corpus == corpus,
            r.library@.len() == 0,
            r.steps@.len() == 0,
            r.original_size == corpus.total(),
    {
        let original_size = corpus.total_size();
        Engine { corpus, library: Vec::new(), steps: Vec::new(), original_size }
    }

    /// Runs rounds of discovery until a stopping condition holds: in each
    /// round the best candidate with a positive score is named, added to
    /// the library, and the corpus is rewritten with it.
    pub fn discover(&mut self, cfg: &Config) -> (stop: Stop)
        requires
            old(self).wf(),
        ensures
            final(self).wf(),
            final(self).corpus.weights == old(self).corpus.weights,
            final(self).original_size == old(self).original_size,
            (final(self).state(), stop) == run(
                old(self).state(),
                old(self).corpus.weights@,
                cfg.limits(),
                0,
            ),
            final(self).steps@.len() >= old(self).steps@.len(),
            final(self).steps@.subrange(0, old(self).steps@.len() as int) == old(self).steps@,
            records(final(self).steps@) == records(old(self).steps@) + trail(
                old(self).state(),
                old(self).corpus.weights@,
                cfg.limits(),
                0,
                old(self).original_size as nat,
            ),
    {
        let ghost st0 = self.state();
        let ghost ws = self.corpus.weights@;
        let ghost lim = cfg.limits();
        let ghost steps0 = self.steps@;
        let ghost original = self.original_size as nat;
        let mut rounds: usize = 0;
        proof {
            assert(self.steps@.subrange(0, steps0.len() as int) =~= steps0);
        }
        loop
            invariant
                self.wf(),
                self.corpus.weights == old(self).corpus.weights,
                self.original_size == old(self).original_size,
                ws == self.corpus.weights@,
                lim == cfg.limits(),
                st0 == old(self).state(),
                steps0 == old(self).steps@,
                original == old(self).original_size as nat,
                rounds <= cfg.max_rounds,
                run(st0, ws, lim, 0) == run(self.state(), ws, lim, rounds as nat),
                self.steps@.len() >= steps0.len(),
                self.steps@.subrange(0, steps0.len() as int) == steps0,
                records(steps0) + trail(st0, ws, lim, 0, original) == records(self.steps@) + trail(
                    self.state(),
                    ws,
                    lim,
                    rounds as nat,
                    original,
                ),
            decreases cfg.max_rounds - rounds,
        {
            let ghost st = self.state();
            if rounds >= cfg.max_rounds {
                return Stop::MaxRounds;
            }
            if self.library.len() >= cfg.invention_count_budget {
                return Stop::Budget;
            }
            let (index, name) = match fresh_name(
                &self.corpus.store,
                &self.corpus.roots,
                &self.library,
            ) {
                Some(found) => found,
                None => {
                    return Stop::NamesExhausted;
                },
            };
            let before = self.corpus.total_size();
            let ghost early = self.corpus.store;
            let found = self.corpus.find_winner(&name, cfg.max_arity, cfg.min_utility);
            let ghost mid = self.corpus.store;
            proof {
                lemma_library_extends(&mid, &early, self.library@);
                assert(self.state() == st);
            }
            let f = match found {
                Some(f) => f,
                None => {
                    proof {
                        assert forall|c: Candidate| !wins(st, ws, lim, c) by {
                            assert(!eligible(
                                name@,
                                ws,
                                st.programs,
                                lim.max_arity,
                                lim.min_size,
                                c,
                            ));
                        }
                    }
                    return Stop::NoCandidate;
                },
            };
            let ghost c = f.candidate(&mid);
            proof {
                assert(wins(st, ws, lim, c));
                let chosen = choose|c: Candidate| wins(st, ws, lim, c);
                lemma_winner_unique(
                    name@,
                    ws,
                    st.programs,
                    lim.max_arity,
                    lim.min_size,
                    c,
                    chosen,
                );
            }
            let inv = Invention { name, arity: f.arity, body: f.body };
            let ghost model = inv.view_in(&mid);
            assert(model == named(round_name(st), c));
            let applied = self.corpus.apply(&inv);
            // a winner keeps every program within the size accounted for
            let (count, after) = match applied {
                Ok(done) => done,
                Err(_) => vstd::pervasive::unreached(),
            };
            proof {
                lemma_library_extends(&self.corpus.store, &mid, self.library@);
                self.corpus.store.lemma_extends_expr(&mid, inv.body as int);
            }
            let ghost lib_before = self.library@;
            let ghost steps_before = self.steps@;
            let position = self.library.len();
            self.library.push(inv);
            self.steps.push(
                Step {
                    invention: position,
                    discovered: true,
                    occurrences: count,
                    size_before: before,
                    size_after: after,
                    original_size: self.original_size,
                },
            );
            proof {
                assert(library_view(&self.corpus.store, self.library@) =~= st.library.push(model));
                assert(self.state() == advance(st, ws, lim));
                assert(self.steps@.subrange(0, steps0.len() as int) =~= steps0);
                let record = round_record(st, ws, lim, original);
                assert(self.steps@[steps_before.len() as int]@ == record);
                assert(records(self.steps@) =~= records(steps_before).push(record));
                assert(records(steps_before) + trail(st, ws, lim, rounds as nat, original)
                    =~= records(self.steps@) + trail(
                    self.state(),
                    ws,
                    lim,
                    (rounds + 1) as nat,
                    original,
                ));
            }
            rounds += 1;
        }
    }
}

} // verus!
