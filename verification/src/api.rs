//! The two entry points: compression of a corpus by discovery, and
//! rewriting of a corpus with a given library.

use vstd::prelude::*;
use crate::config::Config;
use crate::corpus::{first_error, texts_view, total_size, valid_program, Corpus, UNIT};
use crate::debruijn::{closed_at, params_below};
use crate::driver::{records, run, trail, Engine, Record, State, Step, Stop};
use crate::error::{ConfigError, Error};
use crate::expr::{valid_symbol, Expr};
use crate::invention::Abstraction;
use crate::mapping::{
    check_mapping, first_bad_name, leave_name, mapping_ok, output_name, pairs_view, renamed,
};
use crate::names::{lemma_library_extends, library_fits, library_view};
use crate::rewriter::Invention;
use crate::search::{oversize, rewrite_all, uses};
use crate::store::ExprStore;
use crate::symbol::symbol;
use crate::syntax::{parse, print, ParseError};

verus! {

/// An invention as text: what is supplied to a run and what leaves it.
#[derive(Debug, PartialEq, Eq)]
pub struct InventionText {
    /// The symbol by which the invention is called.
    pub name: Vec<u8>,
    /// The number of its parameters.
    pub arity: usize,
    /// The text of its body.
    pub body: Vec<u8>,
}

/// The mathematical content of an [`InventionText`].
pub struct Supplied {
    pub name: Seq<u8>,
    pub arity: nat,
    pub body: Seq<u8>,
}

impl View for InventionText {
    type V = Supplied;

    open spec fn view(&self) -> Supplied {
        Supplied { name: self.name@, arity: self.arity as nat, body: self.body@ }
    }
}

/// What a list of invention texts holds.
pub open spec fn supplied_view(texts: Seq<InventionText>) -> Seq<Supplied> {
    Seq::new(texts.len(), |j: int| texts[j]@)
}

/// What a run returns.
#[derive(Debug)]
pub struct Outcome {
    /// The texts of the rewritten programs, in the order of the input.
    pub programs: Vec<Vec<u8>>,
    /// The library: the supplied inventions, then the discovered ones in
    /// the order of their discovery.
    pub inventions: Vec<InventionText>,
    /// One record for each invention of the library.
    pub steps: Vec<Step>,
    /// Why discovery stopped; `None` where there was no discovery.
    pub stop: Option<Stop>,
    /// The weighted size of the corpus as it was given.
    pub original_size: u128,
    /// The weighted size of the rewritten corpus.
    pub final_size: u128,
}

/// The mathematical content of an [`Outcome`].
pub struct Report {
    pub programs: Seq<Seq<u8>>,
    pub inventions: Seq<Supplied>,
    pub steps: Seq<Record>,
    pub stop: Option<Stop>,
    pub original_size: nat,
    pub final_size: nat,
}

impl View for Outcome {
    type V = Report;

    open spec fn view(&self) -> Report {
        Report {
            programs: texts_view(self.programs@),
            inventions: supplied_view(self.inventions@),
            steps: records(self.steps@),
            stop: self.stop,
            original_size: self.original_size as nat,
            final_size: self.final_size as nat,
        }
    }
}

/// What is wrong with the supplied invention at position `j`, if anything.
pub open spec fn invention_error(inv: Supplied, j: usize) -> Option<Error> {
    if !valid_symbol(inv.name) {
        Some(Error::Configuration(ConfigError::BadInvention(j)))
    } else {
        match parse(inv.body) {
            Err(error) => Some(Error::ParseInvention { invention: j, error }),
            Ok(body) => if closed_at(body, 0) && params_below(body, inv.arity) {
                None
            } else {
                Some(Error::Configuration(ConfigError::BadInvention(j)))
            },
        }
    }
}

/// The error of the first of the first `n` supplied inventions that has
/// one.
pub open spec fn first_invention_error(invs: Seq<Supplied>, n: nat) -> Option<Error>
    decreases n,
{
    if n == 0 || n > invs.len() {
        None
    } else {
        match first_invention_error(invs, (n - 1) as nat) {
            Some(e) => Some(e),
            None => invention_error(invs[n - 1], (n - 1) as usize),
        }
    }
}

/// The first error among more inventions is the first one found.
pub proof fn lemma_invention_error_found(invs: Seq<Supplied>, n: nat, j: nat)
    requires
        j < n <= invs.len(),
        first_invention_error(invs, j) is None,
        invention_error(invs[j as int], j as usize) is Some,
    ensures
        first_invention_error(invs, n) == invention_error(invs[j as int], j as usize),
    decreases n,
{
    if n > j + 1 {
        lemma_invention_error_found(invs, (n - 1) as nat, j);
    }
}

/// The invention that a supplied text describes.
pub open spec fn abstraction_of(inv: Supplied) -> Abstraction {
    Abstraction { name: inv.name, arity: inv.arity, body: parse(inv.body)->Ok_0 }
}

/// The inventions that supplied texts describe.
pub open spec fn abstractions_of(invs: Seq<Supplied>) -> Seq<Abstraction> {
    Seq::new(invs.len(), |j: int| abstraction_of(invs[j]))
}

/// The programs that texts describe.
pub open spec fn parsed(texts: Seq<Seq<u8>>) -> Seq<Expr> {
    Seq::new(texts.len(), |i: int| parse(texts[i])->Ok_0)
}

/// The programs rewritten with the first `n` inventions, one after the
/// other.
pub open spec fn supplied(programs: Seq<Expr>, invs: Seq<Abstraction>, n: nat) -> Seq<Expr>
    decreases n,
{
    if n == 0 || n > invs.len() {
        programs
    } else {
        rewrite_all(invs[n - 1], supplied(programs, invs, (n - 1) as nat))
    }
}

/// The error of the first of the first `n` inventions that makes a program
/// larger than the engine accounts for.
pub open spec fn supply_error(programs: Seq<Expr>, invs: Seq<Abstraction>, n: nat) -> Option<Error>
    decreases n,
{
    if n == 0 || n > invs.len() {
        None
    } else {
        match supply_error(programs, invs, (n - 1) as nat) {
            Some(e) => Some(e),
            None => {
                let before = supplied(programs, invs, (n - 1) as nat);
                match oversize(invs[n - 1], before, before.len()) {
                    Some(i) => Some(Error::TooLarge { program: i as usize }),
                    None => None,
                }
            },
        }
    }
}

/// The record of applying the supplied invention at position `j`, which
/// becomes the invention at position `base + j` of the library.
pub open spec fn supply_record(
    programs: Seq<Expr>,
    weights: Seq<u32>,
    invs: Seq<Abstraction>,
    j: nat,
    base: nat,
    original: nat,
) -> Record {
    let before = supplied(programs, invs, j);
    Record {
        invention: base + j,
        discovered: false,
        occurrences: uses(invs[j as int], before, before.len()),
        size_before: total_size(weights, before),
        size_after: total_size(weights, rewrite_all(invs[j as int], before)),
        original_size: original,
    }
}

/// The records of applying the first `n` supplied inventions.
pub open spec fn supply_trail(
    programs: Seq<Expr>,
    weights: Seq<u32>,
    invs: Seq<Abstraction>,
    n: nat,
    base: nat,
    original: nat,
) -> Seq<Record> {
    Seq::new(n, |j: int| supply_record(programs, weights, invs, j as nat, base, original))
}

/// The first error among more inventions is the first one found.
pub proof fn lemma_supply_error_found(programs: Seq<Expr>, invs: Seq<Abstraction>, n: nat, j: nat)
    requires
        j < n <= invs.len(),
        supply_error(programs, invs, j) is None,
        oversize(invs[j as int], supplied(programs, invs, j), supplied(programs, invs, j).len())
            is Some,
    ensures
        supply_error(programs, invs, n) == Some(
            Error::TooLarge {
                program: oversize(
                    invs[j as int],
                    supplied(programs, invs, j),
                    supplied(programs, invs, j).len(),
                )->Some_0 as usize,
            },
        ),
    decreases n,
{
    if n > j + 1 {
        lemma_supply_error_found(programs, invs, (n - 1) as nat, j);
    }
}

/// Reads supplied inventions into the store. Fails with the error of the
/// first one that has one.
pub fn read_inventions(store: &mut ExprStore, texts: &Vec<InventionText>) -> (r: Result<
    Vec<Invention>,
    Error,
>)
    requires
        old(store).wf(),
    ensures
        final(store).wf(),
        final(store).extends(old(store)),
        match r {
            Ok(lib) => {
                &&& first_invention_error(supplied_view(texts@), texts@.len() as nat) is None
                &&& library_fits(final(store), lib@)
                &&& library_view(final(store), lib@) == abstractions_of(supplied_view(texts@))
            },
            Err(e) => first_invention_error(supplied_view(texts@), texts@.len() as nat) == Some(e),
        },
{
    let ghost start = *store;
    let ghost sv = supplied_view(texts@);
    let mut lib: Vec<Invention> = Vec::new();
    let mut j: usize = 0;
    while j < texts.len()
        invariant
            store.wf(),
            store.extends(&start),
            start == *old(store),
            sv == supplied_view(texts@),
            j <= texts@.len(),
            lib@.len() == j,
            first_invention_error(sv, j as nat) is None,
            library_fits(store, lib@),
            forall|k: int|
                0 <= k < j ==> (#[trigger] lib@[k]).view_in(store) == abstraction_of(sv[k]),
        decreases texts@.len() - j,
    {
        let ghost mid = *store;
        let ghost before = lib@;
        let text = &texts[j];
        assert(sv[j as int] == texts@[j as int]@);
        if !symbol(text.name.as_slice()) {
            proof {
                lemma_invention_error_found(sv, texts@.len() as nat, j as nat);
            }
            return Err(Error::Configuration(ConfigError::BadInvention(j)));
        }
        let body = match store.parse_extend(text.body.as_slice()) {
            Ok(body) => body,
            Err(error) => {
                proof {
                    store.lemma_extends_trans(&mid, &start);
                    lemma_invention_error_found(sv, texts@.len() as nat, j as nat);
                }
                return Err(Error::ParseInvention { invention: j, error });
            },
        };
        proof {
            store.lemma_extends_trans(&mid, &start);
        }
        if !store.is_closed(body) || !store.has_params_below(body, text.arity) {
            proof {
                lemma_invention_error_found(sv, texts@.len() as nat, j as nat);
            }
            return Err(Error::Configuration(ConfigError::BadInvention(j)));
        }
        proof {
            lemma_library_extends(store, &mid, before);
        }
        lib.push(
            Invention {
                name: vstd::slice::slice_to_vec(text.name.as_slice()),
                arity: text.arity,
                body,
            },
        );
        proof {
            assert forall|k: int| 0 <= k < j + 1 implies (#[trigger] lib@[k]).view_in(store)
                == abstraction_of(sv[k]) by {
                if k < j {
                    assert(lib@[k] == before[k]);
                    assert(library_view(store, before)[k] == library_view(&mid, before)[k]);
                    assert(before[k].view_in(&mid) == abstraction_of(sv[k]));
                }
            }
            assert forall|k: int| 0 <= k < lib@.len() implies (#[trigger] lib@[k]).fits(store) by {
                if k < j {
                    assert(lib@[k] == before[k]);
                    assert(before[k].fits(store));
                }
            }
        }
        j += 1;
    }
    proof {
        assert(library_view(store, lib@) =~= abstractions_of(sv));
    }
    Ok(lib)
}

impl Engine {
    /// Applies the given inventions to the corpus, one after the other, and
    /// adds them to the library. Fails if a program gets larger than the
    /// engine accounts for.
    pub fn supply(&mut self, given: &Vec<Invention>) -> (r: Result<(), Error>)
        requires
            old(self).wf(),
            library_fits(&old(self).corpus.store, given@),
        ensures
            final(self).wf(),
            final(self).corpus.weights == old(self).corpus.weights,
            final(self).original_size == old(self).original_size,
            final(self).corpus.store.extends(&old(self).corpus.store),
            ({
                let invs = library_view(&old(self).corpus.store, given@);
                let ps = old(self).corpus.programs();
                match r {
                    Ok(_) => {
                        &&& supply_error(ps, invs, invs.len()) is None
                        &&& final(self).state() == (State {
                            programs: supplied(ps, invs, invs.len()),
                            library: old(self).state().library + invs,
                        })
                        &&& records(final(self).steps@) == records(old(self).steps@)
                            + supply_trail(
                            ps,
                            old(self).corpus.weights@,
                            invs,
                            invs.len(),
                            old(self).library@.len() as nat,
                            old(self).original_size as nat,
                        )
                    },
                    Err(e) => supply_error(ps, invs, invs.len()) == Some(e),
                }
            }),
    {
        let ghost start = self.corpus.store;
        let ghost invs = library_view(&start, given@);
        let ghost ps = self.corpus.programs();
        let ghost lib0 = self.state().library;
        let ghost steps0 = self.steps@;
        let ghost ws = self.corpus.weights@;
        let ghost base = self.library@.len() as nat;
        let ghost original = self.original_size as nat;
        let mut j: usize = 0;
        proof {
            assert(lib0 + invs.subrange(0, 0) =~= lib0);
            assert(records(self.steps@) =~= records(steps0) + supply_trail(
                ps,
                ws,
                invs,
                0,
                base,
                original,
            ));
        }
        while j < given.len()
            invariant
                self.wf(),
                self.corpus.weights == old(self).corpus.weights,
                self.original_size == old(self).original_size,
                self.corpus.store.extends(&start),
                start == old(self).corpus.store,
                library_fits(&start, given@),
                invs == library_view(&start, given@),
                ps == old(self).corpus.programs(),
                lib0 == old(self).state().library,
                steps0 == old(self).steps@,
                j <= given@.len(),
                supply_error(ps, invs, j as nat) is None,
                self.corpus.programs() == supplied(ps, invs, j as nat),
                self.state().library == lib0 + invs.subrange(0, j as int),
                ws == self.corpus.weights@,
                base == old(self).library@.len(),
                original == old(self).original_size as nat,
                self.library@.len() == base + j,
                records(self.steps@) == records(steps0) + supply_trail(
                    ps,
                    ws,
                    invs,
                    j as nat,
                    base,
                    original,
                ),
            decreases given@.len() - j,
        {
            let ghost mid = self.corpus.store;
            let ghost lib_before = self.library@;
            let ghost steps_before = self.steps@;
            let inv = Invention {
                name: vstd::slice::slice_to_vec(given[j].name.as_slice()),
                arity: given[j].arity,
                body: given[j].body,
            };
            proof {
                assert(given@[j as int].fits(&start));
                mid.lemma_extends_expr(&start, inv.body as int);
                assert(inv.view_in(&mid) == invs[j as int]);
            }
            let before = self.corpus.total_size();
            let (count, after) = match self.corpus.apply(&inv) {
                Ok(done) => done,
                Err(i) => {
                    proof {
                        self.corpus.store.lemma_extends_trans(&mid, &start);
                        lemma_library_extends(&self.corpus.store, &mid, self.library@);
                        lemma_supply_error_found(ps, invs, invs.len(), j as nat);
                    }
                    return Err(Error::TooLarge { program: i });
                },
            };
            proof {
                self.corpus.store.lemma_extends_trans(&mid, &start);
                lemma_library_extends(&self.corpus.store, &mid, lib_before);
                self.corpus.store.lemma_extends_expr(&mid, inv.body as int);
            }
            let position = self.library.len();
            self.library.push(inv);
            self.steps.push(
                Step {
                    invention: position,
                    discovered: false,
                    occurrences: count,
                    size_before: before,
                    size_after: after,
                    original_size: self.original_size,
                },
            );
            proof {
                assert(library_view(&self.corpus.store, self.library@) =~= (lib0 + invs.subrange(
                    0,
                    j as int,
                )).push(invs[j as int]));
                assert((lib0 + invs.subrange(0, j as int)).push(invs[j as int]) =~= lib0
                    + invs.subrange(0, j + 1));
                let record = supply_record(ps, ws, invs, j as nat, base, original);
                assert(self.steps@[steps_before.len() as int]@ == record);
                assert(records(self.steps@) =~= records(steps_before).push(record));
                assert(records(self.steps@) =~= records(steps0) + supply_trail(
                    ps,
                    ws,
                    invs,
                    (j + 1) as nat,
                    base,
                    original,
                ));
            }
            j += 1;
        }
        proof {
            assert(invs.subrange(0, invs.len() as int) =~= invs);
        }
        Ok(())
    }
}

/// The texts of the programs of a state, with the inventions called by
/// their output names.
pub open spec fn rendered_programs(st: State, mapping: Seq<(Seq<u8>, Seq<u8>)>) -> Seq<Seq<u8>> {
    Seq::new(st.programs.len(), |i: int| print(renamed(st.programs[i], mapping, st.library)))
}

/// The library of a state as text, under the output names.
pub open spec fn rendered_library(st: State, mapping: Seq<(Seq<u8>, Seq<u8>)>) -> Seq<Supplied> {
    Seq::new(
        st.library.len(),
        |j: int|
            Supplied {
                name: output_name(mapping, st.library, st.library[j].name),
                arity: st.library[j].arity,
                body: print(renamed(st.library[j].body, mapping, st.library)),
            },
    )
}

impl Engine {
    /// Writes the programs and the library down, with the inventions called
    /// by their output names.
    pub fn output(self, mapping: &Vec<(Vec<u8>, Vec<u8>)>, stop: Option<Stop>) -> (out: Outcome)
        requires
            self.wf(),
            mapping_ok(pairs_view(mapping@)),
        ensures
            texts_view(out.programs@) == rendered_programs(self.state(), pairs_view(mapping@)),
            supplied_view(out.inventions@) == rendered_library(self.state(), pairs_view(mapping@)),
            out.steps == self.steps,
            out.stop == stop,
            out.original_size == self.original_size,
            out.final_size == self.corpus.total(),
    {
        let mut me = self;
        let ghost start = self.corpus.store;
        let ghost st = self.state();
        let ghost pv = pairs_view(mapping@);
        let final_size = me.corpus.total_size();
        let mut programs: Vec<Vec<u8>> = Vec::new();
        let mut i: usize = 0;
        while i < me.corpus.roots.len()
            invariant
                me.corpus.store.wf(),
                me.corpus.store.extends(&start),
                me.corpus.roots == self.corpus.roots,
                me.library == self.library,
                me.steps == self.steps,
                me.original_size == self.original_size,
                start.wf(),
                forall|k: int|
                    0 <= k < me.corpus.roots@.len() ==> #[trigger] me.corpus.roots@[k]
                        < start@.len(),
                library_fits(&start, me.library@),
                st.programs == start.exprs(me.corpus.roots@),
                st.library == library_view(&start, me.library@),
                pv == pairs_view(mapping@),
                mapping_ok(pv),
                i <= me.corpus.roots@.len(),
                programs@.len() == i,
                forall|k: int|
                    0 <= k < i ==> (#[trigger] programs@[k])@ == print(
                        renamed(st.programs[k], pv, st.library),
                    ),
            decreases me.corpus.roots@.len() - i,
        {
            let ghost mid = me.corpus.store;
            let root = me.corpus.roots[i];
            proof {
                lemma_library_extends(&mid, &start, me.library@);
                mid.lemma_extends_expr(&start, root as int);
                assert(st.programs[i as int] == start.expr(root as int));
            }
            let out = me.corpus.store.rename(root, mapping, &me.library, Ghost(st.library));
            let text = me.corpus.store.print(out);
            proof {
                me.corpus.store.lemma_extends_trans(&mid, &start);
            }
            programs.push(text);
            i += 1;
        }
        let mut inventions: Vec<InventionText> = Vec::new();
        let mut j: usize = 0;
        while j < me.library.len()
            invariant
                me.corpus.store.wf(),
                me.corpus.store.extends(&start),
                me.library == self.library,
                me.steps == self.steps,
                me.original_size == self.original_size,
                start.wf(),
                library_fits(&start, me.library@),
                st.library == library_view(&start, me.library@),
                pv == pairs_view(mapping@),
                mapping_ok(pv),
                j <= me.library@.len(),
                inventions@.len() == j,
                forall|k: int|
                    0 <= k < j ==> (#[trigger] inventions@[k])@ == rendered_library(st, pv)[k],
            decreases me.library@.len() - j,
        {
            let ghost mid = me.corpus.store;
            proof {
                lemma_library_extends(&mid, &start, me.library@);
                assert(me.library@[j as int].fits(&start));
                mid.lemma_extends_expr(&start, me.library@[j as int].body as int);
                assert(st.library[j as int] == me.library@[j as int].view_in(&start));
            }
            let body = me.corpus.store.rename(
                me.library[j].body,
                mapping,
                &me.library,
                Ghost(st.library),
            );
            let text = me.corpus.store.print(body);
            let name = leave_name(
                mapping,
                &me.library,
                me.library[j].name.as_slice(),
                Ghost(&mid),
            );
            proof {
                me.corpus.store.lemma_extends_trans(&mid, &start);
            }
            inventions.push(InventionText { name, arity: me.library[j].arity, body: text });
            j += 1;
        }
        proof {
            assert(texts_view(programs@) =~= rendered_programs(st, pv));
            assert(supplied_view(inventions@) =~= rendered_library(st, pv));
        }
        Outcome {
            programs,
            inventions,
            steps: me.steps,
            stop,
            original_size: me.original_size,
            final_size,
        }
    }
}

/// The weights of a run: the given ones, or 1.0 for each of the `n`
/// programs.
pub open spec fn weights_view(weights: Option<&Vec<u32>>, n: nat) -> Seq<u32> {
    match weights {
        Some(w) => w@,
        None => Seq::new(n, |i: int| UNIT),
    }
}

/// A name mapping, or the empty one.
pub open spec fn mapping_view(mapping: Option<&Vec<(Vec<u8>, Vec<u8>)>>) -> Seq<(Seq<u8>, Seq<u8>)> {
    match mapping {
        Some(m) => pairs_view(m@),
        None => Seq::empty(),
    }
}

/// Supplied inventions, or none.
pub open spec fn existing_view(existing: Option<&Vec<InventionText>>) -> Seq<Supplied> {
    match existing {
        Some(e) => supplied_view(e@),
        None => Seq::empty(),
    }
}

/// Why a run cannot start, if it cannot: the first of an option out of
/// range, an empty corpus, a wrong number of task labels or of weights,
/// a new name that is not a symbol, a program that is not valid, a
/// supplied invention that is not valid, and a supplied invention that
/// makes a program too large.
pub open spec fn input_error(
    programs: Seq<Seq<u8>>,
    tasks: Option<&Vec<Vec<u8>>>,
    weights: Option<&Vec<u32>>,
    mapping: Seq<(Seq<u8>, Seq<u8>)>,
    existing: Seq<Supplied>,
    cfg: Config,
) -> Option<Error> {
    if cfg.fault() is Some {
        Some(Error::Configuration(cfg.fault()->Some_0))
    } else if programs.len() == 0 {
        Some(Error::Configuration(ConfigError::NoPrograms))
    } else if tasks is Some && tasks->Some_0@.len() != programs.len() {
        Some(Error::Configuration(ConfigError::TaskCount))
    } else if weights is Some && weights->Some_0@.len() != programs.len() {
        Some(Error::Configuration(ConfigError::WeightCount))
    } else if first_bad_name(mapping, mapping.len()) is Some {
        Some(
            Error::Configuration(
                ConfigError::BadName(first_bad_name(mapping, mapping.len())->Some_0 as usize),
            ),
        )
    } else if first_error(programs, programs.len()) is Some {
        first_error(programs, programs.len())
    } else if first_invention_error(existing, existing.len()) is Some {
        first_invention_error(existing, existing.len())
    } else {
        supply_error(parsed(programs), abstractions_of(existing), existing.len())
    }
}

/// The state in which discovery starts: the programs rewritten with the
/// supplied inventions, and these as the library.
pub open spec fn seeded(programs: Seq<Seq<u8>>, existing: Seq<Supplied>) -> State {
    State {
        programs: supplied(parsed(programs), abstractions_of(existing), existing.len()),
        library: abstractions_of(existing),
    }
}

/// Reads the input of a run and applies the supplied inventions.
fn prepare(
    programs: &Vec<Vec<u8>>,
    tasks: Option<&Vec<Vec<u8>>>,
    weights: Option<&Vec<u32>>,
    name_mapping: Option<&Vec<(Vec<u8>, Vec<u8>)>>,
    existing: Option<&Vec<InventionText>>,
    cfg: &Config,
) -> (r: Result<Engine, Error>)
    ensures
        match r {
            Ok(engine) => {
                &&& input_error(
                    texts_view(programs@),
                    tasks,
                    weights,
                    mapping_view(name_mapping),
                    existing_view(existing),
                    *cfg,
                ) is None
                &&& mapping_ok(mapping_view(name_mapping))
                &&& engine.wf()
                &&& engine.corpus.weights@ == weights_view(weights, programs@.len() as nat)
                &&& engine.state() == seeded(texts_view(programs@), existing_view(existing))
                &&& engine.original_size == total_size(
                    weights_view(weights, programs@.len() as nat),
                    parsed(texts_view(programs@)),
                )
                &&& records(engine.steps@) == supply_trail(
                    parsed(texts_view(programs@)),
                    weights_view(weights, programs@.len() as nat),
                    abstractions_of(existing_view(existing)),
                    existing_view(existing).len(),
                    0,
                    engine.original_size as nat,
                )
            },
            Err(e) => input_error(
                texts_view(programs@),
                tasks,
                weights,
                mapping_view(name_mapping),
                existing_view(existing),
                *cfg,
            ) == Some(e),
        },
{
    let ghost tv = texts_view(programs@);
    match cfg.validate() {
        Ok(_) => {},
        Err(e) => {
            return Err(Error::Configuration(e));
        },
    }
    if programs.len() == 0 {
        return Err(Error::Configuration(ConfigError::NoPrograms));
    }
    match tasks {
        Some(t) => {
            if t.len() != programs.len() {
                return Err(Error::Configuration(ConfigError::TaskCount));
            }
        },
        None => {},
    }
    let ws: Vec<u32> = match weights {
        Some(w) => {
            if w.len() != programs.len() {
                return Err(Error::Configuration(ConfigError::WeightCount));
            }
            vstd::slice::slice_to_vec(w.as_slice())
        },
        None => {
            let mut unit: Vec<u32> = Vec::new();
            let mut i: usize = 0;
            while i < programs.len()
                invariant
                    i <= programs@.len(),
                    unit@.len() == i,
                    forall|k: int| 0 <= k < i ==> unit@[k] == UNIT,
                decreases programs@.len() - i,
            {
                unit.push(UNIT);
                i += 1;
            }
            proof {
                assert(unit@ =~= weights_view(weights, programs@.len() as nat));
            }
            unit
        },
    };
    match name_mapping {
        Some(m) => {
            match check_mapping(m) {
                Some(i) => {
                    return Err(Error::Configuration(ConfigError::BadName(i)));
                },
                None => {},
            }
        },
        None => {},
    }
    let corpus = match Corpus::from_texts(programs, ws) {
        Ok(c) => c,
        Err(e) => {
            return Err(e);
        },
    };
    proof {
        assert(corpus.programs() =~= parsed(tv)) by {
            assert forall|i: int| 0 <= i < tv.len() implies corpus.programs()[i] == parsed(tv)[i] by {
                assert(parse(programs@[i]@) == Ok::<Expr, ParseError>(corpus.programs()[i]));
            }
        }
    }
    let mut engine = Engine::new(corpus);
    match existing {
        Some(texts) => {
            let ghost early = engine.corpus.store;
            let lib = match read_inventions(&mut engine.corpus.store, texts) {
                Ok(lib) => lib,
                Err(e) => {
                    return Err(e);
                },
            };
            proof {
                engine.corpus.store.lemma_extends_exprs(&early, engine.corpus.roots@);
                assert forall|i: int| 0 <= i < engine.corpus.roots@.len() implies valid_program(
                    engine.corpus.store.expr(#[trigger] engine.corpus.roots@[i] as int),
                ) by {
                    engine.corpus.store.lemma_extends_expr(&early, engine.corpus.roots@[i] as int);
                }
                assert(library_view(&engine.corpus.store, engine.library@) =~= Seq::<
                    Abstraction,
                >::empty());
            }
            match engine.supply(&lib) {
                Ok(_) => {},
                Err(e) => {
                    return Err(e);
                },
            }
            proof {
                assert(engine.state().library =~= abstractions_of(supplied_view(texts@)));
                assert(records(engine.steps@) =~= supply_trail(
                    parsed(tv),
                    engine.corpus.weights@,
                    abstractions_of(supplied_view(texts@)),
                    texts@.len() as nat,
                    0,
                    engine.original_size as nat,
                ));
            }
        },
        None => {
            proof {
                assert(engine.state().library =~= abstractions_of(existing_view(existing)));
                assert(records(engine.steps@) =~= supply_trail(
                    parsed(tv),
                    engine.corpus.weights@,
                    abstractions_of(existing_view(existing)),
                    0,
                    0,
                    engine.original_size as nat,
                ));
            }
        },
    }
    Ok(engine)
}

/// What compression returns: the error of the input if it has one, and
/// else the state in which discovery stops, written down under the output
/// names, with the record of every step.
pub open spec fn compression(
    programs: Seq<Seq<u8>>,
    tasks: Option<&Vec<Vec<u8>>>,
    weights: Option<&Vec<u32>>,
    mapping: Seq<(Seq<u8>, Seq<u8>)>,
    existing: Seq<Supplied>,
    cfg: Config,
) -> Result<Report, Error> {
    match input_error(programs, tasks, weights, mapping, existing, cfg) {
        Some(e) => Err(e),
        None => {
            let ws = weights_view(weights, programs.len());
            let original = total_size(ws, parsed(programs));
            let start = seeded(programs, existing);
            let (st, stop) = run(start, ws, cfg.limits(), 0);
            Ok(
                Report {
                    programs: rendered_programs(st, mapping),
                    inventions: rendered_library(st, mapping),
                    steps: supply_trail(
                        parsed(programs),
                        ws,
                        abstractions_of(existing),
                        existing.len(),
                        0,
                        original,
                    ) + trail(start, ws, cfg.limits(), 0, original),
                    stop: Some(stop),
                    original_size: original,
                    final_size: total_size(ws, st.programs),
                },
            )
        },
    }
}

/// What rewriting with a given library returns: the error of the input if
/// it has one, and else the programs rewritten with the inventions, one
/// after the other, with the record of every step.
pub open spec fn rewriting(programs: Seq<Seq<u8>>, inventions: Seq<Supplied>, cfg: Config) -> Result<
    Report,
    Error,
> {
    match input_error(programs, None, None, Seq::empty(), inventions, cfg) {
        Some(e) => Err(e),
        None => {
            let ws = weights_view(None, programs.len());
            let original = total_size(ws, parsed(programs));
            let st = seeded(programs, inventions);
            Ok(
                Report {
                    programs: rendered_programs(st, Seq::empty()),
                    inventions: rendered_library(st, Seq::empty()),
                    steps: supply_trail(
                        parsed(programs),
                        ws,
                        abstractions_of(inventions),
                        inventions.len(),
                        0,
                        original,
                    ),
                    stop: None,
                    original_size: original,
                    final_size: total_size(ws, st.programs),
                },
            )
        },
    }
}

/// Determinism: the result of compression is a function of the input and
/// of the configuration without its thread count.
pub proof fn lemma_thread_count_irrelevant(
    programs: Seq<Seq<u8>>,
    tasks: Option<&Vec<Vec<u8>>>,
    weights: Option<&Vec<u32>>,
    mapping: Seq<(Seq<u8>, Seq<u8>)>,
    existing: Seq<Supplied>,
    one: Config,
    many: Config,
)
    requires
        one.thread_count >= 1,
        many.thread_count >= 1,
        one.max_arity == many.max_arity,
        one.max_rounds == many.max_rounds,
        one.beam_width == many.beam_width,
        one.min_utility == many.min_utility,
        one.invention_count_budget == many.invention_count_budget,
    ensures
        compression(programs, tasks, weights, mapping, existing, one) == compression(
            programs,
            tasks,
            weights,
            mapping,
            existing,
            many,
        ),
{
    assert(one.limits() == many.limits());
}

/// With no round allowed, compression only applies the supplied
/// inventions: without any, the programs come out as they went in.
pub proof fn lemma_no_round(
    programs: Seq<Seq<u8>>,
    tasks: Option<&Vec<Vec<u8>>>,
    weights: Option<&Vec<u32>>,
    mapping: Seq<(Seq<u8>, Seq<u8>)>,
    existing: Seq<Supplied>,
    cfg: Config,
)
    requires
        cfg.max_rounds == 0,
        compression(programs, tasks, weights, mapping, existing, cfg) is Ok,
    ensures
        ({
            let report = compression(programs, tasks, weights, mapping, existing, cfg)->Ok_0;
            &&& report.stop == Some(Stop::MaxRounds)
            &&& report.programs == rendered_programs(seeded(programs, existing), mapping)
            &&& report.inventions.len() == existing.len()
            &&& report.steps.len() == existing.len()
            &&& existing.len() == 0 ==> report.final_size == report.original_size
                && report.programs.len() == programs.len() && forall|i: int|
                0 <= i < programs.len() ==> parse(#[trigger] report.programs[i]) == parse(
                    programs[i],
                )
        }),
{
    let ws = weights_view(weights, programs.len());
    let original = total_size(ws, parsed(programs));
    let start = seeded(programs, existing);
    assert(trail(start, ws, cfg.limits(), 0, original) =~= Seq::<Record>::empty());
    if existing.len() == 0 {
        assert(start.library =~= Seq::<Abstraction>::empty());
        assert(start.programs == parsed(programs));
        assert(first_error(programs, programs.len()) is None);
        assert forall|i: int| 0 <= i < programs.len() implies parse(
            #[trigger] rendered_programs(start, mapping)[i],
        ) == parse(programs[i]) by {
            lemma_clean_program(programs, i);
            let e = parse(programs[i])->Ok_0;
            assert(start.programs[i] == e);
            crate::mapping::lemma_renamed_without_library(e, mapping);
            crate::roundtrip::lemma_parse_print(e);
            assert(rendered_programs(start, mapping)[i] == print(e));
        }
    }
}

/// In an input without error every text is a well-formed program.
pub proof fn lemma_clean_program(programs: Seq<Seq<u8>>, i: int)
    requires
        first_error(programs, programs.len()) is None,
        0 <= i < programs.len(),
    ensures
        parse(programs[i]) is Ok,
        crate::expr::wf(parse(programs[i])->Ok_0),
{
    lemma_no_first_error(programs, programs.len(), i);
    crate::roundtrip::lemma_parse_wf(programs[i]);
}

/// Without a first error none of the texts has an error.
pub proof fn lemma_no_first_error(programs: Seq<Seq<u8>>, n: nat, i: int)
    requires
        n <= programs.len(),
        first_error(programs, n) is None,
        0 <= i < n,
    ensures
        crate::corpus::program_error(programs[i], i as usize) is None,
    decreases n,
{
    if i < n - 1 {
        lemma_no_first_error(programs, (n - 1) as nat, i);
    }
}

/// Compresses a corpus: applies the supplied inventions, if any, then runs
/// rounds of discovery, each of which commits the best invention with a
/// positive score and rewrites the corpus with it, and writes the result
/// down under the output names.
pub fn multistep_compression(
    programs: &Vec<Vec<u8>>,
    tasks: Option<&Vec<Vec<u8>>>,
    weights: Option<&Vec<u32>>,
    name_mapping: Option<&Vec<(Vec<u8>, Vec<u8>)>>,
    existing_inventions: Option<&Vec<InventionText>>,
    cfg: &Config,
) -> (r: Result<Outcome, Error>)
    ensures
        match r {
            Ok(out) => compression(
                texts_view(programs@),
                tasks,
                weights,
                mapping_view(name_mapping),
                existing_view(existing_inventions),
                *cfg,
            ) == Ok::<Report, Error>(out@),
            Err(e) => compression(
                texts_view(programs@),
                tasks,
                weights,
                mapping_view(name_mapping),
                existing_view(existing_inventions),
                *cfg,
            ) == Err::<Report, Error>(e),
        },
{
    let mut engine = match prepare(programs, tasks, weights, name_mapping, existing_inventions, cfg) {
        Ok(engine) => engine,
        Err(e) => {
            return Err(e);
        },
    };
    let stop = engine.discover(cfg);
    let empty: Vec<(Vec<u8>, Vec<u8>)> = Vec::new();
    let out = match name_mapping {
        Some(m) => engine.output(m, Some(stop)),
        None => {
            proof {
                assert(pairs_view(empty@) =~= mapping_view(name_mapping));
            }
            engine.output(&empty, Some(stop))
        },
    };
    Ok(out)
}

/// Rewrites a corpus with a given library, without discovery: applies the
/// inventions one after the other and writes the result down.
pub fn rewrite_with_inventions(
    programs: &Vec<Vec<u8>>,
    inventions: &Vec<InventionText>,
    cfg: &Config,
) -> (r: Result<Outcome, Error>)
    ensures
        match r {
            Ok(out) => rewriting(texts_view(programs@), supplied_view(inventions@), *cfg) == Ok::<
                Report,
                Error,
            >(out@),
            Err(e) => rewriting(texts_view(programs@), supplied_view(inventions@), *cfg) == Err::<
                Report,
                Error,
            >(e),
        },
{
    let engine = match prepare(programs, None, None, None, Some(inventions), cfg) {
        Ok(engine) => engine,
        Err(e) => {
            return Err(e);
        },
    };
    let empty: Vec<(Vec<u8>, Vec<u8>)> = Vec::new();
    proof {
        assert(pairs_view(empty@) =~= Seq::<(Seq<u8>, Seq<u8>)>::empty());
    }
    Ok(engine.output(&empty, None))
}

} // verus!
