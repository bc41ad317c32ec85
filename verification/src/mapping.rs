//! Name mappings: the names under which inventions leave a run.

use vstd::prelude::*;
use crate::expr::{valid_symbol, Expr};
use crate::invention::Abstraction;
use crate::names::{library_fits, library_view};
use crate::rewriter::Invention;
use crate::store::{bytes_eq, expr_at, exprs_at, shape_ok, ExprStore, Node, Shape};
use crate::symbol::symbol;

verus! {

/// A name mapping, as byte strings.
pub open spec fn pairs_view(mapping: Seq<(Vec<u8>, Vec<u8>)>) -> Seq<(Seq<u8>, Seq<u8>)> {
    Seq::new(mapping.len(), |i: int| (mapping[i].0@, mapping[i].1@))
}

/// The new name that the first `n` entries of `mapping` give `name`: that of
/// the last entry for it, and `name` itself if there is none.
pub open spec fn lookup(mapping: Seq<(Seq<u8>, Seq<u8>)>, n: nat, name: Seq<u8>) -> Seq<u8>
    decreases n,
{
    if n == 0 || n > mapping.len() {
        name
    } else if mapping[n - 1].0 == name {
        mapping[n - 1].1
    } else {
        lookup(mapping, (n - 1) as nat, name)
    }
}

/// Whether an invention of the library is called `name`.
pub open spec fn in_library(library: Seq<Abstraction>, name: Seq<u8>) -> bool {
    exists|j: int| 0 <= j < library.len() && (#[trigger] library[j]).name == name
}

/// The name under which the symbol `name` leaves a run: mapped if it names
/// an invention of the library, unchanged if not.
pub open spec fn output_name(
    mapping: Seq<(Seq<u8>, Seq<u8>)>,
    library: Seq<Abstraction>,
    name: Seq<u8>,
) -> Seq<u8> {
    if in_library(library, name) {
        lookup(mapping, mapping.len(), name)
    } else {
        name
    }
}

/// `e` with the inventions of the library called by their output names.
pub open spec fn renamed(e: Expr, mapping: Seq<(Seq<u8>, Seq<u8>)>, library: Seq<Abstraction>) -> Expr
    decreases e,
{
    match e {
        Expr::Sym(name) => Expr::Sym(output_name(mapping, library, name)),
        Expr::Lam(n, body) => Expr::Lam(n, Box::new(renamed(*body, mapping, library))),
        Expr::App(items) => Expr::App(
            Seq::new(
                items.len(),
                |k: int|
                    if 0 <= k < items.len() {
                        renamed(items[k], mapping, library)
                    } else {
                        e
                    },
            ),
        ),
        _ => e,
    }
}

/// Where the library is empty, no symbol is renamed.
pub proof fn lemma_renamed_without_library(e: Expr, mapping: Seq<(Seq<u8>, Seq<u8>)>)
    ensures
        renamed(e, mapping, Seq::empty()) == e,
    decreases e,
{
    match e {
        Expr::Lam(_, body) => {
            lemma_renamed_without_library(*body, mapping);
        },
        Expr::App(items) => {
            assert forall|k: int| 0 <= k < items.len() implies renamed(
                items[k],
                mapping,
                Seq::empty(),
            ) == items[k] by {
                lemma_renamed_without_library(items[k], mapping);
            }
            assert(renamed(e, mapping, Seq::empty())->App_0 =~= items);
        },
        _ => {},
    }
}

/// Every new name of the mapping is a symbol.
pub open spec fn mapping_ok(mapping: Seq<(Seq<u8>, Seq<u8>)>) -> bool {
    forall|i: int| 0 <= i < mapping.len() ==> valid_symbol((#[trigger] mapping[i]).1)
}

/// The position of the first entry, among the first `n`, whose new name is
/// not a symbol.
pub open spec fn first_bad_name(mapping: Seq<(Seq<u8>, Seq<u8>)>, n: nat) -> Option<nat>
    decreases n,
{
    if n == 0 || n > mapping.len() {
        None
    } else {
        match first_bad_name(mapping, (n - 1) as nat) {
            Some(i) => Some(i),
            None => if valid_symbol(mapping[n - 1].1) {
                None
            } else {
                Some((n - 1) as nat)
            },
        }
    }
}

/// The first bad name among more entries is the first one found.
pub proof fn lemma_first_bad_name(mapping: Seq<(Seq<u8>, Seq<u8>)>, n: nat, i: nat)
    requires
        i < n <= mapping.len(),
        first_bad_name(mapping, i) is None,
        !valid_symbol(mapping[i as int].1),
    ensures
        first_bad_name(mapping, n) == Some(i),
    decreases n,
{
    if n > i + 1 {
        lemma_first_bad_name(mapping, (n - 1) as nat, i);
    }
}

/// A mapping without a bad name is in order.
pub proof fn lemma_no_bad_name(mapping: Seq<(Seq<u8>, Seq<u8>)>, n: nat)
    requires
        n <= mapping.len(),
        first_bad_name(mapping, n) is None,
    ensures
        forall|i: int| 0 <= i < n ==> valid_symbol((#[trigger] mapping[i]).1),
    decreases n,
{
    if n > 0 {
        lemma_no_bad_name(mapping, (n - 1) as nat);
    }
}

/// What a mapping gives is the name itself or a new name of the mapping.
pub proof fn lemma_lookup_valid(mapping: Seq<(Seq<u8>, Seq<u8>)>, n: nat, name: Seq<u8>)
    requires
        mapping_ok(mapping),
        valid_symbol(name),
    ensures
        valid_symbol(lookup(mapping, n, name)),
    decreases n,
{
    if n > 0 && n <= mapping.len() && mapping[n - 1].0 != name {
        lemma_lookup_valid(mapping, (n - 1) as nat, name);
    }
}

/// Checks the new names of a mapping: the position of the first one that
/// is not a symbol, if there is one.
pub fn check_mapping(mapping: &Vec<(Vec<u8>, Vec<u8>)>) -> (r: Option<usize>)
    ensures
        match r {
            Some(i) => first_bad_name(pairs_view(mapping@), mapping@.len() as nat) == Some(i as nat),
            None => first_bad_name(pairs_view(mapping@), mapping@.len() as nat) is None
                && mapping_ok(pairs_view(mapping@)),
        },
{
    let ghost pv = pairs_view(mapping@);
    let mut i: usize = 0;
    while i < mapping.len()
        invariant
            pv == pairs_view(mapping@),
            i <= mapping@.len(),
            first_bad_name(pv, i as nat) is None,
        decreases mapping@.len() - i,
    {
        assert(pv[i as int].1 == mapping@[i as int].1@);
        if !symbol(mapping[i].1.as_slice()) {
            proof {
                lemma_first_bad_name(pv, mapping@.len() as nat, i as nat);
            }
            return Some(i);
        }
        i += 1;
    }
    proof {
        lemma_no_bad_name(pv, mapping@.len() as nat);
    }
    None
}

/// The new name that `mapping` gives `name`.
pub fn map_name(mapping: &Vec<(Vec<u8>, Vec<u8>)>, name: &[u8]) -> (r: Vec<u8>)
    ensures
        r@ == lookup(pairs_view(mapping@), mapping@.len() as nat, name@),
{
    let ghost pv = pairs_view(mapping@);
    let mut n: usize = mapping.len();
    while n > 0
        invariant
            pv == pairs_view(mapping@),
            n <= mapping@.len(),
            lookup(pv, mapping@.len() as nat, name@) == lookup(pv, n as nat, name@),
        decreases n,
    {
        assert(pv[n - 1].0 == mapping@[n - 1].0@);
        assert(pv[n - 1].1 == mapping@[n - 1].1@);
        if bytes_eq(mapping[n - 1].0.as_slice(), name) {
            return vstd::slice::slice_to_vec(mapping[n - 1].1.as_slice());
        }
        n -= 1;
    }
    vstd::slice::slice_to_vec(name)
}

/// Whether an invention of the library is called `name`.
pub(crate) fn names_invention(
    library: &Vec<Invention>,
    name: &[u8],
    Ghost(store): Ghost<&ExprStore>,
) -> (r: bool)
    ensures
        r == in_library(library_view(store, library@), name@),
{
    let ghost lib = library_view(store, library@);
    let mut j: usize = 0;
    while j < library.len()
        invariant
            lib == library_view(store, library@),
            j <= library@.len(),
            forall|k: int| 0 <= k < j ==> (#[trigger] lib[k]).name != name@,
        decreases library@.len() - j,
    {
        assert(lib[j as int].name == library@[j as int].name@);
        if bytes_eq(library[j].name.as_slice(), name) {
            return true;
        }
        j += 1;
    }
    false
}

/// The name under which the symbol `name` leaves a run.
pub(crate) fn leave_name(
    mapping: &Vec<(Vec<u8>, Vec<u8>)>,
    library: &Vec<Invention>,
    name: &[u8],
    Ghost(store): Ghost<&ExprStore>,
) -> (r: Vec<u8>)
    ensures
        r@ == output_name(pairs_view(mapping@), library_view(store, library@), name@),
{
    if names_invention(library, name, Ghost(store)) {
        map_name(mapping, name)
    } else {
        vstd::slice::slice_to_vec(name)
    }
}

/// Splits an entry of the form `old,new` at its first comma.
pub fn split_entry(entry: &[u8]) -> (r: Option<(Vec<u8>, Vec<u8>)>)
    ensures
        match r {
            Some((from, to)) => exists|i: int|
                0 <= i < entry@.len() && entry@[i] == 44 && !from@.contains(44) && from@
                    == entry@.subrange(0, i) && to@ == entry@.subrange(i + 1, entry@.len() as int),
            None => !entry@.contains(44),
        },
{
    let mut i: usize = 0;
    while i < entry.len()
        invariant
            i <= entry@.len(),
            forall|k: int| 0 <= k < i ==> entry@[k] != 44,
        decreases entry@.len() - i,
    {
        if entry[i] == 44 {
            let from = crate::text::copy_range(entry, 0, i);
            let to = crate::text::copy_range(entry, i + 1, entry.len());
            return Some((from, to));
        }
        i += 1;
    }
    None
}

impl ExprStore {
    /// Interns the expression at `idx` with the inventions of the library
    /// called by their output names.
    pub(crate) fn rename(
        &mut self,
        idx: usize,
        mapping: &Vec<(Vec<u8>, Vec<u8>)>,
        library: &Vec<Invention>,
        Ghost(lib): Ghost<Seq<Abstraction>>,
    ) -> (r: usize)
        requires
            old(self).wf(),
            idx < old(self)@.len(),
            mapping_ok(pairs_view(mapping@)),
            library_fits(old(self), library@),
            lib == library_view(old(self), library@),
        ensures
            final(self).wf(),
            final(self).extends(old(self)),
            r < final(self)@.len(),
            final(self).expr(r as int) == renamed(
                old(self).expr(idx as int),
                pairs_view(mapping@),
                lib,
            ),
        decreases idx,
    {
        let ghost start = *self;
        let ghost pv = pairs_view(mapping@);
        match self.get(idx) {
            Node::Sym(name) => {
                let out = leave_name(mapping, library, name.as_slice(), Ghost(&start));
                proof {
                    assert(shape_ok(start@[idx as int], idx as int));
                    lemma_lookup_valid(pv, pv.len(), name@);
                }
                self.insert(Node::Sym(out)).unwrap()
            },
            Node::Lam { params, body } => {
                assert(shape_ok(start@[idx as int], idx as int));
                let b = self.rename(body, mapping, library, Ghost(lib));
                let ghost mid = *self;
                let r = self.insert(Node::Lam { params, body: b }).unwrap();
                proof {
                    self.lemma_extends_trans(&mid, &start);
                }
                r
            },
            Node::App(items) => {
                let ghost es = exprs_at(start@, items@, idx as int);
                let mut out: Vec<usize> = Vec::new();
                let mut k: usize = 0;
                while k < items.len()
                    invariant
                        self.wf(),
                        self.extends(&start),
                        start.wf(),
                        idx < start@.len(),
                        start@[idx as int] == Shape::App(items@),
                        es == exprs_at(start@, items@, idx as int),
                        pv == pairs_view(mapping@),
                        mapping_ok(pv),
                        library_fits(&start, library@),
                        lib == library_view(&start, library@),
                        k <= items@.len(),
                        out@.len() == k,
                        forall|j: int| 0 <= j < k ==> #[trigger] out@[j] < self@.len(),
                        forall|j: int|
                            0 <= j < k ==> expr_at(self@, #[trigger] out@[j] as int) == renamed(
                                es[j],
                                pv,
                                lib,
                            ),
                    decreases items@.len() - k,
                {
                    assert(shape_ok(start@[idx as int], idx as int));
                    assert(items@[k as int] < idx);
                    assert(es[k as int] == expr_at(start@, items@[k as int] as int));
                    let ghost mid = *self;
                    proof {
                        mid.lemma_extends_expr(&start, items@[k as int] as int);
                        crate::names::lemma_library_extends(&mid, &start, library@);
                    }
                    let x = self.rename(items[k], mapping, library, Ghost(lib));
                    proof {
                        self.lemma_extends_trans(&mid, &start);
                        assert forall|j: int| 0 <= j < k implies expr_at(
                            self@,
                            #[trigger] out@[j] as int,
                        ) == renamed(es[j], pv, lib) by {
                            self.lemma_extends_expr(&mid, out@[j] as int);
                        }
                    }
                    out.push(x);
                    k += 1;
                }
                let ghost mid = *self;
                let ghost list = out@;
                assert(shape_ok(start@[idx as int], idx as int));
                let r = self.insert(Node::App(out)).unwrap();
                proof {
                    self.lemma_extends_trans(&mid, &start);
                    assert(exprs_at(mid@, list, mid@.len() as int) =~= renamed(
                        start.expr(idx as int),
                        pv,
                        lib,
                    )->App_0);
                }
                r
            },
            _ => idx,
        }
    }
}

} // verus!
