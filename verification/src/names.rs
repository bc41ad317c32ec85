//! The names of discovered inventions: `f0`, `f1`, ... , each the first one
//! that nothing in the corpus or the library uses yet.

use vstd::prelude::*;
use crate::debruijn::uses_symbol;
use crate::expr::{is_delim, is_digit, valid_symbol, Expr};
use crate::invention::Abstraction;
use crate::rewriter::Invention;
use crate::roundtrip::lemma_decimal;
use crate::store::{bytes_eq, ExprStore};
use crate::syntax::decimal;
use crate::text::write_decimal;

verus! {

/// The name with index `k`: the letter `f` and the decimal numeral of `k`.
pub open spec fn name_for(k: nat) -> Seq<u8> {
    seq![102u8] + decimal(k)
}

/// Invention names are symbols.
pub proof fn lemma_name_valid(k: nat)
    ensures
        valid_symbol(name_for(k)),
{
    lemma_decimal(k);
    let s = name_for(k);
    let d = decimal(k);
    assert forall|i: int| 0 <= i < s.len() implies !is_delim(#[trigger] s[i]) by {
        if i > 0 {
            assert(s[i] == d[i - 1]);
            assert(is_digit(d[i - 1]));
        }
    }
    assert(s[0] == 102);
}

/// Whether a program or the library uses `name`.
pub open spec fn taken(name: Seq<u8>, programs: Seq<Expr>, library: Seq<Abstraction>) -> bool {
    ||| exists|i: int| 0 <= i < programs.len() && uses_symbol(#[trigger] programs[i], name)
    ||| exists|j: int|
        0 <= j < library.len() && ((#[trigger] library[j]).name == name || uses_symbol(
            library[j].body,
            name,
        ))
}

/// The first index from `k` on whose name is not taken; `usize::MAX` if
/// there is none below it.
pub open spec fn free_index(programs: Seq<Expr>, library: Seq<Abstraction>, k: nat) -> nat
    decreases usize::MAX - k,
{
    if k >= usize::MAX || !taken(name_for(k), programs, library) {
        k
    } else {
        free_index(programs, library, k + 1)
    }
}

/// The inventions of a library, with their bodies read in `store`.
pub open spec fn library_view(store: &ExprStore, library: Seq<Invention>) -> Seq<Abstraction> {
    Seq::new(library.len(), |j: int| library[j].view_in(store))
}

/// Every invention of the library can be used with `store`.
pub open spec fn library_fits(store: &ExprStore, library: Seq<Invention>) -> bool {
    forall|j: int| 0 <= j < library.len() ==> (#[trigger] library[j]).fits(store)
}

/// A library means the same in a store that extends the one it was made in.
pub proof fn lemma_library_extends(new: &ExprStore, old: &ExprStore, library: Seq<Invention>)
    requires
        new.extends(old),
        library_fits(old, library),
    ensures
        library_fits(new, library),
        library_view(new, library) == library_view(old, library),
{
    assert forall|j: int| 0 <= j < library.len() implies library_view(new, library)[j]
        == library_view(old, library)[j] by {
        assert(library[j].fits(old));
        new.lemma_extends_expr(old, library[j].body as int);
    }
    assert(library_view(new, library) =~= library_view(old, library));
    assert forall|j: int| 0 <= j < library.len() implies (#[trigger] library[j]).fits(new) by {
        assert(library[j].fits(old));
    }
}

/// The name with index `k`.
pub fn make_name(k: usize) -> (r: Vec<u8>)
    ensures
        r@ == name_for(k as nat),
        valid_symbol(r@),
{
    let mut out: Vec<u8> = Vec::new();
    out.push(102);
    write_decimal(&mut out, k);
    proof {
        lemma_name_valid(k as nat);
        assert(out@ =~= name_for(k as nat));
    }
    out
}

/// Whether a program at `roots` or the library uses `name`.
pub fn is_taken(store: &ExprStore, roots: &Vec<usize>, library: &Vec<Invention>, name: &[u8]) -> (r:
    bool)
    requires
        store.wf(),
        forall|i: int| 0 <= i < roots@.len() ==> #[trigger] roots@[i] < store@.len(),
        library_fits(store, library@),
    ensures
        r == taken(name@, store.exprs(roots@), library_view(store, library@)),
{
    let ghost programs = store.exprs(roots@);
    let ghost lib = library_view(store, library@);
    let mut i: usize = 0;
    while i < roots.len()
        invariant
            store.wf(),
            forall|k: int| 0 <= k < roots@.len() ==> #[trigger] roots@[k] < store@.len(),
            programs == store.exprs(roots@),
            i <= roots@.len(),
            forall|k: int| 0 <= k < i ==> !uses_symbol(#[trigger] programs[k], name@),
        decreases roots@.len() - i,
    {
        assert(programs[i as int] == store.expr(roots@[i as int] as int));
        if store.mentions_symbol(roots[i], name) {
            return true;
        }
        i += 1;
    }
    let mut j: usize = 0;
    while j < library.len()
        invariant
            store.wf(),
            library_fits(store, library@),
            programs == store.exprs(roots@),
            lib == library_view(store, library@),
            forall|k: int| 0 <= k < programs.len() ==> !uses_symbol(#[trigger] programs[k], name@),
            j <= library@.len(),
            forall|k: int|
                0 <= k < j ==> !((#[trigger] lib[k]).name == name@ || uses_symbol(
                    lib[k].body,
                    name@,
                )),
        decreases library@.len() - j,
    {
        assert(library@[j as int].fits(store));
        assert(lib[j as int] == library@[j as int].view_in(store));
        if bytes_eq(library[j].name.as_slice(), name) {
            return true;
        }
        if store.mentions_symbol(library[j].body, name) {
            return true;
        }
        j += 1;
    }
    false
}

/// The first name that neither a program at `roots` nor the library uses,
/// with its index; `None` if every index below `usize::MAX` is taken.
pub fn fresh_name(store: &ExprStore, roots: &Vec<usize>, library: &Vec<Invention>) -> (r: Option<
    (usize, Vec<u8>),
>)
    requires
        store.wf(),
        forall|i: int| 0 <= i < roots@.len() ==> #[trigger] roots@[i] < store@.len(),
        library_fits(store, library@),
    ensures
        match r {
            Some((k, name)) => {
                &&& k < usize::MAX
                &&& k == free_index(store.exprs(roots@), library_view(store, library@), 0)
                &&& name@ == name_for(k as nat)
                &&& valid_symbol(name@)
                &&& !taken(name@, store.exprs(roots@), library_view(store, library@))
            },
            None => free_index(store.exprs(roots@), library_view(store, library@), 0)
                >= usize::MAX,
        },
{
    let ghost programs = store.exprs(roots@);
    let ghost lib = library_view(store, library@);
    let mut k: usize = 0;
    while k < usize::MAX
        invariant
            store.wf(),
            forall|i: int| 0 <= i < roots@.len() ==> #[trigger] roots@[i] < store@.len(),
            library_fits(store, library@),
            programs == store.exprs(roots@),
            lib == library_view(store, library@),
            free_index(programs, lib, 0) == free_index(programs, lib, k as nat),
        decreases usize::MAX - k,
    {
        let name = make_name(k);
        if !is_taken(store, roots, library, name.as_slice()) {
            return Some((k, name));
        }
        k += 1;
    }
    None
}

} // verus!
