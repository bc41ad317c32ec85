//! The order in which candidates are preferred: the lighter corpus first,
//! then the more occurrences, then the smaller text, then the fewer
//! parameters. The order is total, so there is one best candidate whatever
//! the order in which candidates are looked at.

use vstd::prelude::*;

verus! {

/// Whether `a` comes before `b` in the lexicographic order of byte strings,
/// given that they agree before position `i`.
pub open spec fn lex_from(a: Seq<u8>, b: Seq<u8>, i: nat) -> bool
    decreases a.len() - i,
{
    if i >= b.len() {
        false
    } else if i >= a.len() {
        true
    } else if a[i as int] != b[i as int] {
        a[i as int] < b[i as int]
    } else {
        lex_from(a, b, i + 1)
    }
}

/// Whether `a` comes before `b` in the lexicographic order of byte strings.
pub open spec fn lex_less(a: Seq<u8>, b: Seq<u8>) -> bool {
    lex_from(a, b, 0)
}

/// What a candidate is ranked by.
pub struct Rank {
    /// Weighted size of the rewritten corpus plus the cost of the body.
    pub burden: nat,
    /// Number of calls that rewriting puts.
    pub uses: nat,
    /// The text of the body.
    pub text: Seq<u8>,
    /// The number of parameters.
    pub arity: nat,
}

/// Whether a candidate of rank `x` is preferred to one of rank `y`.
pub open spec fn outranks(x: Rank, y: Rank) -> bool {
    ||| x.burden < y.burden
    ||| x.burden == y.burden && x.uses > y.uses
    ||| x.burden == y.burden && x.uses == y.uses && lex_less(x.text, y.text)
    ||| x.burden == y.burden && x.uses == y.uses && x.text == y.text && x.arity < y.arity
}

/// The lexicographic order is transitive.
pub proof fn lemma_lex_trans(a: Seq<u8>, b: Seq<u8>, c: Seq<u8>, i: nat)
    requires
        lex_from(a, b, i),
        lex_from(b, c, i),
    ensures
        lex_from(a, c, i),
    decreases a.len() - i,
{
    if i < a.len() && a[i as int] == b[i as int] && b[i as int] == c[i as int] {
        lemma_lex_trans(a, b, c, i + 1);
    }
}

/// The lexicographic order is irreflexive.
pub proof fn lemma_lex_irreflexive(a: Seq<u8>, i: nat)
    ensures
        !lex_from(a, a, i),
    decreases a.len() - i,
{
    if i < a.len() {
        lemma_lex_irreflexive(a, i + 1);
    }
}

/// Of two different byte strings one comes before the other.
pub proof fn lemma_lex_total(a: Seq<u8>, b: Seq<u8>, i: nat)
    requires
        a != b,
        i <= a.len(),
        i <= b.len(),
        forall|k: int| 0 <= k < i ==> a[k] == b[k],
    ensures
        lex_from(a, b, i) || lex_from(b, a, i),
    decreases a.len() - i,
{
    if i < a.len() && i < b.len() && a[i as int] == b[i as int] {
        lemma_lex_total(a, b, i + 1);
    } else if i >= a.len() && i >= b.len() {
        assert(a =~= b);
    }
}

/// Preference is transitive.
pub proof fn lemma_outranks_trans(x: Rank, y: Rank, z: Rank)
    requires
        outranks(x, y),
        outranks(y, z),
    ensures
        outranks(x, z),
{
    if x.burden == y.burden && y.burden == z.burden && x.uses == y.uses && y.uses == z.uses {
        if lex_less(x.text, y.text) && lex_less(y.text, z.text) {
            lemma_lex_trans(x.text, y.text, z.text, 0);
        }
    }
}

/// No rank is preferred to itself.
pub proof fn lemma_outranks_irreflexive(x: Rank)
    ensures
        !outranks(x, x),
{
    lemma_lex_irreflexive(x.text, 0);
}

/// Of two different ranks one is preferred.
pub proof fn lemma_outranks_total(x: Rank, y: Rank)
    requires
        x != y,
    ensures
        outranks(x, y) || outranks(y, x),
{
    if x.burden == y.burden && x.uses == y.uses && x.text != y.text {
        lemma_lex_total(x.text, y.text, 0);
    }
}

/// Whether `a` comes before `b` in the lexicographic order.
pub fn bytes_less(a: &[u8], b: &[u8]) -> (r: bool)
    ensures
        r == lex_less(a@, b@),
{
    let mut i: usize = 0;
    while i < a.len() && i < b.len()
        invariant
            i <= a@.len(),
            i <= b@.len(),
            lex_less(a@, b@) == lex_from(a@, b@, i as nat),
        decreases a@.len() - i,
    {
        if a[i] != b[i] {
            return a[i] < b[i];
        }
        i += 1;
    }
    i < b.len()
}

} // verus!
