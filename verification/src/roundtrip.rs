//! The textual syntax is a faithful serialisation: parsing the text of a
//! well-formed expression gives the expression back.

use vstd::prelude::*;
use crate::expr::{is_binder_word, is_delim, is_digit, is_space, wf, Expr};
use crate::syntax::{
    binder, binder_params, decimal, decimal_value, is_decimal, parse, parse_atom, parse_expr,
    parse_form, parse_items, print, print_items, skip_blanks, token_end, ParseError,
};

verus! {

/// The bytes `s` stand in `t` from offset `pos` on.
pub open spec fn occurs(t: Seq<u8>, pos: int, s: Seq<u8>) -> bool {
    &&& 0 <= pos
    &&& pos + s.len() <= t.len()
    &&& forall|i: int| 0 <= i < s.len() ==> t[pos + i] == #[trigger] s[i]
}

/// No token continues at `pos`.
pub open spec fn token_stops(t: Seq<u8>, pos: int) -> bool {
    pos >= t.len() || is_delim(t[pos])
}

/// Numerals are canonical and write the number they were made from.
pub proof fn lemma_decimal(n: nat)
    ensures
        is_decimal(decimal(n)),
        decimal_value(decimal(n)) == n,
        n >= 1 ==> decimal(n)[0] != 48,
    decreases n,
{
    reveal_with_fuel(decimal_value, 2);
    if n < 10 {
        let s = decimal(n);
        assert(s.drop_last() =~= Seq::<u8>::empty());
    } else {
        lemma_decimal(n / 10);
        let s = decimal(n);
        let d = decimal(n / 10);
        assert(s.drop_last() =~= d);
        assert(s[0] == d[0]);
        assert forall|i: int| 0 <= i < s.len() implies is_digit(#[trigger] s[i]) by {
            if i < d.len() {
                assert(s[i] == d[i]);
            }
        }
    }
}

/// A token runs up to the first delimiter.
pub proof fn lemma_token_end(t: Seq<u8>, pos: int, n: nat)
    requires
        0 <= pos,
        pos + n <= t.len(),
        forall|i: int| pos <= i < pos + n ==> !is_delim(#[trigger] t[i]),
        token_stops(t, pos + n),
    ensures
        token_end(t, pos) == pos + n,
    decreases n,
{
    if n > 0 {
        assert(!is_delim(t[pos]));
        lemma_token_end(t, pos + 1, (n - 1) as nat);
    }
}

/// A part of an occurrence occurs where it lies.
pub proof fn lemma_occurs_part(t: Seq<u8>, pos: int, s: Seq<u8>, from: int, part: Seq<u8>)
    requires
        occurs(t, pos, s),
        0 <= from,
        from + part.len() <= s.len(),
        forall|i: int| 0 <= i < part.len() ==> s[from + i] == #[trigger] part[i],
    ensures
        occurs(t, pos + from, part),
{
    assert forall|i: int| 0 <= i < part.len() implies t[pos + from + i] == #[trigger] part[i] by {
        assert(t[pos + (from + i)] == s[from + i]);
    }
}

/// What the text of a well-formed expression looks like: it is not empty,
/// starts with neither a blank nor a closing parenthesis; an atom holds no
/// delimiter, and a compound expression stands in parentheses.
pub proof fn lemma_print_shape(e: Expr)
    requires
        wf(e),
    ensures
        print(e).len() >= 1,
        !is_space(print(e)[0]),
        print(e)[0] != 41,
        (e is Sym || e is Var || e is Param) ==> forall|i: int|
            0 <= i < print(e).len() ==> !is_delim(#[trigger] print(e)[i]),
        (e is Sym || e is Var || e is Param) ==> print(e)[0] != 40,
        (e is Lam || e is App) ==> print(e)[0] == 40,
        e is Var ==> print(e)[0] == 36,
        e is Param ==> print(e)[0] == 35,
{
    match e {
        Expr::Sym(name) => {
            assert(!is_delim(name[0]));
        },
        Expr::Var(i) => {
            lemma_decimal(i);
            let d = decimal(i);
            let s = print(e);
            assert forall|k: int| 0 <= k < s.len() implies !is_delim(#[trigger] s[k]) by {
                if k >= 1 {
                    assert(s[k] == d[k - 1]);
                    assert(is_digit(d[k - 1]));
                }
            }
        },
        Expr::Param(i) => {
            lemma_decimal(i);
            let d = decimal(i);
            let s = print(e);
            assert forall|k: int| 0 <= k < s.len() implies !is_delim(#[trigger] s[k]) by {
                if k >= 1 {
                    assert(s[k] == d[k - 1]);
                    assert(is_digit(d[k - 1]));
                }
            }
        },
        _ => {},
    }
}

/// The binder word for `n` parameters is a binder word that announces `n`.
pub proof fn lemma_binder(n: nat)
    requires
        1 <= n <= usize::MAX,
    ensures
        is_binder_word(binder(n)),
        binder_params(binder(n)) == Some(n),
        forall|i: int| 0 <= i < binder(n).len() ==> !is_delim(#[trigger] binder(n)[i]),
{
    let w = binder(n);
    if n != 1 {
        lemma_decimal(n);
        let d = decimal(n);
        assert forall|i: int| 3 <= i < w.len() implies is_digit(#[trigger] w[i]) by {
            assert(w[i] == d[i - 3]);
        }
        assert(w.subrange(3, w.len() as int) =~= d);
    }
}

/// The texts of the first items are an initial segment of the texts of
/// more items.
pub proof fn lemma_items_prefix(items: Seq<Expr>, k: nat, n: nat)
    requires
        k <= n <= items.len(),
    ensures
        print_items(items, k).len() <= print_items(items, n).len(),
        forall|i: int|
            0 <= i < print_items(items, k).len() ==> print_items(items, n)[i] == #[trigger] print_items(
                items,
                k,
            )[i],
    decreases n,
{
    if k < n {
        lemma_items_prefix(items, k, (n - 1) as nat);
    }
}

/// Where the item `k` lies in the text of the first `k + 1` items.
pub open spec fn item_offset(items: Seq<Expr>, k: nat) -> int {
    if k == 0 {
        0
    } else {
        print_items(items, k).len() as int + 1
    }
}

/// Parsing the text of the items from `k` on, up to the closing parenthesis,
/// completes `acc` to all the items.
proof fn lemma_parse_items_print(t: Seq<u8>, base: int, items: Seq<Expr>, k: nat, acc: Seq<Expr>)
    requires
        items.len() >= 2,
        forall|j: int| 0 <= j < items.len() ==> wf(#[trigger] items[j]),
        k <= items.len(),
        occurs(t, base, print_items(items, items.len()) + seq![41u8]),
        acc =~= items.subrange(0, k as int),
    ensures
        parse_items(t, base + print_items(items, k).len(), acc) == Ok::<
            (Seq<Expr>, int),
            ParseError,
        >((items, base + print_items(items, items.len()).len() + 1)),
    decreases items, items.len() - k,
{
    let len = items.len();
    let all = print_items(items, len);
    let whole = all + seq![41u8];
    let q = base + print_items(items, k).len();
    lemma_items_prefix(items, k, len);
    if k == len {
        assert(t[base + all.len()] == whole[all.len() as int]);
        assert(acc =~= items);
    } else {
        let item = items[k as int];
        let text = print(item);
        let upto = print_items(items, (k + 1) as nat);
        lemma_items_prefix(items, (k + 1) as nat, len);
        lemma_print_shape(item);
        let off = item_offset(items, k);
        // the item's text lies at `off` in the text of all items
        assert forall|i: int| 0 <= i < text.len() implies whole[off + i] == #[trigger] text[i] by {
            assert(upto[off + i] == text[i]);
            assert(all[off + i] == upto[off + i]);
        }
        lemma_occurs_part(t, base, whole, off, text);
        let p = base + off;
        if k > 0 {
            assert(upto[q - base] == 32);
            assert(all[q - base] == upto[q - base]);
            assert(t[base + (q - base)] == whole[q - base]);
            assert(is_space(t[q]));
            assert(skip_blanks(t, q) == skip_blanks(t, q + 1));
        }
        assert(t[p + 0] == text[0]);
        assert(skip_blanks(t, p) == p);
        assert(skip_blanks(t, q) == p);
        let r = p + text.len();
        assert(r == base + upto.len());
        // what follows the item is a delimiter
        if k + 1 == len {
            assert(t[base + all.len()] == whole[all.len() as int]);
        } else {
            let more = print_items(items, (k + 2) as nat);
            lemma_items_prefix(items, (k + 2) as nat, len);
            assert(more[upto.len() as int] == 32);
            assert(all[upto.len() as int] == more[upto.len() as int]);
            assert(t[base + upto.len()] == whole[upto.len() as int]);
        }
        assert(token_stops(t, r));
        lemma_parse_print_at(t, p, item);
        assert(acc.push(item) =~= items.subrange(0, k as int + 1));
        lemma_parse_items_print(t, base, items, (k + 1) as nat, acc.push(item));
    }
}

/// The round trip for atoms.
proof fn lemma_parse_atom_print(t: Seq<u8>, pos: int, e: Expr)
    requires
        wf(e),
        e is Sym || e is Var || e is Param,
        occurs(t, pos, print(e)),
        token_stops(t, pos + print(e).len()),
    ensures
        parse_expr(t, pos) == Ok::<(Expr, int), ParseError>((e, pos + print(e).len())),
{
    let s = print(e);
    lemma_print_shape(e);
    assert(t[pos + 0] == s[0]);
    assert(skip_blanks(t, pos) == pos);
    assert forall|i: int| pos <= i < pos + s.len() implies !is_delim(#[trigger] t[i]) by {
        assert(t[pos + (i - pos)] == s[i - pos]);
    }
    lemma_token_end(t, pos, s.len());
    let tok = t.subrange(pos, pos + s.len());
    assert(tok =~= s);
    assert(!is_delim(t[pos]));
    match e {
        Expr::Var(i) => {
            lemma_decimal(i);
            assert(tok.subrange(1, tok.len() as int) =~= decimal(i));
        },
        Expr::Param(i) => {
            lemma_decimal(i);
            assert(tok.subrange(1, tok.len() as int) =~= decimal(i));
        },
        _ => {},
    }
    assert(parse_expr(t, pos) == parse_atom(t, pos));
}

/// The round trip for a binder, given the round trip for its body.
proof fn lemma_parse_lam_print(t: Seq<u8>, pos: int, n: nat, body: Expr)
    requires
        wf(Expr::Lam(n, Box::new(body))),
        occurs(t, pos, print(Expr::Lam(n, Box::new(body)))),
        parse_expr(t, pos + 2 + binder(n).len()) == Ok::<(Expr, int), ParseError>(
            (body, pos + 2 + binder(n).len() + print(body).len()),
        ),
    ensures
        parse_expr(t, pos) == Ok::<(Expr, int), ParseError>(
            (Expr::Lam(n, Box::new(body)), pos + print(Expr::Lam(n, Box::new(body))).len()),
        ),
{
    let e = Expr::Lam(n, Box::new(body));
    let s = print(e);
    let w = binder(n);
    let b = print(body);
    let wl = w.len() as int;
    let bl = b.len() as int;
    lemma_binder(n);
    lemma_print_shape(body);
    assert(t[pos + 0] == s[0]);
    assert(skip_blanks(t, pos) == pos);
    let h = pos + 1;
    assert forall|i: int| 0 <= i < w.len() implies s[1 + i] == #[trigger] w[i] by {}
    lemma_occurs_part(t, pos, s, 1, w);
    assert(t[h + 0] == w[0]);
    assert(skip_blanks(t, h) == h);
    let e1 = h + wl;
    assert(t[pos + (1 + wl)] == s[1 + wl]);
    assert(t[e1] == 32);
    assert forall|i: int| h <= i < h + w.len() implies !is_delim(#[trigger] t[i]) by {
        assert(t[h + (i - h)] == w[i - h]);
    }
    lemma_token_end(t, h, w.len());
    assert(t.subrange(h, e1) =~= w);
    let p = e1 + 1;
    assert forall|i: int| 0 <= i < b.len() implies s[2 + wl + i] == #[trigger] b[i] by {}
    lemma_occurs_part(t, pos, s, 2 + wl, b);
    let r = p + bl;
    assert(t[pos + (2 + wl + bl)] == s[2 + wl + bl]);
    assert(t[r] == 41);
    assert(t[p + 0] == b[0]);
    assert(skip_blanks(t, p) == p);
    assert(skip_blanks(t, e1) == skip_blanks(t, p));
    assert(parse_expr(t, e1) == parse_expr(t, p));
    assert(skip_blanks(t, r) == r);
    assert(parse_expr(t, pos) == parse_form(t, h));
}

/// The text of an application does not start like a binder.
proof fn lemma_parse_app_head(t: Seq<u8>, pos: int, items: Seq<Expr>)
    requires
        wf(Expr::App(items)),
        occurs(t, pos, print(Expr::App(items))),
    ensures
        parse_expr(t, pos) == parse_form(t, pos + 1),
        !(pos + 1 <= skip_blanks(t, pos + 1) < token_end(t, skip_blanks(t, pos + 1)) <= t.len()
            && is_binder_word(
            t.subrange(skip_blanks(t, pos + 1), token_end(t, skip_blanks(t, pos + 1))),
        )),
        occurs(t, pos + 1, print_items(items, items.len()) + seq![41u8]),
{
    reveal_with_fuel(wf, 2);
    let e = Expr::App(items);
    let s = print(e);
    let all = print_items(items, items.len());
    let h = pos + 1;
    let first = items[0];
    let ft = print(first);
    let fl = ft.len() as int;
    assert(t[pos + 0] == s[0]);
    assert(skip_blanks(t, pos) == pos);
    lemma_print_shape(first);
    lemma_items_prefix(items, 1, items.len());
    assert forall|i: int| 0 <= i < ft.len() implies s[1 + i] == #[trigger] ft[i] by {
        assert(print_items(items, 1)[i] == ft[i]);
        assert(all[i] == print_items(items, 1)[i]);
    }
    lemma_occurs_part(t, pos, s, 1, ft);
    assert(t[h + 0] == ft[0]);
    assert(skip_blanks(t, h) == h);
    let e1 = token_end(t, h);
    let word = t.subrange(h, e1);
    if h < e1 && e1 <= t.len() {
        assert(word[0] == t[h]);
        if first is Sym {
            assert forall|i: int| h <= i < h + ft.len() implies !is_delim(#[trigger] t[i]) by {
                assert(t[h + (i - h)] == ft[i - h]);
            }
            lemma_items_prefix(items, 2, items.len());
            assert(print_items(items, 2)[fl] == 32);
            assert(all[fl] == print_items(items, 2)[fl]);
            assert(t[pos + (1 + fl)] == s[1 + fl]);
            lemma_token_end(t, h, ft.len());
            assert(word =~= ft);
            assert(!is_binder_word(word));
        } else if first is Var || first is Param {
            assert(word[0] != 108);
            assert(!is_binder_word(word));
        } else {
            assert(is_delim(t[h]));
            assert(false);
        }
    }
    assert forall|i: int| 0 <= i < (all + seq![41u8]).len() implies s[1 + i] == #[trigger] (all
        + seq![41u8])[i] by {}
    lemma_occurs_part(t, pos, s, 1, all + seq![41u8]);
}

/// Parsing at the place where the text of `e` stands gives `e` and the
/// offset behind the text.
pub proof fn lemma_parse_print_at(t: Seq<u8>, pos: int, e: Expr)
    requires
        wf(e),
        occurs(t, pos, print(e)),
        token_stops(t, pos + print(e).len()),
    ensures
        parse_expr(t, pos) == Ok::<(Expr, int), ParseError>((e, pos + print(e).len())),
    decreases e, 0nat,
{
    match e {
        Expr::Lam(n, body) => {
            let s = print(e);
            let b = print(*body);
            let wl = binder(n).len() as int;
            let bl = b.len() as int;
            assert forall|i: int| 0 <= i < b.len() implies s[2 + wl + i] == #[trigger] b[i] by {}
            lemma_occurs_part(t, pos, s, 2 + wl, b);
            assert(t[pos + (2 + wl + bl)] == s[2 + wl + bl]);
            lemma_parse_print_at(t, pos + 2 + wl, *body);
            lemma_parse_lam_print(t, pos, n, *body);
        },
        Expr::App(items) => {
            lemma_parse_app_head(t, pos, items);
            lemma_parse_items_print(t, pos + 1, items, 0, Seq::empty());
        },
        _ => {
            lemma_parse_atom_print(t, pos, e);
        },
    }
}

/// Round trip: the text of a well-formed expression parses, and parses to
/// that expression.
pub proof fn lemma_parse_print(e: Expr)
    requires
        wf(e),
    ensures
        parse(print(e)) == Ok::<Expr, ParseError>(e),
{
    let t = print(e);
    lemma_parse_print_at(t, 0, e);
}

/// No byte of a token is a delimiter.
pub proof fn lemma_token_bytes(t: Seq<u8>, pos: int, i: int)
    requires
        0 <= pos <= i < token_end(t, pos),
    ensures
        i < t.len(),
        !is_delim(t[i]),
    decreases i - pos,
{
    if pos < t.len() && !is_delim(t[pos]) {
        if i > pos {
            lemma_token_bytes(t, pos + 1, i);
        }
    }
}

/// What parses as an atom is well formed.
proof fn lemma_parse_atom_wf(t: Seq<u8>, p: int)
    requires
        0 <= p < t.len(),
        !is_delim(t[p]),
        parse_atom(t, p) is Ok,
    ensures
        wf(parse_atom(t, p)->Ok_0.0),
{
    let e = token_end(t, p);
    let tok = t.subrange(p, e);
    assert(token_end(t, p) == token_end(t, p + 1));
    assert(e > p) by {
        if p + 1 < t.len() && !is_delim(t[p + 1]) {
            assert(token_end(t, p + 1) >= p + 1) by {
                lemma_token_end_bounds(t, p + 1);
            }
        }
    }
    lemma_token_end_bounds(t, p);
    if t[p] != 36 && t[p] != 35 {
        assert(tok[0] == t[p]);
        assert forall|i: int| 0 <= i < tok.len() implies !is_delim(#[trigger] tok[i]) by {
            lemma_token_bytes(t, p, p + i);
        }
    }
}

/// A token ends at or after its start, within the text.
pub proof fn lemma_token_end_bounds(t: Seq<u8>, pos: int)
    requires
        0 <= pos <= t.len(),
    ensures
        pos <= token_end(t, pos) <= t.len(),
    decreases t.len() - pos,
{
    if pos < t.len() && !is_delim(t[pos]) {
        lemma_token_end_bounds(t, pos + 1);
    }
}

/// Blanks end at or after their start, within the text, before a byte that
/// is no blank.
pub proof fn lemma_skip_bounds(t: Seq<u8>, pos: int)
    requires
        0 <= pos <= t.len(),
    ensures
        pos <= skip_blanks(t, pos) <= t.len(),
        skip_blanks(t, pos) < t.len() ==> !is_space(t[skip_blanks(t, pos)]),
    decreases t.len() - pos,
{
    if pos < t.len() && is_space(t[pos]) {
        lemma_skip_bounds(t, pos + 1);
    }
}

/// What parses as an expression is well formed.
pub proof fn lemma_parse_expr_wf(t: Seq<u8>, pos: int)
    requires
        0 <= pos <= t.len(),
        parse_expr(t, pos) is Ok,
    ensures
        wf(parse_expr(t, pos)->Ok_0.0),
    decreases t.len() - pos, 0int,
{
    lemma_skip_bounds(t, pos);
    let p = skip_blanks(t, pos);
    if t[p] == 40 {
        lemma_parse_form_wf(t, p + 1);
    } else {
        lemma_parse_atom_wf(t, p);
    }
}

/// What parses as a parenthesised form is well formed.
pub proof fn lemma_parse_form_wf(t: Seq<u8>, q: int)
    requires
        0 <= q <= t.len(),
        parse_form(t, q) is Ok,
    ensures
        wf(parse_form(t, q)->Ok_0.0),
    decreases t.len() - q, 2int,
{
    lemma_skip_bounds(t, q);
    let h = skip_blanks(t, q);
    let e = token_end(t, h);
    let word = t.subrange(h, e);
    if q <= h < e <= t.len() && is_binder_word(word) {
        lemma_parse_expr_wf(t, e);
    } else {
        lemma_parse_items_wf(t, q, Seq::empty());
    }
}

/// What parses as a list of expressions is a list of well-formed
/// expressions.
pub proof fn lemma_parse_items_wf(t: Seq<u8>, q: int, acc: Seq<Expr>)
    requires
        0 <= q <= t.len(),
        forall|k: int| 0 <= k < acc.len() ==> wf(#[trigger] acc[k]),
        parse_items(t, q, acc) is Ok,
    ensures
        forall|k: int|
            0 <= k < parse_items(t, q, acc)->Ok_0.0.len() ==> wf(
                #[trigger] parse_items(t, q, acc)->Ok_0.0[k],
            ),
    decreases t.len() - q, 1int,
{
    lemma_skip_bounds(t, q);
    let p = skip_blanks(t, q);
    if t[p] != 41 {
        lemma_parse_expr_wf(t, p);
        let (e, r) = parse_expr(t, p)->Ok_0;
        let next = acc.push(e);
        assert forall|k: int| 0 <= k < next.len() implies wf(#[trigger] next[k]) by {
            if k < acc.len() {
                assert(next[k] == acc[k]);
            }
        }
        lemma_parse_items_wf(t, r, next);
    }
}

/// The parser yields only well-formed expressions.
pub proof fn lemma_parse_wf(t: Seq<u8>)
    requires
        parse(t) is Ok,
    ensures
        wf(parse(t)->Ok_0),
{
    lemma_parse_expr_wf(t, 0);
}

} // verus!
