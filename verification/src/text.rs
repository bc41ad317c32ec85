//! Reading expressions from text into the store, and writing them back.

use vstd::prelude::*;
use crate::expr::{is_binder_word, is_delim, is_digit, is_space, wf, Expr};
use crate::roundtrip::{lemma_parse_print, lemma_token_bytes};
use crate::store::{expr_at, exprs_at, lemma_expr_wf, ExprStore, Node, Shape};
use crate::symbol::{binder_word, delim, digit, space};
use crate::syntax::{
    binder, binder_params, decimal, decimal_value, fail, number_of, parse, parse_atom, parse_expr,
    parse_form, parse_items, print, print_items, skip_blanks, token_end, ParseError,
    ParseErrorKind,
};

verus! {

/// The first offset at or after `pos` that holds no blank.
pub fn skip(t: &[u8], pos: usize) -> (r: usize)
    requires
        pos <= t@.len(),
    ensures
        r == skip_blanks(t@, pos as int),
        pos <= r <= t@.len(),
        r < t@.len() ==> !is_space(t@[r as int]),
{
    let mut i: usize = pos;
    while i < t.len() && space(t[i])
        invariant
            pos <= i <= t@.len(),
            skip_blanks(t@, pos as int) == skip_blanks(t@, i as int),
        decreases t@.len() - i,
    {
        i += 1;
    }
    i
}

/// The end of the token that starts at `pos`.
pub fn scan(t: &[u8], pos: usize) -> (r: usize)
    requires
        pos <= t@.len(),
    ensures
        r == token_end(t@, pos as int),
        pos <= r <= t@.len(),
        pos < t@.len() && !is_delim(t@[pos as int]) ==> pos < r,
{
    let mut i: usize = pos;
    while i < t.len() && !delim(t[i])
        invariant
            pos <= i <= t@.len(),
            token_end(t@, pos as int) == token_end(t@, i as int),
            pos < t@.len() && !is_delim(t@[pos as int]) && i == pos ==> !is_delim(t@[i as int]),
        decreases t@.len() - i,
    {
        i += 1;
    }
    i
}

/// The value of a prefix of a numeral is at most the value of the numeral.
pub proof fn lemma_decimal_prefix(s: Seq<u8>, k: int)
    requires
        0 <= k <= s.len(),
    ensures
        decimal_value(s.subrange(0, k)) <= decimal_value(s),
    decreases s.len() - k,
{
    if k < s.len() {
        lemma_decimal_prefix(s, k + 1);
        let longer = s.subrange(0, k + 1);
        assert(longer.drop_last() =~= s.subrange(0, k));
    } else {
        assert(s.subrange(0, k) =~= s);
    }
}

/// Reads the numeral that stands in `t` from `from` to `to`.
pub fn read_number(t: &[u8], from: usize, to: usize) -> (r: Option<usize>)
    requires
        from <= to <= t@.len(),
    ensures
        match r {
            Some(n) => number_of(t@.subrange(from as int, to as int)) == Some(n as nat),
            None => number_of(t@.subrange(from as int, to as int)) is None,
        },
{
    let ghost s = t@.subrange(from as int, to as int);
    if from >= to {
        return None;
    }
    if t[from] == 48 && to - from > 1 {
        assert(s[0] == 48);
        return None;
    }
    let mut acc: usize = 0;
    let mut i: usize = from;
    proof {
        assert(s.subrange(0, 0) =~= Seq::<u8>::empty());
    }
    while i < to
        invariant
            from <= i <= to <= t@.len(),
            s == t@.subrange(from as int, to as int),
            acc == decimal_value(s.subrange(0, i - from)),
            forall|k: int| 0 <= k < i - from ==> is_digit(#[trigger] s[k]),
        decreases to - i,
    {
        let b = t[i];
        if !digit(b) {
            assert(!is_digit(s[i - from]));
            return None;
        }
        let ghost longer = s.subrange(0, i - from + 1);
        proof {
            assert(longer.drop_last() =~= s.subrange(0, i - from));
            assert(longer.last() == b);
            lemma_decimal_prefix(s, i - from + 1);
        }
        let d: usize = (b - 48) as usize;
        let next = match acc.checked_mul(10) {
            Some(m) => m.checked_add(d),
            None => None,
        };
        match next {
            Some(v) => {
                acc = v;
            },
            None => {
                return None;
            },
        }
        i += 1;
    }
    proof {
        assert(s.subrange(0, to - from) =~= s);
    }
    Some(acc)
}

/// Reads the parameter count of the binder word that stands in `t` from
/// `from` to `to`.
pub fn read_binder(t: &[u8], from: usize, to: usize) -> (r: Option<usize>)
    requires
        from + 3 <= to <= t@.len(),
    ensures
        match r {
            Some(n) => binder_params(t@.subrange(from as int, to as int)) == Some(n as nat),
            None => binder_params(t@.subrange(from as int, to as int)) is None,
        },
{
    let ghost word = t@.subrange(from as int, to as int);
    if to - from == 3 {
        return Some(1);
    }
    proof {
        assert(word.subrange(3, word.len() as int) =~= t@.subrange(from + 3, to as int));
    }
    match read_number(t, from + 3, to) {
        Some(n) => if n >= 2 {
            Some(n)
        } else {
            None
        },
        None => None,
    }
}

/// An owned copy of the bytes of `t` from `from` to `to`.
pub fn copy_range(t: &[u8], from: usize, to: usize) -> (r: Vec<u8>)
    requires
        from <= to <= t@.len(),
    ensures
        r@ == t@.subrange(from as int, to as int),
{
    let mut out: Vec<u8> = Vec::new();
    let mut i: usize = from;
    while i < to
        invariant
            from <= i <= to <= t@.len(),
            out@ == t@.subrange(from as int, i as int),
        decreases to - i,
    {
        out.push(t[i]);
        proof {
            assert(out@ =~= t@.subrange(from as int, i + 1));
        }
        i += 1;
    }
    out
}

/// An exec parse result agrees with the grammar's.
pub open spec fn agrees(
    store: &ExprStore,
    r: Result<(usize, usize), ParseError>,
    s: Result<(Expr, int), ParseError>,
) -> bool {
    match (r, s) {
        (Ok((idx, end)), Ok((e, stop))) => idx < store@.len() && store.expr(idx as int) == e && end
            == stop,
        (Err(a), Err(b)) => a == b,
        _ => false,
    }
}

/// The error of kind `kind` at offset `pos`.
fn failure(kind: ParseErrorKind, pos: usize) -> (r: Result<(usize, usize), ParseError>)
    ensures
        r == fail::<(usize, usize)>(kind, pos as int),
        r is Err,
        r->Err_0 == (ParseError { kind, pos }),
{
    Err(ParseError { kind, pos })
}

/// Parses the atom whose first byte is at `p` and interns it.
fn read_atom(store: &mut ExprStore, t: &[u8], p: usize) -> (r: Result<(usize, usize), ParseError>)
    requires
        old(store).wf(),
        p < t@.len(),
        !is_delim(t@[p as int]),
    ensures
        final(store).wf(),
        final(store).extends(old(store)),
        agrees(final(store), r, parse_atom(t@, p as int)),
        r matches Ok((_, end)) ==> p < end <= t@.len(),
{
    let e = scan(t, p);
    let ghost tok = t@.subrange(p as int, e as int);
    proof {
        assert(tok.subrange(1, tok.len() as int) =~= t@.subrange(p + 1, e as int));
        assert(tok[0] == t@[p as int]);
    }
    if t[p] == 36 {
        match read_number(t, p + 1, e) {
            Some(n) => {
                let idx = store.insert(Node::Var(n));
                Ok((idx.unwrap(), e))
            },
            None => failure(ParseErrorKind::BadVariable, p),
        }
    } else if t[p] == 35 {
        match read_number(t, p + 1, e) {
            Some(n) => {
                let idx = store.insert(Node::Param(n));
                Ok((idx.unwrap(), e))
            },
            None => failure(ParseErrorKind::BadParam, p),
        }
    } else {
        let name = copy_range(t, p, e);
        if binder_word(name.as_slice()) {
            failure(ParseErrorKind::MisplacedBinder, p)
        } else {
            proof {
                assert forall|i: int| 0 <= i < tok.len() implies !is_delim(#[trigger] tok[i]) by {
                    lemma_token_bytes(t@, p as int, p + i);
                }
            }
            let idx = store.insert(Node::Sym(name));
            Ok((idx.unwrap(), e))
        }
    }
}

/// Parses one expression at or after `pos` into the store; returns its slot
/// and the offset behind it.
pub fn read_expr(store: &mut ExprStore, t: &[u8], pos: usize) -> (r: Result<
    (usize, usize),
    ParseError,
>)
    requires
        old(store).wf(),
        pos <= t@.len(),
    ensures
        final(store).wf(),
        final(store).extends(old(store)),
        agrees(final(store), r, parse_expr(t@, pos as int)),
        r matches Ok((_, end)) ==> pos < end <= t@.len(),
    decreases t@.len() - pos, 0int,
{
    let p = skip(t, pos);
    if p >= t.len() {
        failure(ParseErrorKind::UnexpectedEnd, p)
    } else if t[p] == 41 {
        failure(ParseErrorKind::UnexpectedClose, p)
    } else if t[p] == 40 {
        read_form(store, t, p + 1)
    } else {
        read_atom(store, t, p)
    }
}

/// Parses what follows an opening parenthesis into the store.
pub fn read_form(store: &mut ExprStore, t: &[u8], q: usize) -> (r: Result<
    (usize, usize),
    ParseError,
>)
    requires
        old(store).wf(),
        1 <= q <= t@.len(),
    ensures
        final(store).wf(),
        final(store).extends(old(store)),
        agrees(final(store), r, parse_form(t@, q as int)),
        r matches Ok((_, end)) ==> q < end <= t@.len(),
    decreases t@.len() - q, 2int,
{
    let h = skip(t, q);
    let e = scan(t, h);
    let is_binder = if h < e {
        let word = copy_range(t, h, e);
        binder_word(word.as_slice())
    } else {
        false
    };
    if is_binder {
        match read_binder(t, h, e) {
            None => failure(ParseErrorKind::BadBinder, h),
            Some(n) => {
                let ghost start = *store;
                match read_expr(store, t, e) {
                    Err(x) => Err(x),
                    Ok((body, r)) => {
                        let c = skip(t, r);
                        if c >= t.len() {
                            failure(ParseErrorKind::UnexpectedEnd, c)
                        } else if t[c] == 41 {
                            let ghost mid = *store;
                            let idx = store.insert(Node::Lam { params: n, body });
                            proof {
                                store.lemma_extends_trans(&mid, &start);
                            }
                            Ok((idx.unwrap(), c + 1))
                        } else {
                            failure(ParseErrorKind::BadBinder, c)
                        }
                    },
                }
            },
        }
    } else {
        let ghost start = *store;
        let mut items: Vec<usize> = Vec::new();
        let mut at: usize = q;
        proof {
            assert(store.exprs(items@) =~= Seq::<Expr>::empty());
        }
        loop
            invariant
                store.wf(),
                start == *old(store),
                store.extends(&start),
                1 <= q <= at <= t@.len(),
                forall|k: int| 0 <= k < items@.len() ==> #[trigger] items@[k] < store@.len(),
                parse_items(t@, q as int, Seq::empty()) == parse_items(
                    t@,
                    at as int,
                    store.exprs(items@),
                ),
                !(q <= skip_blanks(t@, q as int) < token_end(t@, skip_blanks(t@, q as int))
                    <= t@.len() && is_binder_word(
                    t@.subrange(
                        skip_blanks(t@, q as int),
                        token_end(t@, skip_blanks(t@, q as int)),
                    ),
                )),
            decreases t@.len() - at,
        {
            let p = skip(t, at);
            if p >= t.len() {
                return failure(ParseErrorKind::UnexpectedEnd, p);
            }
            if t[p] == 41 {
                if items.len() < 2 {
                    return failure(ParseErrorKind::TooFewItems, q - 1);
                }
                let ghost mid = *store;
                let ghost list = items@;
                let idx = store.insert(Node::App(items));
                proof {
                    store.lemma_extends_trans(&mid, &start);
                    assert(exprs_at(mid@, list, mid@.len() as int) == mid.exprs(list));
                }
                return Ok((idx.unwrap(), p + 1));
            }
            let ghost mid = *store;
            match read_expr(store, t, p) {
                Err(x) => {
                    proof {
                        store.lemma_extends_trans(&mid, &start);
                    }
                    return Err(x);
                },
                Ok((idx, r)) => {
                    proof {
                        store.lemma_extends_trans(&mid, &start);
                        store.lemma_extends_exprs(&mid, items@);
                        assert(store.exprs(items@.push(idx)) =~= mid.exprs(items@).push(
                            store.expr(idx as int),
                        ));
                    }
                    items.push(idx);
                    at = r;
                },
            }
        }
    }
}

/// Appends `s` to `out`.
pub fn write_bytes(out: &mut Vec<u8>, s: &[u8])
    ensures
        final(out)@ == old(out)@ + s@,
{
    let mut i: usize = 0;
    while i < s.len()
        invariant
            i <= s@.len(),
            out@ == old(out)@ + s@.subrange(0, i as int),
        decreases s@.len() - i,
    {
        out.push(s[i]);
        proof {
            assert(out@ =~= old(out)@ + s@.subrange(0, i + 1));
        }
        i += 1;
    }
    proof {
        assert(s@.subrange(0, s@.len() as int) =~= s@);
    }
}

/// Appends the decimal numeral of `n` to `out`.
pub fn write_decimal(out: &mut Vec<u8>, n: usize)
    ensures
        final(out)@ == old(out)@ + decimal(n as nat),
    decreases n,
{
    if n >= 10 {
        write_decimal(out, n / 10);
    }
    let d: u8 = (n % 10) as u8;
    out.push(48 + d);
    proof {
        if n >= 10 {
            assert(out@ =~= old(out)@ + decimal(n as nat));
        } else {
            assert(out@ =~= old(out)@ + decimal(n as nat));
        }
    }
}

impl ExprStore {
    /// Parses `text` as one expression and interns it. On a parse error the
    /// store is left as it was.
    pub fn parse_extend(&mut self, text: &[u8]) -> (r: Result<usize, ParseError>)
        requires
            old(self).wf(),
        ensures
            final(self).wf(),
            final(self).extends(old(self)),
            match r {
                Ok(idx) => idx < final(self)@.len() && parse(text@) == Ok::<Expr, ParseError>(
                    final(self).expr(idx as int),
                ),
                Err(e) => parse(text@) == Err::<Expr, ParseError>(e)
                    && final(self)@ == old(self)@,
            },
    {
        let n = self.len();
        let ghost before = self@;
        match read_expr(self, text, 0) {
            Err(x) => {
                self.truncate(n);
                proof {
                    assert(self@ =~= before);
                }
                Err(x)
            },
            Ok((idx, r)) => {
                let c = skip(text, r);
                if c >= text.len() {
                    Ok(idx)
                } else {
                    self.truncate(n);
                    proof {
                        assert(self@ =~= before);
                    }
                    if text[c] == 41 {
                        Err(ParseError { kind: ParseErrorKind::UnexpectedClose, pos: c })
                    } else {
                        Err(ParseError { kind: ParseErrorKind::TrailingInput, pos: c })
                    }
                }
            },
        }
    }

    /// Appends the text of the expression at slot `idx` to `out`.
    pub fn write(&self, idx: usize, out: &mut Vec<u8>)
        requires
            self.wf(),
            idx < self@.len(),
        ensures
            final(out)@ == old(out)@ + print(self.expr(idx as int)),
        decreases idx,
    {
        let ghost start = out@;
        match self.node(idx) {
            Node::Sym(name) => {
                write_bytes(out, name.as_slice());
            },
            Node::Var(i) => {
                out.push(36);
                write_decimal(out, *i);
                proof {
                    assert(out@ =~= start + print(self.expr(idx as int)));
                }
            },
            Node::Param(i) => {
                out.push(35);
                write_decimal(out, *i);
                proof {
                    assert(out@ =~= start + print(self.expr(idx as int)));
                }
            },
            Node::Lam { params, body } => {
                out.push(40);
                out.push(108);
                out.push(97);
                out.push(109);
                if *params != 1 {
                    write_decimal(out, *params);
                }
                out.push(32);
                proof {
                    assert(out@ =~= start + seq![40u8] + binder(*params as nat) + seq![32u8]);
                }
                self.write(*body, out);
                out.push(41);
                proof {
                    assert(out@ =~= start + print(self.expr(idx as int)));
                }
            },
            Node::App(items) => {
                let ghost es = exprs_at(self@, items@, idx as int);
                out.push(40);
                let mut k: usize = 0;
                proof {
                    assert(out@ =~= start + seq![40u8] + print_items(es, 0));
                }
                while k < items.len()
                    invariant
                        self.wf(),
                        idx < self@.len(),
                        self@[idx as int] == Shape::App(items@),
                        es == exprs_at(self@, items@, idx as int),
                        k <= items@.len(),
                        out@ == start + seq![40u8] + print_items(es, k as nat),
                    decreases items@.len() - k,
                {
                    let ghost so_far = out@;
                    if k > 0 {
                        out.push(32);
                    }
                    proof {
                        assert(items@[k as int] < idx);
                        assert(es[k as int] == expr_at(self@, items@[k as int] as int));
                    }
                    self.write(items[k], out);
                    proof {
                        assert(out@ =~= start + seq![40u8] + print_items(es, (k + 1) as nat));
                    }
                    k += 1;
                }
                out.push(41);
                proof {
                    assert(out@ =~= start + print(self.expr(idx as int)));
                }
            },
        }
    }

    /// The text of the expression at slot `idx`. Parsing it gives the
    /// expression back.
    pub fn print(&self, idx: usize) -> (r: Vec<u8>)
        requires
            self.wf(),
            idx < self@.len(),
        ensures
            r@ == print(self.expr(idx as int)),
            parse(r@) == Ok::<Expr, ParseError>(self.expr(idx as int)),
    {
        let mut out: Vec<u8> = Vec::new();
        self.write(idx, &mut out);
        proof {
            lemma_expr_wf(self@, idx as int);
            lemma_parse_print(self.expr(idx as int));
            assert(out@ =~= print(self.expr(idx as int)));
        }
        out
    }
}

} // verus!
