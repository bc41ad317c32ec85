use stitch_core::rewriter::Invention;
use stitch_core::store::ExprStore;

fn parse(store: &mut ExprStore, text: &str) -> usize {
    store.parse_extend(text.as_bytes()).unwrap()
}

fn show(store: &ExprStore, idx: usize) -> String {
    String::from_utf8(store.print(idx)).unwrap()
}

fn shared(a: &str, b: &str, max_arity: usize) -> Option<(String, usize)> {
    let mut store = ExprStore::new();
    let x = parse(&mut store, a);
    let y = parse(&mut store, b);
    store.antiunify(x, y, max_arity).map(|(p, arity)| (show(&store, p), arity))
}

#[test]
fn differing_leaves_become_parameters() {
    assert_eq!(shared("(+ 1 2)", "(+ 3 4)", 2), Some(("(+ #0 #1)".to_string(), 2)));
    assert_eq!(shared("(+ 1 2)", "(+ 1 4)", 2), Some(("(+ 1 #0)".to_string(), 1)));
    assert_eq!(shared("(+ 1 2)", "(+ 1 2)", 2), Some(("(+ 1 2)".to_string(), 0)));
    assert_eq!(shared("(+ 1 2)", "(* 5 6)", 3), Some(("(#0 #1 #2)".to_string(), 3)));
    assert_eq!(shared("(+ 1 2)", "(+ 1 2 3)", 3), Some(("#0".to_string(), 1)));
}

#[test]
fn the_same_difference_shares_a_parameter() {
    assert_eq!(shared("(f a a)", "(f b b)", 2), Some(("(f #0 #0)".to_string(), 1)));
    assert_eq!(shared("(f a b a)", "(f c d c)", 2), Some(("(f #0 #1 #0)".to_string(), 2)));
    assert_eq!(shared("(f a a)", "(f b c)", 2), Some(("(f #0 #1)".to_string(), 2)));
}

#[test]
fn arity_is_capped() {
    assert_eq!(shared("(+ 1 2)", "(+ 3 4)", 1), None);
    assert_eq!(shared("(+ 1 2)", "(+ 3 4)", 0), None);
    assert_eq!(shared("(+ 1 2)", "(+ 1 2)", 0), Some(("(+ 1 2)".to_string(), 0)));
}

#[test]
fn bound_variables_stay_and_free_ones_become_arguments() {
    assert_eq!(
        shared("(lam (f $0 1))", "(lam (f $0 2))", 2),
        Some(("(lam (f $0 #0))".to_string(), 1))
    );
    // a variable that points out of the pattern is an argument
    assert_eq!(shared("(f $0)", "(f $0)", 2), Some(("(f #0)".to_string(), 1)));
    assert_eq!(
        shared("(lam (f $1 1))", "(lam (f $1 1))", 2),
        Some(("(lam (f #0 1))".to_string(), 1))
    );
}

#[test]
fn a_difference_that_captures_a_binder_is_refused() {
    assert_eq!(shared("(lam (f $0))", "(lam (f (g $0)))", 2), None);
    assert_eq!(shared("(lam2 $0)", "(lam2 $1)", 2), None);
    // binders of different width differ as a whole
    assert_eq!(shared("(lam x)", "(lam2 x)", 2), Some(("#0".to_string(), 1)));
}

fn matched(pattern: &str, arity: usize, target: &str) -> Option<Vec<String>> {
    let mut store = ExprStore::new();
    let p = parse(&mut store, pattern);
    let t = parse(&mut store, target);
    store
        .match_at(p, arity, t)
        .map(|args| args.iter().map(|a| show(&store, *a)).collect())
}

#[test]
fn matching_binds_parameters() {
    assert_eq!(matched("(+ #0 #1)", 2, "(+ 5 6)"), Some(vec!["5".to_string(), "6".to_string()]));
    assert_eq!(matched("(+ #0 #1)", 2, "(* 5 6)"), None);
    assert_eq!(matched("(+ #0 #1)", 2, "(+ 5 6 7)"), None);
    assert_eq!(matched("(+ #0 #0)", 1, "(+ (g x) (g x))"), Some(vec!["(g x)".to_string()]));
    assert_eq!(matched("(+ #0 #0)", 1, "(+ 5 6)"), None);
    assert_eq!(matched("(+ 1 2)", 0, "(+ 1 2)"), Some(vec![]));
    assert_eq!(matched("#0", 1, "(anything at all)"), Some(vec!["(anything at all)".to_string()]));
}

#[test]
fn matching_needs_every_parameter_bound() {
    assert_eq!(matched("(+ #0 1)", 2, "(+ 5 1)"), None);
    assert_eq!(matched("(+ #1 1)", 1, "(+ 5 1)"), None);
}

#[test]
fn arguments_move_out_of_the_binders_of_the_pattern() {
    assert_eq!(matched("(lam (+ $0 #0))", 1, "(lam (+ $0 $1))"), Some(vec!["$0".to_string()]));
    assert_eq!(matched("(lam (+ $0 #0))", 1, "(lam (+ $0 $0))"), None);
    assert_eq!(
        matched("(lam2 (#0 $1))", 1, "(lam2 ((f $2 $5) $1))"),
        Some(vec!["(f $0 $3)".to_string()])
    );
    assert_eq!(
        matched("(lam (#0 (lam #0)))", 1, "(lam ((g $3) (lam (g $4))))"),
        Some(vec!["(g $2)".to_string()])
    );
}

fn rewritten(name: &str, arity: usize, body: &str, target: &str) -> (String, u64) {
    let mut store = ExprStore::new();
    let b = parse(&mut store, body);
    let t = parse(&mut store, target);
    let inv = Invention { name: name.as_bytes().to_vec(), arity, body: b };
    let (r, n) = store.rewrite(&inv, t);
    (show(&store, r), n)
}

#[test]
fn rewriting_puts_calls() {
    assert_eq!(rewritten("f0", 2, "(+ #0 #1)", "(+ 1 2)"), ("(f0 1 2)".to_string(), 1));
    assert_eq!(rewritten("f0", 2, "(+ #0 #1)", "(* 5 6)"), ("(* 5 6)".to_string(), 0));
    assert_eq!(
        rewritten("f0", 2, "(+ #0 #1)", "(+ (+ 1 2) (g (+ 3 4)))"),
        ("(f0 (f0 1 2) (g (f0 3 4)))".to_string(), 3)
    );
    assert_eq!(rewritten("k", 0, "(+ 1 2)", "(g (+ 1 2) (+ 1 2))"), ("(g k k)".to_string(), 2));
    assert_eq!(
        rewritten("inc", 1, "(lam (+ $0 #0))", "(lam (map (lam (+ $0 $1)) xs))"),
        ("(lam (map (inc $0) xs))".to_string(), 1)
    );
}

#[test]
fn overlapping_occurrences_are_rewritten_from_the_leaves_up() {
    assert_eq!(
        rewritten("f0", 1, "(f (f #0))", "(f (f (f x)))"),
        ("(f (f0 x))".to_string(), 1)
    );
    assert_eq!(
        rewritten("f0", 1, "(f (f #0))", "(f (f (f (f x))))"),
        ("(f0 (f0 x))".to_string(), 2)
    );
}

#[test]
fn unfolding_a_call_gives_back_what_it_replaced() {
    let cases = [
        ("(+ #0 #1)", 2, "(+ 5 6)"),
        ("(+ #0 #0)", 1, "(+ (g x) (g x))"),
        ("(+ 1 2)", 0, "(+ 1 2)"),
        ("(lam (+ $0 #0))", 1, "(lam (+ $0 $1))"),
        ("(lam2 (#0 $1))", 1, "(lam2 ((f $2 $5) $1))"),
        ("(lam (#0 (lam #0)))", 1, "(lam ((g $3) (lam (g $4))))"),
        ("(foo (bar #0) (baz #1 #0))", 2, "(foo (bar (lam $0)) (baz q (lam $0)))"),
    ];
    for (pattern, arity, target) in cases {
        let mut store = ExprStore::new();
        let p = parse(&mut store, pattern);
        let t = parse(&mut store, target);
        let args = store.match_at(p, arity, t).unwrap();
        let inv = Invention { name: b"f".to_vec(), arity, body: p };
        assert_eq!(store.unfold(&inv, &args), Some(t));
    }
}

#[test]
fn unfolding_fails_where_an_index_does_not_fit() {
    let mut store = ExprStore::new();
    let p = parse(&mut store, "(lam #0)");
    let far = parse(&mut store, &format!("${}", usize::MAX));
    let near = parse(&mut store, "$7");
    let inv = Invention { name: b"f".to_vec(), arity: 1, body: p };
    assert_eq!(store.unfold(&inv, &vec![far]), None);
    let out = store.unfold(&inv, &vec![near]).unwrap();
    assert_eq!(show(&store, out), "(lam $8)");
}

#[test]
fn a_slot_beyond_the_arguments_stays() {
    let mut store = ExprStore::new();
    let p = parse(&mut store, "(f #0 #1)");
    let a = parse(&mut store, "a");
    let inv = Invention { name: b"f".to_vec(), arity: 2, body: p };
    let out = store.unfold(&inv, &vec![a]).unwrap();
    assert_eq!(show(&store, out), "(f a #1)");
}

#[test]
fn rewriting_twice_is_rewriting_once() {
    let cases = [
        ("(+ #0 #1)", 2, "(+ (+ 1 2) (g (+ 3 4)))"),
        ("(f (f #0))", 1, "(f (f (f (f (f x)))))"),
        ("(k (#0 x))", 1, "(k (k (x x)))"),
        ("(lam (+ $0 #0))", 1, "(lam (map (lam (+ $0 $1)) xs))"),
    ];
    for (body, arity, target) in cases {
        let mut store = ExprStore::new();
        let b = parse(&mut store, body);
        let t = parse(&mut store, target);
        let inv = Invention { name: b"f0".to_vec(), arity, body: b };
        let (once, _) = store.rewrite(&inv, t);
        let (twice, again) = store.rewrite(&inv, once);
        assert_eq!(twice, once);
        assert_eq!(again, 0);
    }
}

#[test]
fn a_body_headed_by_a_parameter_can_match_its_own_call() {
    let mut store = ExprStore::new();
    let b = parse(&mut store, "(#0 x)");
    let t = parse(&mut store, "(x x)");
    let inv = Invention { name: b"f".to_vec(), arity: 1, body: b };
    let (once, _) = store.rewrite(&inv, t);
    assert_eq!(show(&store, once), "(f x)");
    let (twice, _) = store.rewrite(&inv, once);
    assert_eq!(show(&store, twice), "(f f)");
}

#[test]
fn scope_questions() {
    let mut store = ExprStore::new();
    let open = parse(&mut store, "(f $0 (lam ($0 $2)))");
    let closed = parse(&mut store, "(lam (f $0 (lam ($0 $1))))");
    let slotted = parse(&mut store, "(f #0 (g #2))");
    assert!(!store.is_closed(open));
    assert!(store.is_closed(closed));
    assert!(store.is_closed(slotted));
    assert!(store.has_no_params(open));
    assert!(!store.has_no_params(slotted));
    assert!(store.has_params_below(slotted, 3));
    assert!(!store.has_params_below(slotted, 2));
    assert!(store.mentions_symbol(slotted, b"g"));
    assert!(!store.mentions_symbol(slotted, b"h"));
    // `open` refers to the nearest binder around it (twice) and to no other
    assert!(!store.is_free_from(open, 1));
    let inner = parse(&mut store, "(f $1 (lam ($0 $3)))");
    assert!(store.is_free_from(inner, 1));
    assert!(!store.is_free_from(inner, 2));
    let lowered = store.lower(inner, 1);
    assert_eq!(show(&store, lowered), "(f $0 (lam ($0 $2)))");
    assert_eq!(lowered, open);
}

#[test]
fn every_occurrence_unfolds_to_what_its_call_replaced() {
    let mut store = ExprStore::new();
    let b = parse(&mut store, "(+ #0 #1)");
    let t = parse(&mut store, "(+ (+ 1 2) (g (+ 3 4)))");
    let inv = Invention { name: b"f0".to_vec(), arity: 2, body: b };
    let mut found = Vec::new();
    let r = store.rewrite_listing(&inv, t, &mut found);
    assert_eq!(show(&store, r), "(f0 (f0 1 2) (g (f0 3 4)))");
    let listed: Vec<(String, Vec<String>)> = found
        .iter()
        .map(|o| (show(&store, o.replaced), o.args.iter().map(|a| show(&store, *a)).collect()))
        .collect();
    assert_eq!(
        listed,
        vec![
            ("(+ 1 2)".to_string(), vec!["1".to_string(), "2".to_string()]),
            ("(+ 3 4)".to_string(), vec!["3".to_string(), "4".to_string()]),
            (
                "(+ (f0 1 2) (g (f0 3 4)))".to_string(),
                vec!["(f0 1 2)".to_string(), "(g (f0 3 4))".to_string()]
            ),
        ]
    );
    for o in &found {
        assert_eq!(store.unfold(&inv, &o.args), Some(o.replaced));
    }
    let (again, count) = store.rewrite(&inv, t);
    assert_eq!(again, r);
    assert_eq!(count as usize, found.len());
}

#[test]
fn lifting_moves_free_variables_only() {
    let mut store = ExprStore::new();
    let e = parse(&mut store, "(f $0 (lam ($0 $2)))");
    let up = store.lift(e, 3).unwrap();
    assert_eq!(show(&store, up), "(f $3 (lam ($0 $5)))");
    assert_eq!(store.lower(up, 3), e);
    let closed = parse(&mut store, "(lam (f $0))");
    assert_eq!(store.lift(closed, usize::MAX), Some(closed));
    let far = parse(&mut store, &format!("(g ${})", usize::MAX - 1));
    assert!(store.lift(far, 1).is_some());
    assert_eq!(store.lift(far, 2), None);
}

#[test]
fn filling_slots_lifts_arguments_under_the_binders_of_the_pattern() {
    let mut store = ExprStore::new();
    let p = parse(&mut store, "(lam (#0 $0 (lam2 #1)))");
    let a = parse(&mut store, "(g $0)");
    let b = parse(&mut store, "$4");
    let out = store.instantiate(p, &vec![a, b]).unwrap();
    assert_eq!(show(&store, out), "(lam ((g $1) $0 (lam2 $7)))");
    assert_eq!(store.match_at(p, 2, out), Some(vec![a, b]));
}
