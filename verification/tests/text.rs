use stitch_core::store::{ExprStore, Node};
use stitch_core::syntax::{ParseError, ParseErrorKind};

fn round_trip(text: &str) {
    let mut store = ExprStore::new();
    let idx = store.parse_extend(text.as_bytes()).unwrap();
    let printed = store.print(idx);
    assert_eq!(printed, text.as_bytes().to_vec());
    let again = store.parse_extend(&printed).unwrap();
    assert_eq!(again, idx);
}

#[test]
fn prints_what_it_parsed() {
    round_trip("(+ 1 2)");
    round_trip("foo");
    round_trip("$0");
    round_trip("#12");
    round_trip("(lam (+ $0 1))");
    round_trip("(lam2 ($1 $0))");
    round_trip("((compose f g) (lam $0) #0)");
}

#[test]
fn blanks_do_not_matter() {
    let mut store = ExprStore::new();
    let a = store.parse_extend(b"(+ 1 2)").unwrap();
    let b = store.parse_extend(b"  ( +\t1\n 2 )  ").unwrap();
    assert_eq!(a, b);
    assert_eq!(store.print(b), b"(+ 1 2)".to_vec());
}

#[test]
fn equal_subtrees_share_a_slot() {
    let mut store = ExprStore::new();
    let a = store.parse_extend(b"(f (g x) (g x))").unwrap();
    match store.node(a) {
        Node::App(items) => {
            assert_eq!(items.len(), 3);
            assert_eq!(items[1], items[2]);
        }
        _ => panic!("an application was parsed"),
    }
    assert_eq!(store.size(a), 8);
    // f, g, x, (g x), (f (g x) (g x))
    assert_eq!(store.len(), 5);
}

fn error_of(text: &str) -> ParseError {
    let mut store = ExprStore::new();
    let before = store.len();
    let e = store.parse_extend(text.as_bytes()).unwrap_err();
    assert_eq!(store.len(), before);
    e
}

#[test]
fn unbalanced_text_is_rejected() {
    assert_eq!(error_of("(+ 1 2"), ParseError { kind: ParseErrorKind::UnexpectedEnd, pos: 6 });
    assert_eq!(error_of("(+ 1 2))"), ParseError { kind: ParseErrorKind::UnexpectedClose, pos: 7 });
    assert_eq!(error_of(")"), ParseError { kind: ParseErrorKind::UnexpectedClose, pos: 0 });
    assert_eq!(error_of(""), ParseError { kind: ParseErrorKind::UnexpectedEnd, pos: 0 });
    assert_eq!(error_of("(f (g x)"), ParseError { kind: ParseErrorKind::UnexpectedEnd, pos: 8 });
}

#[test]
fn unknown_token_forms_are_rejected() {
    assert_eq!(error_of("$x"), ParseError { kind: ParseErrorKind::BadVariable, pos: 0 });
    assert_eq!(error_of("(f $01)"), ParseError { kind: ParseErrorKind::BadVariable, pos: 3 });
    assert_eq!(error_of("#"), ParseError { kind: ParseErrorKind::BadParam, pos: 0 });
    assert_eq!(
        error_of("$99999999999999999999999999"),
        ParseError { kind: ParseErrorKind::BadVariable, pos: 0 }
    );
    assert_eq!(error_of("(lam1 x)"), ParseError { kind: ParseErrorKind::BadBinder, pos: 1 });
    assert_eq!(error_of("(lam x y)"), ParseError { kind: ParseErrorKind::BadBinder, pos: 7 });
    assert_eq!(error_of("(f lam)"), ParseError { kind: ParseErrorKind::MisplacedBinder, pos: 3 });
    assert_eq!(error_of("()"), ParseError { kind: ParseErrorKind::TooFewItems, pos: 0 });
    assert_eq!(error_of("(f)"), ParseError { kind: ParseErrorKind::TooFewItems, pos: 0 });
    assert_eq!(error_of("a b"), ParseError { kind: ParseErrorKind::TrailingInput, pos: 2 });
}

#[test]
fn malformed_nodes_are_not_stored() {
    let mut store = ExprStore::new();
    assert_eq!(store.insert(Node::Sym(b"a b".to_vec())), None);
    assert_eq!(store.insert(Node::Sym(b"lam".to_vec())), None);
    assert_eq!(store.insert(Node::Sym(Vec::new())), None);
    assert_eq!(store.insert(Node::Lam { params: 1, body: 0 }), None);
    assert_eq!(store.insert(Node::App(vec![0, 0])), None);
    let x = store.insert(Node::Sym(b"x".to_vec())).unwrap();
    assert_eq!(store.insert(Node::Lam { params: 0, body: x }), None);
    assert_eq!(store.insert(Node::App(vec![x])), None);
    let app = store.insert(Node::App(vec![x, x])).unwrap();
    assert_eq!(store.insert(Node::App(vec![x, x])), Some(app));
    assert_eq!(store.print(app), b"(x x)".to_vec());
}

#[test]
fn traversal_is_child_first() {
    let mut store = ExprStore::new();
    let other = store.parse_extend(b"(unrelated thing)").unwrap();
    let root = store.parse_extend(b"(f (g x) (lam (g x)))").unwrap();
    let order = store.traverse(root);
    let texts: Vec<String> =
        order.iter().map(|i| String::from_utf8(store.print(*i)).unwrap()).collect();
    assert_eq!(texts, vec!["f", "g", "x", "(g x)", "(lam (g x))", "(f (g x) (lam (g x)))"]);
    assert!(!order.contains(&other));
    assert_eq!(*order.last().unwrap(), root);
}

#[test]
fn equal_expressions_are_equal_slots() {
    let mut store = ExprStore::new();
    let a = store.parse_extend(b"(f (g x))").unwrap();
    let b = store.parse_extend(b"(h (g x) (f (g x)))").unwrap();
    let c = store.parse_extend(b"(f  (g x))").unwrap();
    assert!(store.same_expr(a, c));
    assert!(!store.same_expr(a, b));
    match store.node(b) {
        Node::App(items) => assert!(store.same_expr(items[2], a)),
        _ => panic!("an application was parsed"),
    }
}
