use stitch_core::corpus::Corpus;
use stitch_core::error::{ConfigError, Error};
use stitch_core::survey::Score;

fn corpus(programs: &[&str]) -> Corpus {
    let texts: Vec<Vec<u8>> = programs.iter().map(|p| p.as_bytes().to_vec()).collect();
    let weights = vec![1000u32; texts.len()];
    Corpus::from_texts(&texts, weights).unwrap()
}

fn survey(c: &mut Corpus, max_arity: usize, min_size: u64) -> Vec<(String, usize, Score)> {
    let mut out: Vec<(String, usize, Score)> = Vec::new();
    for (body, arity) in c.candidates(max_arity, min_size) {
        let text = String::from_utf8(c.store.print(body)).unwrap();
        if out.iter().any(|(t, a, _)| *t == text && *a == arity) {
            continue;
        }
        let score = c.score(&b"f0".to_vec(), body, arity).unwrap();
        out.push((text, arity, score));
    }
    out.sort_by(|a, b| a.0.cmp(&b.0));
    out
}

fn find<'a>(list: &'a [(String, usize, Score)], text: &str) -> &'a (String, usize, Score) {
    list.iter().find(|(t, _, _)| t == text).unwrap()
}

#[test]
fn candidates_that_do_not_pay_are_scored_too() {
    let mut c = corpus(&["(g (+ 1 2))", "(h (+ 1 2))"]);
    let list = survey(&mut c, 2, 0);
    let shared = find(&list, "(+ 1 2)");
    assert_eq!(shared.1, 0);
    assert_eq!(
        shared.2,
        Score { before: 12000, after: 6000, cost: 4000, uses: 2, pays: true }
    );
    let whole = find(&list, "(#0 (+ 1 2))");
    assert_eq!(whole.1, 1);
    assert_eq!(
        whole.2,
        Score { before: 12000, after: 6000, cost: 6000, uses: 2, pays: false }
    );
    let once = find(&list, "(g (+ 1 2))");
    assert_eq!(
        once.2,
        Score { before: 12000, after: 7000, cost: 6000, uses: 1, pays: false }
    );
    let leaf = find(&list, "g");
    assert_eq!(leaf.2, Score { before: 12000, after: 12000, cost: 1000, uses: 1, pays: false });
}

#[test]
fn a_pattern_whose_call_is_as_large_as_its_occurrence_does_not_pay() {
    let mut c = corpus(&["(+ 1 2)", "(+ 3 4)", "(* 5 6)"]);
    let list = survey(&mut c, 2, 0);
    let plus = find(&list, "(+ #0 #1)");
    assert_eq!(plus.1, 2);
    assert_eq!(
        plus.2,
        Score { before: 12000, after: 12000, cost: 4000, uses: 2, pays: false }
    );
    assert!(list.iter().all(|(_, _, s)| !s.pays));
}

#[test]
fn limits_narrow_the_candidates() {
    let mut c = corpus(&["(+ 1 2)", "(+ 3 4)", "(* 5 6)"]);
    let all = survey(&mut c, 3, 0);
    assert!(all.iter().any(|(t, _, _)| t == "(#0 #1 #2)"));
    assert!(all.iter().all(|(t, _, _)| t != "#0"));
    let two = survey(&mut c, 2, 0);
    assert!(two.iter().all(|(_, a, _)| *a <= 2));
    assert!(two.iter().all(|(t, _, _)| t != "(#0 #1 #2)"));
    let large = survey(&mut c, 3, 4);
    assert!(large.iter().all(|(t, _, _)| t.starts_with('(')));
    assert!(!large.is_empty());
}

#[test]
fn the_corpus_weighs_its_programs() {
    let texts: Vec<Vec<u8>> = vec![b"(f a)".to_vec(), b"(g (h b) c)".to_vec()];
    let c = Corpus::from_texts(&texts, vec![1500, 250]).unwrap();
    assert_eq!(c.len(), 2);
    assert_eq!(c.total_size(), 1500 * 3 + 250 * 6);
}

#[test]
fn a_corpus_needs_a_weight_for_each_program() {
    let texts: Vec<Vec<u8>> = vec![b"(f a)".to_vec(), b"b".to_vec()];
    match Corpus::from_texts(&texts, vec![1000]) {
        Err(e) => assert_eq!(e, Error::Configuration(ConfigError::WeightCount)),
        Ok(_) => panic!("one weight is missing"),
    }
}
