use stitch_core::api::{multistep_compression, rewrite_with_inventions, InventionText, Outcome};
use stitch_core::config::Config;
use stitch_core::driver::Stop;
use stitch_core::error::{ConfigError, Error, InvariantViolation, OptionName};
use stitch_core::syntax::{ParseError, ParseErrorKind};

fn texts(programs: &[&str]) -> Vec<Vec<u8>> {
    programs.iter().map(|p| p.as_bytes().to_vec()).collect()
}

fn strings(texts: &[Vec<u8>]) -> Vec<String> {
    texts.iter().map(|t| String::from_utf8(t.clone()).unwrap()).collect()
}

fn invention(name: &str, arity: usize, body: &str) -> InventionText {
    InventionText { name: name.as_bytes().to_vec(), arity, body: body.as_bytes().to_vec() }
}

fn compress(programs: &[&str], cfg: &Config) -> Outcome {
    multistep_compression(&texts(programs), None, None, None, None, cfg).unwrap()
}

#[test]
fn a_repeated_subtree_becomes_an_invention() {
    let out = compress(&["(g (+ 1 2))", "(h (+ 1 2))"], &Config::standard());
    assert_eq!(strings(&out.programs), vec!["(g f0)", "(h f0)"]);
    assert_eq!(out.inventions, vec![invention("f0", 0, "(+ 1 2)")]);
    assert_eq!(out.steps.len(), 1);
    assert_eq!(out.steps[0].invention, 0);
    assert!(out.steps[0].discovered);
    assert_eq!(out.steps[0].occurrences, 2);
    assert_eq!(out.steps[0].size_before, 12000);
    assert_eq!(out.steps[0].size_after, 6000);
    assert_eq!(out.steps[0].original_size, 12000);
    assert_eq!(out.original_size, 12000);
    assert_eq!(out.final_size, 6000);
    assert_eq!(out.stop, Some(Stop::NoCandidate));
}

#[test]
fn differing_arguments_become_parameters() {
    let out = compress(
        &["(foo (bar 1) (baz 2 2))", "(foo (bar 3) (baz 2 2))", "(foo (bar 5) (baz 2 2))"],
        &Config::standard(),
    );
    assert_eq!(strings(&out.programs), vec!["(f0 1)", "(f0 3)", "(f0 5)"]);
    assert_eq!(out.inventions, vec![invention("f0", 1, "(foo (bar #0) (baz 2 2))")]);
    assert_eq!(out.steps.len(), 1);
    assert_eq!(out.steps[0].occurrences, 3);
    assert_eq!(out.steps[0].size_before, 27000);
    assert_eq!(out.steps[0].size_after, 9000);
    assert_eq!(out.stop, Some(Stop::NoCandidate));
}

#[test]
fn several_rounds_build_on_each_other() {
    let programs = [
        "(a (b (c d e) (c d e)) (b (c d e) (c d e)))",
        "(z (b (c d e) (c d e)))",
        "(y (c d e))",
        "(x (c d e))",
        "(w (c d e))",
    ];
    let out = compress(&programs, &Config::standard());
    assert_eq!(
        strings(&out.programs),
        vec!["(a f1 f1)", "(z f1)", "(y f0)", "(x f0)", "(w f0)"]
    );
    assert_eq!(
        out.inventions,
        vec![invention("f0", 0, "(c d e)"), invention("f1", 0, "(b f0 f0)")]
    );
    assert_eq!(out.steps.len(), 2);
    assert_eq!(out.steps[0].occurrences, 9);
    assert_eq!(out.steps[1].occurrences, 3);
    assert_eq!(out.original_size, 52000);
    assert_eq!(out.steps[0].size_after, 25000);
    assert_eq!(out.steps[1].size_after, 16000);
    for (k, step) in out.steps.iter().enumerate() {
        assert!(step.discovered);
        assert!(step.size_after < step.size_before);
        assert_eq!(step.invention, k);
        if k > 0 {
            assert_eq!(step.size_before, out.steps[k - 1].size_after);
        }
    }
    assert_eq!(out.steps[0].size_before, out.original_size);
    assert_eq!(out.steps.last().unwrap().size_after, out.final_size);
    assert_eq!(out.inventions.len(), out.steps.len());
    assert_eq!(String::from_utf8(out.inventions[0].name.clone()).unwrap(), "f0");
    assert_eq!(String::from_utf8(out.inventions[1].name.clone()).unwrap(), "f1");
}

#[test]
fn a_corpus_without_a_paying_pattern_is_left_alone() {
    let programs = ["(+ 1 2)", "(+ 3 4)", "(* 5 6)"];
    let mut cfg = Config::standard();
    cfg.max_arity = 2;
    let out = compress(&programs, &cfg);
    // `(+ #0 #1)` is found but saves nothing: its call is as large as what
    // it replaces, so its score is the cost of its body, below zero.
    assert_eq!(strings(&out.programs), programs.to_vec());
    assert!(out.inventions.is_empty());
    assert!(out.steps.is_empty());
    assert_eq!(out.stop, Some(Stop::NoCandidate));
    assert_eq!(out.final_size, out.original_size);
}

#[test]
fn rewriting_with_a_shared_pattern_puts_two_calls() {
    let programs = texts(&["(+ 1 2)", "(+ 3 4)", "(* 5 6)"]);
    let library = vec![invention("f0", 2, "(+ #0 #1)")];
    let out = rewrite_with_inventions(&programs, &library, &Config::standard()).unwrap();
    assert_eq!(strings(&out.programs), vec!["(f0 1 2)", "(f0 3 4)", "(* 5 6)"]);
    assert_eq!(out.inventions, library);
    assert_eq!(out.steps.len(), 1);
    assert!(!out.steps[0].discovered);
    assert_eq!(out.steps[0].occurrences, 2);
    assert_eq!(out.steps[0].size_before, 12000);
    assert_eq!(out.steps[0].size_after, 12000);
    assert_eq!(out.stop, None);
}

#[test]
fn no_repeated_structure_means_no_round() {
    let programs = ["a", "(b c)", "(lam $0)"];
    let out = compress(&programs, &Config::standard());
    assert_eq!(strings(&out.programs), programs.to_vec());
    assert!(out.inventions.is_empty());
    assert!(out.steps.is_empty());
    assert_eq!(out.stop, Some(Stop::NoCandidate));
}

#[test]
fn no_round_allowed_means_output_equals_input() {
    let programs = ["(g (+ 1 2))", "(h (+ 1 2))"];
    let mut cfg = Config::standard();
    cfg.max_rounds = 0;
    let out = compress(&programs, &cfg);
    assert_eq!(strings(&out.programs), programs.to_vec());
    assert!(out.inventions.is_empty());
    assert!(out.steps.is_empty());
    assert_eq!(out.stop, Some(Stop::MaxRounds));
}

#[test]
fn the_budget_bounds_the_library() {
    let programs = [
        "(a (b (c d e) (c d e)) (b (c d e) (c d e)))",
        "(z (b (c d e) (c d e)))",
    ];
    let mut cfg = Config::standard();
    cfg.invention_count_budget = 1;
    let out = compress(&programs, &cfg);
    assert_eq!(out.inventions.len(), 1);
    assert_eq!(out.stop, Some(Stop::Budget));
    cfg.invention_count_budget = 0;
    let out = compress(&programs, &cfg);
    assert!(out.inventions.is_empty());
    assert_eq!(out.stop, Some(Stop::Budget));
    cfg.invention_count_budget = usize::MAX;
    cfg.max_rounds = 1;
    let out = compress(&programs, &cfg);
    assert_eq!(out.inventions.len(), 1);
    assert_eq!(out.stop, Some(Stop::MaxRounds));
}

#[test]
fn malformed_text_fails_the_run() {
    let programs = texts(&["(+ 1 2)", "(+ 3 4"]);
    let r = multistep_compression(&programs, None, None, None, None, &Config::standard());
    assert_eq!(
        r.unwrap_err(),
        Error::Parse {
            program: 1,
            error: ParseError { kind: ParseErrorKind::UnexpectedEnd, pos: 6 }
        }
    );
    let r = rewrite_with_inventions(&texts(&[")"]), &Vec::new(), &Config::standard());
    assert_eq!(
        r.unwrap_err(),
        Error::Parse {
            program: 0,
            error: ParseError { kind: ParseErrorKind::UnexpectedClose, pos: 0 }
        }
    );
}

#[test]
fn dangling_references_fail_the_run() {
    let r = multistep_compression(
        &texts(&["(lam $0)", "(lam $1)"]),
        None,
        None,
        None,
        None,
        &Config::standard(),
    );
    assert_eq!(r.unwrap_err(), Error::Invariant(InvariantViolation::DanglingVariable(1)));
    let r =
        multistep_compression(&texts(&["(f #0)"]), None, None, None, None, &Config::standard());
    assert_eq!(r.unwrap_err(), Error::Invariant(InvariantViolation::StrayParameter(0)));
}

#[test]
fn the_shape_of_the_input_is_checked() {
    let programs = texts(&["(f a)", "(f b)"]);
    let cfg = Config::standard();
    let none: Vec<Vec<u8>> = Vec::new();
    assert_eq!(
        multistep_compression(&none, None, None, None, None, &cfg).unwrap_err(),
        Error::Configuration(ConfigError::NoPrograms)
    );
    let tasks = texts(&["t"]);
    assert_eq!(
        multistep_compression(&programs, Some(&tasks), None, None, None, &cfg).unwrap_err(),
        Error::Configuration(ConfigError::TaskCount)
    );
    let weights = vec![1000u32, 1000, 1000];
    assert_eq!(
        multistep_compression(&programs, None, Some(&weights), None, None, &cfg).unwrap_err(),
        Error::Configuration(ConfigError::WeightCount)
    );
    let mapping = vec![(b"f0".to_vec(), b"ok".to_vec()), (b"f1".to_vec(), b"not ok".to_vec())];
    assert_eq!(
        multistep_compression(&programs, None, None, Some(&mapping), None, &cfg).unwrap_err(),
        Error::Configuration(ConfigError::BadName(1))
    );
    let mut bad = Config::standard();
    bad.beam_width = 0;
    assert_eq!(
        multistep_compression(&programs, None, None, None, None, &bad).unwrap_err(),
        Error::Configuration(ConfigError::OutOfRange(OptionName::BeamWidth))
    );
    let mut bad = Config::standard();
    bad.thread_count = 0;
    assert_eq!(
        rewrite_with_inventions(&programs, &Vec::new(), &bad).unwrap_err(),
        Error::Configuration(ConfigError::OutOfRange(OptionName::ThreadCount))
    );
}

#[test]
fn supplied_inventions_are_checked() {
    let programs = texts(&["(f a)"]);
    let cfg = Config::standard();
    let check = |inv: InventionText| {
        rewrite_with_inventions(&programs, &vec![invention("ok", 0, "(f a)"), inv], &cfg)
            .unwrap_err()
    };
    assert_eq!(
        check(invention("two words", 0, "(f a)")),
        Error::Configuration(ConfigError::BadInvention(1))
    );
    assert_eq!(
        check(invention("g", 1, "(f #1)")),
        Error::Configuration(ConfigError::BadInvention(1))
    );
    assert_eq!(
        check(invention("g", 0, "(f $0)")),
        Error::Configuration(ConfigError::BadInvention(1))
    );
    assert_eq!(
        check(invention("g", 0, "(f")),
        Error::ParseInvention {
            invention: 1,
            error: ParseError { kind: ParseErrorKind::UnexpectedEnd, pos: 2 }
        }
    );
}

#[test]
fn weights_decide_what_pays() {
    // With weight 1.0 on both programs `(+ 1 2)` pays (see above); with
    // weight 0.25 it does not: 2 * 0.25 * 3 saved against a body of 4.
    let programs = texts(&["(g (+ 1 2))", "(h (+ 1 2))"]);
    let light = vec![250u32, 250];
    let out = multistep_compression(&programs, None, Some(&light), None, None, &Config::standard())
        .unwrap();
    assert!(out.inventions.is_empty());
    assert_eq!(out.original_size, 3000);
    let heavy = vec![3000u32, 0];
    let out = multistep_compression(&programs, None, Some(&heavy), None, None, &Config::standard())
        .unwrap();
    assert_eq!(strings(&out.programs), vec!["(g f0)", "(h f0)"]);
    assert_eq!(out.steps[0].size_before, 18000);
    assert_eq!(out.steps[0].size_after, 9000);
}

#[test]
fn a_pattern_that_occurs_once_is_no_candidate() {
    // With weight 3.0 the whole program would pay as an invention of its
    // own, but it occurs at one place only.
    let programs = texts(&["(g (+ 1 2))"]);
    let heavy = vec![3000u32];
    let out = multistep_compression(&programs, None, Some(&heavy), None, None, &Config::standard())
        .unwrap();
    assert!(out.inventions.is_empty());
    assert_eq!(out.stop, Some(Stop::NoCandidate));
}

#[test]
fn small_bodies_can_be_excluded() {
    let programs = ["(g (+ 1 2))", "(h (+ 1 2))"];
    let mut cfg = Config::standard();
    cfg.min_utility = 4;
    assert_eq!(compress(&programs, &cfg).inventions.len(), 1);
    cfg.min_utility = 5;
    assert!(compress(&programs, &cfg).inventions.is_empty());
}

#[test]
fn ties_go_to_more_occurrences_then_to_the_smaller_text() {
    // `(k a a)` and `(k b b)` both occur twice and pay the same; the text
    // `(k a a)` comes first.
    let programs = ["(p (k a a))", "(q (k a a))", "(r (k b b))", "(s (k b b))"];
    let mut cfg = Config::standard();
    cfg.max_arity = 0;
    cfg.max_rounds = 1;
    let out = compress(&programs, &cfg);
    assert_eq!(out.inventions, vec![invention("f0", 0, "(k a a)")]);
    assert_eq!(strings(&out.programs), vec!["(p f0)", "(q f0)", "(r (k b b))", "(s (k b b))"]);
}

#[test]
fn names_in_use_are_skipped() {
    let out = compress(&["(f0 (+ 1 2))", "(f1 (+ 1 2))"], &Config::standard());
    assert_eq!(strings(&out.programs), vec!["(f0 f2)", "(f1 f2)"]);
    assert_eq!(out.inventions, vec![invention("f2", 0, "(+ 1 2)")]);
}

#[test]
fn the_name_mapping_renames_inventions_on_output() {
    let programs = texts(&["(g (+ 1 2))", "(h (+ 1 2))"]);
    let mapping = vec![
        (b"f0".to_vec(), b"first".to_vec()),
        (b"g".to_vec(), b"never".to_vec()),
        (b"f0".to_vec(), b"three".to_vec()),
    ];
    let out =
        multistep_compression(&programs, None, None, Some(&mapping), None, &Config::standard())
            .unwrap();
    assert_eq!(strings(&out.programs), vec!["(g three)", "(h three)"]);
    assert_eq!(out.inventions, vec![invention("three", 0, "(+ 1 2)")]);
}

#[test]
fn supplied_inventions_seed_the_library() {
    let programs = texts(&["(g (+ 1 2) (k a a))", "(h (+ 1 2) (k a a))"]);
    let library = vec![invention("plus", 0, "(+ 1 2)")];
    let out =
        multistep_compression(&programs, None, None, None, Some(&library), &Config::standard())
            .unwrap();
    assert_eq!(out.inventions[0], library[0]);
    assert!(!out.steps[0].discovered);
    assert_eq!(out.steps[0].occurrences, 2);
    assert!(out.steps.len() >= 2);
    assert!(out.steps[1].discovered);
    assert_eq!(out.steps[1].size_before, out.steps[0].size_after);
    for p in strings(&out.programs) {
        assert!(!p.contains("(+ 1 2)"));
    }
}

#[test]
fn rewriting_again_with_the_library_changes_nothing() {
    let programs = texts(&[
        "(foo (bar 1) (baz 2 2))",
        "(foo (bar 3) (baz 2 2))",
        "(foo (bar 5) (baz 2 2))",
    ]);
    let cfg = Config::standard();
    let out = multistep_compression(&programs, None, None, None, None, &cfg).unwrap();
    let again = rewrite_with_inventions(&out.programs, &out.inventions, &cfg).unwrap();
    assert_eq!(again.programs, out.programs);
    for step in &again.steps {
        assert_eq!(step.occurrences, 0);
    }
}

#[test]
fn the_same_input_gives_the_same_output_whatever_the_thread_count() {
    let programs = texts(&[
        "(a (b (c d e) (c d e)) (b (c d e) (c d e)))",
        "(z (b (c d e) (c d e)))",
    ]);
    let mut one = Config::standard();
    one.thread_count = 1;
    let mut many = Config::standard();
    many.thread_count = 8;
    let x = multistep_compression(&programs, None, None, None, None, &one).unwrap();
    let y = multistep_compression(&programs, None, None, None, None, &many).unwrap();
    assert_eq!(x.programs, y.programs);
    assert_eq!(x.inventions, y.inventions);
    assert_eq!(x.steps, y.steps);
    assert_eq!(x.stop, y.stop);
}

#[test]
fn a_larger_corpus_with_binders() {
    let mut programs: Vec<Vec<u8>> = Vec::new();
    for i in 0..30 {
        let text = format!(
            "(lam (fold (lam (lam (cons (+ $1 {}) $0))) nil (map (lam (* $0 {})) $0)))",
            i,
            i + 1
        );
        programs.push(text.into_bytes());
    }
    let out = multistep_compression(&programs, None, None, None, None, &Config::standard()).unwrap();
    assert_eq!(
        out.inventions,
        vec![invention(
            "f0",
            2,
            "(lam (fold (lam (lam (cons (+ $1 #0) $0))) nil (map (lam (* $0 #1)) $0)))"
        )]
    );
    let rewritten = strings(&out.programs);
    for (i, p) in rewritten.iter().enumerate() {
        assert_eq!(*p, format!("(f0 {} {})", i, i + 1));
    }
    assert_eq!(out.steps[0].occurrences, 30);
    assert_eq!(out.steps[0].size_before, 30 * 21 * 1000);
    assert_eq!(out.steps[0].size_after, 30 * 4 * 1000);
    assert_eq!(out.stop, Some(Stop::NoCandidate));
}
