use mastermind::gameplay::{KeyPegs, Pattern};
use mastermind::solver::{PatternSet, Solver};

fn pattern_of(text: &str) -> Pattern {
    let c: Vec<char> = text.chars().collect();
    Pattern::from_digits([c[0], c[1], c[2], c[3]])
}

#[test]
fn possible_codes_are_all_patterns() {
    let s = Solver::<fn(&Pattern) -> KeyPegs>::possible_codes();
    assert_eq!(s.len(), 1296);
    for i in 0..Pattern::cardinality() {
        assert!(s.contains(&Pattern::ith(i)));
    }
}

#[test]
fn initial_guess_is_1122() {
    let g = Solver::<fn(&Pattern) -> KeyPegs>::initial_guess();
    assert_eq!(g.to_string(), "1122");
    assert_eq!(g, pattern_of("1122"));
}

#[test]
fn opening_guess_does_not_depend_on_the_codemaker() {
    for secret in ["1111", "1122", "6543", "6666"] {
        let code = pattern_of(secret);
        let mut breaker = Solver::new(move |guess: &Pattern| code.score(*guess));
        assert_eq!(breaker.play(), Some(pattern_of("1122")));
        assert_eq!(breaker.guessed, vec![pattern_of("1122")]);
        assert_eq!(breaker.s.len(), 1296);
    }
}

#[test]
fn solved_on_the_opening_guess() {
    let code1 = pattern_of("1122");
    let mut breaker1 = Solver::new(move |guess: &Pattern| code1.score(*guess));
    match breaker1.play() {
        None => panic!("no guess from the first turn"),
        Some(g) => assert!(code1.score(g).win()),
    }
    assert_eq!(breaker1.play(), None);
    assert_eq!(breaker1.play(), None);
    assert_eq!(breaker1.guessed.len(), 1);
}

#[test]
fn retain_same_response_keeps_consistent_codes() {
    let code2 = pattern_of("1123");
    let mut breaker2 = Solver::new(move |guess: &Pattern| code2.score(*guess));
    let guess1 = breaker2.play().expect("a first guess");
    let response = code2.score(guess1);
    assert!(!response.win());
    assert_eq!(response, KeyPegs::new().blacks(3));

    breaker2.retain_same_response(response);
    assert!(!breaker2.s.contains(&pattern_of("5223")));
    let keep = pattern_of("5122");
    assert_eq!(guess1.score(keep), response);
    assert!(breaker2.s.contains(&keep));
    assert!(breaker2.s.contains(&code2));
    for i in 0..Pattern::cardinality() {
        let p = Pattern::ith(i);
        assert_eq!(breaker2.s.contains(&p), guess1.score(p) == response);
    }
    assert_eq!(breaker2.last_guess(), guess1);
}

#[test]
fn candidates_only_shrink_and_keep_the_secret() {
    let code = pattern_of("6543");
    let mut breaker = Solver::new(move |guess: &Pattern| code.score(*guess));
    let mut previous = breaker.s.len();
    while let Some(_) = breaker.play() {
        assert!(breaker.s.len() <= previous);
        assert!(breaker.s.contains(&code));
        let last = breaker.last_guess();
        assert!(last.score(last).win());
        previous = breaker.s.len();
    }
    assert_eq!(breaker.last_guess(), code);
}

#[test]
fn best_guesses_are_sorted_unused_and_the_choice_is_among_them() {
    let code = pattern_of("3456");
    let mut breaker = Solver::new(move |guess: &Pattern| code.score(*guess));
    let first = breaker.play().unwrap();
    breaker.retain_same_response(code.score(first));
    let best = breaker.best_guesses();
    assert!(!best.is_empty());
    for w in best.windows(2) {
        assert!(w[0].index() < w[1].index());
    }
    assert!(!best.contains(&first));
    let next = breaker.next_guess();
    assert!(best.contains(&next));
    match best.iter().find(|g| breaker.s.contains(g)) {
        Some(g) => assert_eq!(*g, next),
        None => assert_eq!(best[0], next),
    }
}

#[test]
fn second_guess_after_no_pegs() {
    // With no peg for 1122, only the 256 codes over colours 3 to 6 remain.
    let code = pattern_of("3456");
    let mut breaker = Solver::new(move |guess: &Pattern| code.score(*guess));
    let first = breaker.play().unwrap();
    assert_eq!(code.score(first), KeyPegs::new());
    breaker.retain_same_response(code.score(first));
    assert_eq!(breaker.s.len(), 256);
}

#[test]
fn guesses_stop_at_the_win() {
    let code = pattern_of("1123");
    let mut breaker = Solver::new(move |guess: &Pattern| code.score(*guess));
    let guesses = breaker.guesses(10);
    assert!(guesses.len() <= 5);
    assert_eq!(*guesses.last().unwrap(), code);
    assert_eq!(breaker.guessed, guesses);
    assert!(breaker.guesses(10).is_empty());
}

#[test]
fn guesses_respect_the_budget() {
    let code = pattern_of("6543");
    let mut breaker = Solver::new(move |guess: &Pattern| code.score(*guess));
    let guesses = breaker.guesses(1);
    assert_eq!(guesses, vec![pattern_of("1122")]);
    assert!(breaker.guesses(0).is_empty());
}

#[test]
fn pattern_set_filter_and_remove() {
    let mut set = PatternSet::all();
    assert_eq!(set.len(), 1296);
    let target = pattern_of("1111");
    assert!(set.remove(&target));
    assert!(!set.remove(&target));
    assert!(!set.contains(&target));
    assert_eq!(set.len(), 1295);
    set.filter_with(&|p: &Pattern| p.index() < 100);
    assert_eq!(set.len(), 99);
    assert!(set.contains(&Pattern::ith(99)));
    assert!(!set.contains(&Pattern::ith(100)));
    set.filter_with(&|_p: &Pattern| true);
    assert_eq!(set.len(), 99);
    set.filter_with(&|_p: &Pattern| false);
    assert_eq!(set.len(), 0);
}
