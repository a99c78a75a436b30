use thompson_nfa_compiler::nfa::UNPATCHED;
use thompson_nfa_compiler::Matcher;
use thompson_nfa_compiler::TwoCharTransition;
use thompson_nfa_compiler::NFA;

#[test]
fn test_simple_match() {
    let mut nfa = NFA::new();

    // Create a simple NFA that matches "ab"
    let a_state =
        nfa.transition_state(TwoCharTransition::char_with_lookahead('a', 'b', UNPATCHED));
    let b_state = nfa.transition_state(TwoCharTransition::char('b', UNPATCHED));
    let match_state = nfa.match_state();

    nfa.connect(a_state, b_state);
    nfa.connect(b_state, match_state);
    nfa.start = a_state;

    let matcher = Matcher::new(&nfa);

    assert!(matcher.is_match("ab"));
    assert!(!matcher.is_match("ac"));
    assert!(!matcher.is_match("a"));
}

#[test]
fn test_simple_char_match() {
    let mut nfa = NFA::new();

    // Create NFA that matches "a"
    let a_state = nfa.transition_state(TwoCharTransition::char('a', UNPATCHED));
    let match_state = nfa.match_state();

    nfa.connect(a_state, match_state);
    nfa.start = a_state;

    let matcher = Matcher::new(&nfa);

    assert!(matcher.is_match("a"));
    assert!(!matcher.is_match("b"));
}

#[test]
fn test_dot_match() {
    let mut nfa = NFA::new();

    // Create NFA that matches any single character
    let dot_state = nfa.transition_state(TwoCharTransition::dot(UNPATCHED));
    let match_state = nfa.match_state();

    nfa.connect(dot_state, match_state);
    nfa.start = dot_state;

    let matcher = Matcher::new(&nfa);

    assert!(matcher.is_match("a"));
    assert!(matcher.is_match("x"));
    assert!(!matcher.is_match(""));
    assert!(!matcher.is_match("ab"));
}

#[test]
fn test_dot_with_lookahead() {
    let mut nfa = NFA::new();

    // Any character, but only when followed by 'b'; then 'b'.
    let first = nfa.transition_state(TwoCharTransition::dot_with_lookahead('b', UNPATCHED));
    let b_state = nfa.transition_state(TwoCharTransition::char('b', UNPATCHED));
    let match_state = nfa.match_state();

    nfa.connect(first, b_state);
    nfa.connect(b_state, match_state);
    nfa.start = first;

    let matcher = Matcher::new(&nfa);

    assert!(matcher.is_match("xb"));
    assert!(matcher.is_match("bb"));
    assert!(!matcher.is_match("bc"));
    assert!(!matcher.is_match("b"));
}

#[test]
fn test_char_possessive_constructor() {
    // char_possessive builds the same transition as char: possessive
    // behaviour comes from graph structure, not from flags.
    let t1 = TwoCharTransition::char_possessive('a', 3);
    let t2 = TwoCharTransition::char('a', 3);
    assert_eq!(t1, t2);
}

#[test]
fn test_find_leftmost() {
    let mut nfa = NFA::new();
    let b_state = nfa.transition_state(TwoCharTransition::char('b', UNPATCHED));
    let match_state = nfa.match_state();
    nfa.connect(b_state, match_state);
    nfa.start = b_state;

    let matcher = Matcher::new(&nfa);
    let m = matcher.find("abba").expect("expected a match");
    assert!(m.matched);
    assert_eq!(m.start, 1);
    assert_eq!(m.end, 2);
    assert!(matcher.find("xyz").is_none());
}

#[test]
fn test_find_all_non_overlapping() {
    let mut nfa = NFA::new();
    let a_state = nfa.transition_state(TwoCharTransition::char('a', UNPATCHED));
    let match_state = nfa.match_state();
    nfa.connect(a_state, match_state);
    nfa.start = a_state;

    let matcher = Matcher::new(&nfa);
    let all = matcher.find_all("banana");
    let spans: Vec<(usize, usize)> = all.iter().map(|m| (m.start, m.end)).collect();
    assert_eq!(spans, vec![(1, 2), (3, 4), (5, 6)]);
}

#[test]
fn test_epsilon_closure_and_accepting() {
    let mut nfa = NFA::new();
    let m = nfa.match_state();
    let eps = nfa.epsilon(m);
    let split = nfa.split(vec![eps, m]);
    nfa.start = split;

    let closure = nfa.epsilon_closure(&vec![split]);
    assert!(closure.contains(&split));
    assert!(closure.contains(&eps));
    assert!(closure.contains(&m));
    assert!(nfa.is_accepting(&closure));
    assert!(!nfa.is_accepting(&vec![split, eps]));
}

#[test]
fn test_get_two_char_transitions() {
    let mut nfa = NFA::new();
    let a_state = nfa.transition_state(TwoCharTransition::char('a', 7));
    let eps = nfa.epsilon(0);
    let got = nfa.get_two_char_transitions(&vec![a_state, eps]);
    assert_eq!(got.len(), 1);
    assert_eq!(got[0], TwoCharTransition::char('a', 7));
}

#[test]
fn test_transition_matches_lookahead_rules() {
    let nfa = NFA::new();
    let matcher = Matcher::new(&nfa);

    let plain = TwoCharTransition::char('a', 0);
    assert!(matcher.transition_matches(&plain, 'a', None));
    assert!(matcher.transition_matches(&plain, 'a', Some('z')));
    assert!(!matcher.transition_matches(&plain, 'b', None));

    let with_la = TwoCharTransition::char_with_lookahead('a', 'b', 0);
    assert!(matcher.transition_matches(&with_la, 'a', Some('b')));
    assert!(!matcher.transition_matches(&with_la, 'a', Some('c')));
    // a present single-character lookahead fails at end of input
    assert!(!matcher.transition_matches(&with_la, 'a', None));
}
