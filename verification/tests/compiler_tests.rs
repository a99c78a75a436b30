use thompson_nfa_compiler::hir::ByteRange;
use thompson_nfa_compiler::hir::ClassKind;
use thompson_nfa_compiler::hir::Hir;
use thompson_nfa_compiler::hir::LookKind;
use thompson_nfa_compiler::hir::RepKind;
use thompson_nfa_compiler::hir::Repetition;
use thompson_nfa_compiler::nfa::CharRange;
use thompson_nfa_compiler::CompileError;
use thompson_nfa_compiler::Compiler;
use thompson_nfa_compiler::Matcher;
use thompson_nfa_compiler::NFA;

fn lit(s: &str) -> Hir {
    Hir::Literal(s.chars().collect())
}

fn rep(min: u32, max: Option<u32>, kind: RepKind, sub: Hir) -> Hir {
    Hir::Repetition(Repetition { min, max, kind, sub: Box::new(sub) })
}

fn compile(h: &Hir) -> NFA {
    Compiler::new().compile(h).expect("expected the pattern to compile")
}

fn span(nfa: &NFA, input: &str) -> Option<(usize, usize)> {
    Matcher::new(nfa).find(input).map(|m| (m.start, m.end))
}

#[test]
fn scenario_literal_pair() {
    // pattern `ab`
    let nfa = compile(&lit("ab"));
    let matcher = Matcher::new(&nfa);
    assert!(matcher.is_match("ab"));
    assert_eq!(span(&nfa, "ab"), Some((0, 2)));
    assert!(!matcher.is_match("a"));
    assert!(!matcher.is_match("abc"));
}

#[test]
fn scenario_star() {
    // pattern `a*`
    let h = rep(0, None, RepKind::Greedy, lit("a"));
    let nfa = compile(&h);
    let matcher = Matcher::new(&nfa);
    assert!(matcher.is_match("aaa"));
    assert_eq!(span(&nfa, "aaa"), Some((0, 3)));
    assert!(matcher.is_match(""));
    assert_eq!(span(&nfa, ""), Some((0, 0)));
}

#[test]
fn scenario_alternation() {
    // pattern `a|b`
    let h = Hir::Alternation(vec![lit("a"), lit("b")]);
    let nfa = compile(&h);
    let matcher = Matcher::new(&nfa);
    assert!(matcher.is_match("b"));
    assert_eq!(span(&nfa, "b"), Some((0, 1)));
    assert!(!matcher.is_match("c"));
    assert_eq!(span(&nfa, "c"), None);
}

#[test]
fn scenario_class() {
    // pattern `[abc]`
    let h = Hir::Class(ClassKind::Unicode(vec![
        CharRange { lo: 'a', hi: 'a' },
        CharRange { lo: 'b', hi: 'b' },
        CharRange { lo: 'c', hi: 'c' },
    ]));
    let nfa = compile(&h);
    let matcher = Matcher::new(&nfa);
    assert!(matcher.is_match("c"));
    assert_eq!(span(&nfa, "c"), Some((0, 1)));
    assert!(!matcher.is_match("d"));
    assert_eq!(span(&nfa, "d"), None);
}

#[test]
fn scenario_possessive_steals_needed_symbol() {
    // pattern `a++ab` on `aaab`: the possessive loop consumes every `a`,
    // including the one the trailing `ab` needs
    let h = Hir::Concat(vec![rep(1, None, RepKind::Possessive, lit("a")), lit("ab")]);
    let nfa = compile(&h);
    let matcher = Matcher::new(&nfa);
    assert!(!matcher.is_match("aaab"));
    assert_eq!(span(&nfa, "aaab"), None);

    // contrast: the greedy `a+ab` can give one `a` back
    let h2 = Hir::Concat(vec![rep(1, None, RepKind::Greedy, lit("a")), lit("ab")]);
    let nfa2 = compile(&h2);
    let matcher2 = Matcher::new(&nfa2);
    assert!(matcher2.is_match("aaab"));
    assert_eq!(span(&nfa2, "aaab"), Some((0, 4)));
}

#[test]
fn scenario_possessive_negated_class() {
    // pattern `[^ab]++` over a byte class, on `xyzab`: the loop stops
    // exactly where the negated class ceases to hold
    let h = rep(
        1,
        None,
        RepKind::Possessive,
        Hir::Class(ClassKind::Bytes(vec![
            ByteRange { lo: 0, hi: b'a' - 1 },
            ByteRange { lo: b'b' + 1, hi: 255 },
        ])),
    );
    let nfa = compile(&h);
    let matcher = Matcher::new(&nfa);
    assert_eq!(span(&nfa, "xyzab"), Some((0, 3)));
    assert!(!matcher.is_match("xyzab"));
    assert!(matcher.is_match("xyz"));
}

#[test]
fn law_empty_pattern_matches_everywhere() {
    // the empty pattern matches every input at position 0 with zero length
    let nfa = compile(&Hir::Empty);
    let matcher = Matcher::new(&nfa);
    assert!(matcher.is_match(""));
    assert_eq!(span(&nfa, "abc"), Some((0, 0)));
    let all = matcher.find_all("abc");
    let spans: Vec<(usize, usize)> = all.iter().map(|m| (m.start, m.end)).collect();
    assert_eq!(spans, vec![(0, 0), (1, 1), (2, 2)]);
}

#[test]
fn law_full_match_agrees_with_find() {
    // is_match holds exactly when find reports the whole input
    let h = rep(0, None, RepKind::Greedy, lit("a"));
    let nfa = compile(&h);
    let matcher = Matcher::new(&nfa);
    assert!(matcher.is_match("aaa"));
    assert_eq!(span(&nfa, "aaa"), Some((0, 3)));
    assert!(!matcher.is_match("aab"));
    assert_eq!(span(&nfa, "aab"), Some((0, 2)));
}

#[test]
fn law_compilation_is_deterministic() {
    // compiling the same tree twice yields structurally equal automata
    let build = || {
        Hir::Concat(vec![
            rep(0, Some(2), RepKind::Greedy, lit("a")),
            Hir::Alternation(vec![lit("b"), lit("c")]),
        ])
    };
    let nfa1 = compile(&build());
    let nfa2 = compile(&build());
    assert_eq!(nfa1, nfa2);
}

#[test]
fn question_bounds() {
    let h = rep(0, Some(1), RepKind::Greedy, lit("a"));
    let nfa = compile(&h);
    let matcher = Matcher::new(&nfa);
    assert!(matcher.is_match(""));
    assert!(matcher.is_match("a"));
    assert!(!matcher.is_match("aa"));
}

#[test]
fn reluctant_star_compiles_to_same_language() {
    let h = rep(0, None, RepKind::Reluctant, lit("a"));
    let nfa = compile(&h);
    let matcher = Matcher::new(&nfa);
    assert!(matcher.is_match(""));
    assert!(matcher.is_match("aa"));
    assert!(!matcher.is_match("b"));
}

#[test]
fn counted_bounded() {
    // pattern `a{2,3}`
    let h = rep(2, Some(3), RepKind::Greedy, lit("a"));
    let nfa = compile(&h);
    let matcher = Matcher::new(&nfa);
    assert!(!matcher.is_match("a"));
    assert!(matcher.is_match("aa"));
    assert!(matcher.is_match("aaa"));
    assert!(!matcher.is_match("aaaa"));
}

#[test]
fn counted_unbounded() {
    // pattern `a{2,}`
    let h = rep(2, None, RepKind::Greedy, lit("a"));
    let nfa = compile(&h);
    let matcher = Matcher::new(&nfa);
    assert!(!matcher.is_match("a"));
    assert!(matcher.is_match("aa"));
    assert!(matcher.is_match("aaaaa"));
}

#[test]
fn counted_zero_copies_is_empty() {
    // pattern `a{0,0}` lowers to the empty fragment
    let h = rep(0, Some(0), RepKind::Greedy, lit("a"));
    let nfa = compile(&h);
    let matcher = Matcher::new(&nfa);
    assert!(matcher.is_match(""));
    assert!(!matcher.is_match("a"));
}

#[test]
fn possessive_star_optional() {
    // pattern `a*+`
    let h = rep(0, None, RepKind::Possessive, lit("a"));
    let nfa = compile(&h);
    let matcher = Matcher::new(&nfa);
    assert!(matcher.is_match(""));
    assert!(matcher.is_match("aaa"));
    assert!(!matcher.is_match("b"));
}

#[test]
fn capture_is_transparent() {
    let h = Hir::Capture(Box::new(lit("ab")));
    let nfa = compile(&h);
    let matcher = Matcher::new(&nfa);
    assert!(matcher.is_match("ab"));
    assert!(!matcher.is_match("a"));
}

#[test]
fn possessive_before_end_anchor_compiles() {
    // `a++$`: an end anchor fuses into the possessive exits
    let h = Hir::Concat(vec![rep(1, None, RepKind::Possessive, lit("a")), Hir::Look(LookKind::End)]);
    let nfa = compile(&h);
    let matcher = Matcher::new(&nfa);
    assert!(matcher.is_match("aaa"));
    assert!(!matcher.is_match("b"));
}

#[test]
fn error_standalone_lookaround() {
    let r = Compiler::new().compile(&Hir::Look(LookKind::WordAscii));
    assert!(matches!(r, Err(CompileError::UnsupportedFeature(_))));
}

#[test]
fn error_anchor_first_in_pair() {
    let h = Hir::Concat(vec![Hir::Look(LookKind::Start), lit("a")]);
    let r = Compiler::new().compile(&h);
    assert!(matches!(r, Err(CompileError::UnsupportedFeature(_))));
}

#[test]
fn error_anchor_after_plain_element() {
    // a non-possessive element followed by an anchor has no extractable
    // lookahead symbol set
    let h = Hir::Concat(vec![lit("a"), Hir::Look(LookKind::End)]);
    let r = Compiler::new().compile(&h);
    assert!(matches!(r, Err(CompileError::UnsupportedFeature(_))));
}

#[test]
fn error_start_anchor_after_possessive() {
    let h = Hir::Concat(vec![
        rep(1, None, RepKind::Possessive, lit("a")),
        Hir::Look(LookKind::StartLF),
    ]);
    let r = Compiler::new().compile(&h);
    assert!(matches!(r, Err(CompileError::UnsupportedFeature(_))));
}

#[test]
fn error_empty_class() {
    let h = Hir::Class(ClassKind::Unicode(vec![]));
    let r = Compiler::new().compile(&h);
    assert!(matches!(r, Err(CompileError::UnsupportedFeature(_))));
}

#[test]
fn possessive_over_wide_class_uses_set_predicate() {
    // a possessive loop over a class of any width is guarded by the
    // class's set predicate, not an enumeration
    let h = rep(
        1,
        None,
        RepKind::Possessive,
        Hir::Class(ClassKind::Unicode(vec![CharRange { lo: 'a', hi: 'z' }])),
    );
    let nfa = compile(&h);
    let matcher = Matcher::new(&nfa);
    assert!(matcher.is_match("abc"));
    assert!(!matcher.is_match("abc1"));
    assert!(!matcher.is_match(""));
}

#[test]
fn scenario_possessive_negated_unicode_class() {
    // pattern `[^ab]++` over the Unicode complement of {a, b}, on
    // `xyzab`: the loop stops exactly where the negated class ceases to
    // hold
    let h = rep(
        1,
        None,
        RepKind::Possessive,
        Hir::Class(ClassKind::Unicode(vec![
            CharRange { lo: '\u{0}', hi: '`' },
            CharRange { lo: 'c', hi: '\u{10FFFF}' },
        ])),
    );
    let nfa = compile(&h);
    let matcher = Matcher::new(&nfa);
    assert_eq!(span(&nfa, "xyzab"), Some((0, 3)));
    assert!(!matcher.is_match("xyzab"));
    assert!(matcher.is_match("xyz"));
}

#[test]
fn error_possessive_over_empty_class() {
    // a possessive loop still needs at least one symbol in its set
    let h = rep(1, None, RepKind::Possessive, Hir::Class(ClassKind::Unicode(vec![])));
    let r = Compiler::new().compile(&h);
    assert!(matches!(r, Err(CompileError::UnsupportedFeature(_))));
}

#[test]
fn wide_class_uses_set_predicate() {
    // a range wider than 1000 code points compiles and matches by set
    let h = Hir::Class(ClassKind::Unicode(vec![CharRange { lo: '\u{100}', hi: '\u{900}' }]));
    let nfa = compile(&h);
    let matcher = Matcher::new(&nfa);
    assert!(matcher.is_match("\u{500}"));
    assert!(!matcher.is_match("a"));
}

#[test]
fn huge_class_takes_negation_heuristic() {
    // a class whose cardinality exceeds 50000 is treated as negated: it
    // still accepts symbols inside its ranges through the terminal
    // any-symbol transition
    let h = Hir::Class(ClassKind::Unicode(vec![
        CharRange { lo: '\u{0}', hi: 'b' },
        CharRange { lo: 'd', hi: '\u{10FFFF}' },
    ]));
    let nfa = compile(&h);
    let matcher = Matcher::new(&nfa);
    assert!(matcher.is_match("x"));
    assert!(!matcher.is_match(""));
    assert!(!matcher.is_match("xy"));
}

#[test]
fn error_message_text() {
    assert_eq!(CompileError::TooComplex.message(), "regex pattern is too complex");
    assert_eq!(
        CompileError::UnsupportedFeature("lookbehind".to_owned()).message(),
        "unsupported feature: lookbehind"
    );
    assert_eq!(CompileError::Internal("oops".to_owned()).message(), "internal error: oops");
}
