//! The matcher: a simulator that runs a two-character NFA against a
//! character sequence.
//!
//! The simulation keeps a set of current states, starting from the epsilon
//! closure of the start state. At each position it fires every transition
//! whose `current` predicate matches the symbol there and whose lookahead,
//! if present, matches the following symbol, then takes the epsilon closure
//! of the targets. The matcher reports the *longest* accepting position of
//! a given start (leftmost-longest semantics), which is the documented
//! choice of this implementation.

use vstd::prelude::*;

use crate::nfa::trans_matches;
use crate::nfa::CharacterPredicate;
use crate::nfa::CharRange;
use crate::nfa::NfaV;
use crate::nfa::StateId;
use crate::nfa::TransV;
use crate::nfa::TwoCharTransition;
use crate::nfa::NFA;
use vstd::string::StrSliceExecFns;

verus! {

broadcast use {vstd::group_vstd_default, crate::seq_facts::group_seq_facts};

/// The lookahead symbol at position `pos`: the symbol after the one being
/// consumed, if any.
pub open spec fn la_of(chars: Seq<char>, pos: int) -> Option<char> {
    if pos + 1 < chars.len() {
        Some(chars[pos + 1])
    } else {
        None
    }
}

/// An `Option<usize>` as an `Option<int>`.
pub open spec fn opt_end(o: Option<usize>) -> Option<int> {
    match o {
        Some(e) => Some(e as int),
        None => None,
    }
}

impl NfaV {
    /// The targets of every transition in `c` that fires on `cur` with
    /// lookahead `next`.
    pub open spec fn step_set(self, c: Set<StateId>, cur: char, next: Option<char>) -> Set<
        StateId,
    > {
        Set::new(
            |t: StateId|
                exists|tv: TransV|
                    #[trigger] self.trans_of_set(c).contains(tv) && trans_matches(tv, cur, next)
                        && tv.target == t,
        )
    }

    /// The longest position `>= pos` at which the simulation, standing in
    /// state set `c` at position `pos`, is in an accepting state; `None`
    /// if there is no such position.
    pub open spec fn best_from(self, c: Set<StateId>, chars: Seq<char>, pos: int) -> Option<int>
        decreases chars.len() - pos,
    {
        let here: Option<int> = if self.any_accepting(c) {
            Some(pos)
        } else {
            None
        };
        if pos >= chars.len() {
            here
        } else {
            let nxt = self.closure_of(self.step_set(c, chars[pos], la_of(chars, pos)));
            match self.best_from(nxt, chars, pos + 1) {
                Some(e) => Some(e),
                None => here,
            }
        }
    }

    /// The result of matching at position `start`: the longest accepting
    /// end position, starting from the epsilon closure of the start state.
    pub open spec fn match_at_spec(self, chars: Seq<char>, start: int) -> Option<int> {
        self.best_from(self.closure_of(set![self.start]), chars, start)
    }

    /// The first start position `>= s` that matches, with its end position.
    pub open spec fn find_from(self, chars: Seq<char>, s: int) -> Option<(int, int)>
        decreases chars.len() + 1 - s,
    {
        if s > chars.len() {
            None
        } else {
            match self.match_at_spec(chars, s) {
                Some(e) => Some((s, e)),
                None => self.find_from(chars, s + 1),
            }
        }
    }

    /// The leftmost match of the whole input, if any.
    pub open spec fn find_spec(self, chars: Seq<char>) -> Option<(int, int)> {
        self.find_from(chars, 0)
    }
}

/// A successful simulation never reports a position before its start or
/// past the end of the input.
pub proof fn lemma_best_from_bounds(nfa: NfaV, c: Set<StateId>, chars: Seq<char>, pos: int)
    requires
        pos <= chars.len(),
    ensures
        match nfa.best_from(c, chars, pos) {
            Some(e) => pos <= e <= chars.len(),
            None => true,
        },
    decreases chars.len() - pos,
{
    if pos < chars.len() {
        let nxt = nfa.closure_of(nfa.step_set(c, chars[pos], la_of(chars, pos)));
        lemma_best_from_bounds(nfa, nxt, chars, pos + 1);
    }
}

/// Standing in an accepting set, the simulation reports a match.
pub proof fn lemma_best_from_accepting(nfa: NfaV, c: Set<StateId>, chars: Seq<char>, pos: int)
    requires
        nfa.any_accepting(c),
    ensures
        nfa.best_from(c, chars, pos) is Some,
{
}

/// The empty state set never matches.
pub proof fn lemma_best_from_empty(nfa: NfaV, chars: Seq<char>, pos: int)
    ensures
        nfa.best_from(Set::empty(), chars, pos) is None,
    decreases chars.len() - pos,
{
    assert(!nfa.any_accepting(Set::<StateId>::empty()));
    if pos < chars.len() {
        let stepped = nfa.step_set(Set::empty(), chars[pos], la_of(chars, pos));
        assert(stepped =~= Set::<StateId>::empty());
        let nxt = nfa.closure_of(stepped);
        assert forall|x: StateId| nfa.in_closure(Set::empty(), x) implies false by {
            assert(Set::<StateId>::empty().subset_of(Set::<StateId>::empty()));
            assert(nfa.eps_closed(Set::<StateId>::empty()));
            assert(!Set::<StateId>::empty().contains(x));
        }
        assert(nxt =~= Set::<StateId>::empty());
        lemma_best_from_empty(nfa, chars, pos + 1);
    }
}

/// A reported find never starts before the position it was searched from.
pub proof fn lemma_find_from_start(nfa: NfaV, chars: Seq<char>, s: int)
    ensures
        match nfa.find_from(chars, s) {
            Some(p) => s <= p.0 <= chars.len(),
            None => true,
        },
    decreases chars.len() + 1 - s,
{
    if s <= chars.len() && nfa.match_at_spec(chars, s) is None {
        lemma_find_from_start(nfa, chars, s + 1);
    }
}

/// The whole input matches exactly when the leftmost find spans the whole
/// input: `is_match` agrees with `find` returning the full span.
pub proof fn lemma_full_match_iff_find(nfa: NfaV, chars: Seq<char>)
    ensures
        (nfa.match_at_spec(chars, 0) == Some(chars.len() as int)) <==> (nfa.find_spec(chars)
            == Some((0int, chars.len() as int))),
{
    match nfa.match_at_spec(chars, 0) {
        Some(e) => {
            assert(nfa.find_spec(chars) == Some((0int, e)));
        },
        None => {
            assert(nfa.find_spec(chars) == nfa.find_from(chars, 1));
            lemma_find_from_start(nfa, chars, 1);
        },
    }
}

/// The outcome of a single match attempt.
#[derive(Debug, Clone, Copy, PartialEq, Eq, Structural)]
pub struct MatchResult {
    pub matched: bool,
    pub start: usize,
    pub end: usize,
}

/// A matcher that executes a two-character Thompson NFA against input.
pub struct Matcher<'a> {
    nfa: &'a NFA,
}

impl<'a> View for Matcher<'a> {
    type V = NfaV;

    closed spec fn view(&self) -> NfaV {
        self.nfa@
    }
}

/// Whether symbol `c` lies in one of the ranges.
fn ranges_contain(rs: &Vec<CharRange>, c: char) -> (r: bool)
    ensures
        r == crate::nfa::char_in_ranges(rs@, c),
{
    let mut i: usize = 0;
    while i < rs.len()
        invariant
            0 <= i <= rs@.len(),
            forall|j: int|
                0 <= j < i ==> !((#[trigger] rs@[j]).lo as u32 <= c as u32 && c as u32
                    <= rs@[j].hi as u32),
        decreases rs@.len() - i,
    {
        let lo = rs[i].lo;
        let hi = rs[i].hi;
        if lo as u32 <= c as u32 && c as u32 <= hi as u32 {
            return true;
        }
        i += 1;
    }
    false
}

/// Whether predicate `p` accepts symbol `c`.
fn pred_eval(p: &CharacterPredicate, c: char) -> (r: bool)
    ensures
        r == crate::nfa::pred_matches(p@, c),
{
    match p {
        CharacterPredicate::Any => true,
        CharacterPredicate::Char(d) => c == *d,
        CharacterPredicate::CharSet(rs) => ranges_contain(rs, c),
        CharacterPredicate::NotCharSet(rs) => !ranges_contain(rs, c),
    }
}

/// Collects the characters of a string slice.
fn str_chars(s: &str) -> (v: Vec<char>)
    ensures
        v@ == s@,
{
    let n = s.unicode_len();
    let mut v: Vec<char> = Vec::new();
    let mut i: usize = 0;
    while i < n
        invariant
            0 <= i <= n,
            n == s@.len(),
            v@ == s@.subrange(0, i as int),
        decreases n - i,
    {
        v.push(s.get_char(i));
        i += 1;
        proof {
            assert(v@ =~= s@.subrange(0, i as int));
        }
    }
    proof {
        assert(v@ =~= s@);
    }
    v
}

impl<'a> Matcher<'a> {
    /// Create a new matcher for the given NFA.
    pub fn new(nfa: &'a NFA) -> (m: Self)
        ensures
            m@ == nfa@,
    {
        Self { nfa }
    }

    /// Check whether a transition fires on the current symbol and lookahead.
    pub fn transition_matches(
        &self,
        transition: &TwoCharTransition,
        current_char: char,
        next_char: Option<char>,
    ) -> (r: bool)
        ensures
            r == trans_matches(transition@, current_char, next_char),
    {
        if !pred_eval(&transition.current, current_char) {
            return false;
        }
        match (&transition.lookahead, next_char) {
            (Option::None, _) => true,
            (Option::Some(p), Option::Some(actual)) => pred_eval(p, actual),
            (Option::Some(p), Option::None) => match p {
                CharacterPredicate::NotCharSet(_) => true,
                _ => false,
            },
        }
    }

    /// Step from the current states on a symbol with lookahead: the targets
    /// of every transition that fires.
    pub fn step_states(
        &self,
        current_states: &Vec<StateId>,
        current_char: char,
        next_char: Option<char>,
    ) -> (out: Vec<StateId>)
        ensures
            out@.to_set() == self@.step_set(current_states@.to_set(), current_char, next_char),
    {
        let ghost cset = current_states@.to_set();
        let transitions = self.nfa.get_two_char_transitions(current_states);
        let ghost tviews = transitions@.map_values(|t: TwoCharTransition| t@);
        let mut out: Vec<StateId> = Vec::new();
        let mut i: usize = 0;
        while i < transitions.len()
            invariant
                0 <= i <= transitions@.len(),
                tviews == transitions@.map_values(|t: TwoCharTransition| t@),
                tviews.to_set() == self@.trans_of_set(cset),
                forall|t: StateId|
                    out@.contains(t) ==> exists|tv: TransV|
                        #[trigger] self@.trans_of_set(cset).contains(tv) && trans_matches(
                            tv,
                            current_char,
                            next_char,
                        ) && tv.target == t,
                forall|j: int|
                    0 <= j < i && trans_matches(#[trigger] tviews[j], current_char, next_char)
                        ==> out@.contains(tviews[j].target),
            decreases transitions@.len() - i,
        {
            if self.transition_matches(&transitions[i], current_char, next_char) {
                proof {
                    assert(tviews[i as int] == transitions@[i as int]@);
                    assert(tviews.to_set().contains(tviews[i as int]));
                }
                out.push(transitions[i].target);
            }
            i += 1;
        }
        proof {
            let sset = self@.step_set(cset, current_char, next_char);
            assert forall|t: StateId| out@.to_set().contains(t) implies sset.contains(t) by {}
            assert forall|t: StateId| sset.contains(t) implies out@.to_set().contains(t) by {
                let tv = choose|tv: TransV|
                    #[trigger] self@.trans_of_set(cset).contains(tv) && trans_matches(
                        tv,
                        current_char,
                        next_char,
                    ) && tv.target == t;
                assert(tviews.to_set().contains(tv));
                assert(tviews.contains(tv));
                let j = choose|j: int| 0 <= j < tviews.len() && tviews[j] == tv;
                assert(out@.contains(tviews[j].target));
            }
            assert(out@.to_set() =~= sset);
        }
        out
    }

    /// Try to match at a specific position; returns the longest accepting
    /// end position, if any.
    pub fn match_at(&self, chars: &Vec<char>, start: usize) -> (r: Option<usize>)
        requires
            start <= chars@.len(),
        ensures
            opt_end(r) == self@.match_at_spec(chars@, start as int),
            r matches Some(e) ==> start <= e <= chars@.len(),
    {
        let ghost nfa = self@;
        let mut init: Vec<StateId> = Vec::new();
        init.push(self.nfa.start);
        proof {
            assert(init@.to_set() =~= set![nfa.start]);
        }
        let mut current = self.nfa.epsilon_closure(&init);
        let ghost cs0 = current@.to_set();
        let mut best: Option<usize> = if self.nfa.is_accepting(&current) {
            Some(start)
        } else {
            None
        };
        let mut pos = start;
        proof {
            let p = nfa.best_from(cs0, chars@, start as int);
            if p is None {
                assert(!nfa.any_accepting(cs0)) by {
                    if nfa.any_accepting(cs0) {
                        lemma_best_from_accepting(nfa, cs0, chars@, start as int);
                    }
                }
            }
        }
        while pos < chars.len() && current.len() > 0
            invariant
                start <= pos <= chars@.len(),
                nfa == self@,
                nfa.match_at_spec(chars@, start as int) == (match nfa.best_from(
                    current@.to_set(),
                    chars@,
                    pos as int,
                ) {
                    Some(e) => Some(e),
                    None => opt_end(best),
                }),
                nfa.any_accepting(current@.to_set()) ==> best == Some(pos),
                best matches Some(e) ==> start <= e <= pos,
            decreases chars@.len() - pos,
        {
            let ghost cs = current@.to_set();
            let ghost p = nfa.best_from(cs, chars@, pos as int);
            let current_char = chars[pos];
            let next_char: Option<char> = if pos + 1 < chars.len() {
                Some(chars[pos + 1])
            } else {
                None
            };
            proof {
                assert(la_of(chars@, pos as int) == next_char);
            }
            let stepped = self.step_states(&current, current_char, next_char);
            current = self.nfa.epsilon_closure(&stepped);
            let ghost nxt = current@.to_set();
            pos = pos + 1;
            let accepting_now = self.nfa.is_accepting(&current);
            let ghost best_pre = best;
            if accepting_now {
                best = Some(pos);
            }
            proof {
                assert(nxt == nfa.closure_of(
                    nfa.step_set(cs, current_char, la_of(chars@, pos as int - 1)),
                ));
                let rest = nfa.best_from(nxt, chars@, pos as int);
                assert(p == (match rest {
                    Some(e) => Some(e),
                    None => if nfa.any_accepting(cs) {
                        Some(pos - 1)
                    } else {
                        None
                    },
                }));
                if rest is None {
                    assert(!nfa.any_accepting(nxt)) by {
                        if nfa.any_accepting(nxt) {
                            lemma_best_from_accepting(nfa, nxt, chars@, pos as int);
                        }
                    }
                    assert(best == best_pre);
                }
            }
        }
        proof {
            let cs = current@.to_set();
            if pos == chars@.len() {
                assert(nfa.best_from(cs, chars@, pos as int) == (if nfa.any_accepting(cs) {
                    Some(pos as int)
                } else {
                    Option::<int>::None
                }));
            } else {
                assert(current@.len() == 0);
                assert(cs =~= Set::<StateId>::empty());
                lemma_best_from_empty(nfa, chars@, pos as int);
            }
        }
        best
    }

    /// Check whether the entire input matches: the match attempt at the
    /// start of the input accepts exactly at the end of the input.
    pub fn is_match(&self, input: &str) -> (r: bool)
        ensures
            r == (self@.match_at_spec(input@, 0) == Some(input@.len() as int)),
    {
        let chars = str_chars(input);
        match self.match_at(&chars, 0) {
            Some(e) => e == chars.len(),
            None => false,
        }
    }

    /// Find the first match in the input: the smallest start position with
    /// a match, together with its longest end position.
    pub fn find(&self, input: &str) -> (r: Option<MatchResult>)
        ensures
            match r {
                Some(m) => m.matched && self@.find_spec(input@) == Some(
                    (m.start as int, m.end as int),
                ),
                None => self@.find_spec(input@) is None,
            },
    {
        let ghost nfa = self@;
        let chars = str_chars(input);
        let n = chars.len();
        let mut start: usize = 0;
        loop
            invariant
                0 <= start <= n,
                n == chars@.len(),
                chars@ == input@,
                nfa == self@,
                nfa.find_spec(input@) == nfa.find_from(chars@, start as int),
            decreases n - start,
        {
            match self.match_at(&chars, start) {
                Some(e) => {
                    return Some(MatchResult { matched: true, start, end: e });
                },
                None => {},
            }
            if start == n {
                proof {
                    assert(nfa.find_from(chars@, start as int) == nfa.find_from(
                        chars@,
                        start as int + 1,
                    ));
                }
                return None;
            }
            start = start + 1;
        }
    }

    /// Find all non-overlapping matches, left to right and greedy; an empty
    /// match advances the search by one symbol.
    pub fn find_all(&self, input: &str) -> (out: Vec<MatchResult>)
        ensures
            out@.map_values(|m: MatchResult| (m.start as int, m.end as int)) == self@.find_all_spec(
                input@,
                0,
            ),
            forall|i: int| 0 <= i < out@.len() ==> (#[trigger] out@[i]).matched,
    {
        let ghost nfa = self@;
        let chars = str_chars(input);
        let mut out: Vec<MatchResult> = Vec::new();
        let mut start: usize = 0;
        while start < chars.len()
            invariant
                0 <= start,
                chars@ == input@,
                nfa == self@,
                nfa.find_all_spec(input@, 0) == out@.map_values(
                    |m: MatchResult| (m.start as int, m.end as int),
                ) + nfa.find_all_spec(chars@, start as int),
                forall|i: int| 0 <= i < out@.len() ==> (#[trigger] out@[i]).matched,
            decreases chars@.len() - start,
        {
            let ghost out_pre = out@.map_values(|m: MatchResult| (m.start as int, m.end as int));
            match self.match_at(&chars, start) {
                Some(e) => {
                    out.push(MatchResult { matched: true, start, end: e });
                    let next_start = if e >= start + 1 {
                        e
                    } else {
                        start + 1
                    };
                    proof {
                        assert(out@.map_values(|m: MatchResult| (m.start as int, m.end as int))
                            =~= out_pre.push((start as int, e as int)));
                        assert(nfa.find_all_spec(chars@, start as int) == seq![
                            (start as int, e as int),
                        ] + nfa.find_all_spec(chars@, next_start as int));
                        assert(out_pre + nfa.find_all_spec(chars@, start as int) =~= out_pre.push(
                            (start as int, e as int),
                        ) + nfa.find_all_spec(chars@, next_start as int));
                    }
                    start = next_start;
                },
                None => {
                    proof {
                        assert(nfa.find_all_spec(chars@, start as int) == nfa.find_all_spec(
                            chars@,
                            start as int + 1,
                        ));
                    }
                    start = start + 1;
                },
            }
        }
        proof {
            assert(nfa.find_all_spec(chars@, start as int) =~= Seq::<(int, int)>::empty());
            assert(out@.map_values(|m: MatchResult| (m.start as int, m.end as int)) + Seq::<
                (int, int),
            >::empty() =~= out@.map_values(|m: MatchResult| (m.start as int, m.end as int)));
        }
        out
    }
}

impl NfaV {
    /// All non-overlapping matches from `start` on, left to right; an empty
    /// match advances by one symbol.
    pub open spec fn find_all_spec(self, chars: Seq<char>, start: int) -> Seq<(int, int)>
        decreases chars.len() - start,
        when start >= 0
        via Self::find_all_spec_decreases
    {
        if start >= chars.len() {
            Seq::empty()
        } else {
            match self.match_at_spec(chars, start) {
                Some(e) => seq![(start, e)] + self.find_all_spec(
                    chars,
                    if e >= start + 1 {
                        e
                    } else {
                        start + 1
                    },
                ),
                None => self.find_all_spec(chars, start + 1),
            }
        }
    }

    #[via_fn]
    proof fn find_all_spec_decreases(self, chars: Seq<char>, start: int) {
        if start < chars.len() {
            match self.match_at_spec(chars, start) {
                Some(e) => {
                    lemma_best_from_bounds(
                        self,
                        self.closure_of(set![self.start]),
                        chars,
                        start,
                    );
                },
                None => {},
            }
        }
    }
}

} // verus!
