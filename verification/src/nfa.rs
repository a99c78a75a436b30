//! The NFA graph model: states, two-character transitions, the builder
//! primitives the compiler uses, and epsilon closure.
//!
//! The graph is a dense arena of [`State`] records indexed by [`StateId`].
//! Forward references created during compilation carry the sentinel target
//! [`UNPATCHED`]; the builder's [`NFA::connect`] primitive rewrites the
//! sentinel once the downstream state is known.
//!
//! Every executable type has a mathematical view (`PredV`, `TransV`,
//! `StateV`, `NfaV`); all contracts are stated over those views.

use vstd::prelude::*;

verus! {

broadcast use {vstd::group_vstd_default, crate::seq_facts::group_seq_facts};

/// A state identifier: a dense index into the NFA's state arena.
pub type StateId = usize;

/// Sentinel target marking a transition whose destination is not yet known.
pub const UNPATCHED: StateId = usize::MAX;

/// A range of Unicode scalar values, inclusive at both ends.
#[derive(Debug, Clone, Copy, PartialEq)]
pub struct CharRange {
    pub lo: char,
    pub hi: char,
}

impl CharRange {
    /// Create a range from its bounds.
    pub fn new(lo: char, hi: char) -> (r: CharRange)
        ensures
            r == (CharRange { lo, hi }),
    {
        CharRange { lo, hi }
    }
}

/// A predicate over a single symbol, used on both the `current` and the
/// `lookahead` slot of a transition.
#[derive(Debug, PartialEq)]
pub enum CharacterPredicate {
    /// Matches any symbol.
    Any,
    /// Matches exactly the given symbol.
    Char(char),
    /// Matches any symbol inside one of the ranges.
    CharSet(Vec<CharRange>),
    /// Matches any symbol outside all of the ranges.
    NotCharSet(Vec<CharRange>),
}

/// The mathematical value of a [`CharacterPredicate`].
pub enum PredV {
    Any,
    Char(char),
    CharSet(Seq<CharRange>),
    NotCharSet(Seq<CharRange>),
}

impl View for CharacterPredicate {
    type V = PredV;

    open spec fn view(&self) -> PredV {
        match self {
            CharacterPredicate::Any => PredV::Any,
            CharacterPredicate::Char(c) => PredV::Char(*c),
            CharacterPredicate::CharSet(rs) => PredV::CharSet(rs@),
            CharacterPredicate::NotCharSet(rs) => PredV::NotCharSet(rs@),
        }
    }
}

/// Whether symbol `c` lies inside one of the ranges `rs`.
pub open spec fn char_in_ranges(rs: Seq<CharRange>, c: char) -> bool {
    exists|i: int|
        0 <= i < rs.len() && (#[trigger] rs[i]).lo as u32 <= c as u32 && c as u32 <= rs[i].hi as u32
}

/// Whether predicate `p` accepts symbol `c`.
pub open spec fn pred_matches(p: PredV, c: char) -> bool {
    match p {
        PredV::Any => true,
        PredV::Char(d) => c == d,
        PredV::CharSet(rs) => char_in_ranges(rs, c),
        PredV::NotCharSet(rs) => !char_in_ranges(rs, c),
    }
}

/// Whether a present lookahead predicate accepts the next symbol.
///
/// At end of input there is no next symbol: only a negated-set lookahead
/// holds there (the absent next symbol lies in no set), which is what lets
/// a possessive loop exit on the final symbol of the input.
pub open spec fn lookahead_matches(p: PredV, next: Option<char>) -> bool {
    match next {
        Some(c) => pred_matches(p, c),
        None => p is NotCharSet,
    }
}

impl Clone for CharacterPredicate {
    /// Cloning a predicate preserves its view.
    fn clone(&self) -> (res: Self)
        ensures
            res@ == self@,
    {
        match self {
            CharacterPredicate::Any => CharacterPredicate::Any,
            CharacterPredicate::Char(c) => CharacterPredicate::Char(*c),
            CharacterPredicate::CharSet(rs) => CharacterPredicate::CharSet(clone_ranges(rs)),
            CharacterPredicate::NotCharSet(rs) => CharacterPredicate::NotCharSet(clone_ranges(rs)),
        }
    }
}

/// Copies a vector of character ranges element by element.
pub(crate) fn clone_ranges(rs: &Vec<CharRange>) -> (out: Vec<CharRange>)
    ensures
        out@ == rs@,
{
    let mut out: Vec<CharRange> = Vec::new();
    let mut i: usize = 0;
    while i < rs.len()
        invariant
            0 <= i <= rs@.len(),
            out@ == rs@.subrange(0, i as int),
        decreases rs@.len() - i,
    {
        out.push(rs[i]);
        i += 1;
        proof {
            assert(out@ =~= rs@.subrange(0, i as int));
        }
    }
    proof {
        assert(out@ =~= rs@);
    }
    out
}

/// A transition that consumes exactly one symbol, the one matched by
/// `current`, and may in addition constrain the following symbol through
/// `lookahead` without consuming it.
#[derive(Debug, PartialEq)]
pub struct TwoCharTransition {
    /// Predicate on the symbol consumed by firing this transition.
    pub current: CharacterPredicate,
    /// Optional predicate on the next symbol; tested, never consumed.
    pub lookahead: Option<CharacterPredicate>,
    /// The target state after consuming the current symbol.
    pub target: StateId,
}

/// The mathematical value of a [`TwoCharTransition`].
pub struct TransV {
    pub current: PredV,
    pub lookahead: Option<PredV>,
    pub target: StateId,
}

impl View for TwoCharTransition {
    type V = TransV;

    open spec fn view(&self) -> TransV {
        TransV {
            current: self.current@,
            lookahead: match self.lookahead {
                Some(p) => Some(p@),
                None => None,
            },
            target: self.target,
        }
    }
}

/// Whether transition `t` fires on current symbol `c` with lookahead `next`.
pub open spec fn trans_matches(t: TransV, c: char, next: Option<char>) -> bool {
    pred_matches(t.current, c) && match t.lookahead {
        None => true,
        Some(p) => lookahead_matches(p, next),
    }
}

impl Clone for TwoCharTransition {
    /// Cloning a transition preserves its view.
    fn clone(&self) -> (res: Self)
        ensures
            res@ == self@,
    {
        TwoCharTransition {
            current: self.current.clone(),
            lookahead: match &self.lookahead {
                Some(p) => Some(p.clone()),
                None => None,
            },
            target: self.target,
        }
    }
}

impl TwoCharTransition {
    /// Create a simple single-character transition.
    pub fn char(ch: char, target: StateId) -> (t: Self)
        ensures
            t@ == (TransV { current: PredV::Char(ch), lookahead: None, target }),
    {
        TwoCharTransition { current: CharacterPredicate::Char(ch), lookahead: None, target }
    }

    /// Create a transition with a single-character lookahead.
    pub fn char_with_lookahead(current: char, lookahead: char, target: StateId) -> (t: Self)
        ensures
            t@ == (TransV {
                current: PredV::Char(current),
                lookahead: Some(PredV::Char(lookahead)),
                target,
            }),
    {
        TwoCharTransition {
            current: CharacterPredicate::Char(current),
            lookahead: Some(CharacterPredicate::Char(lookahead)),
            target,
        }
    }

    /// Create a single-character transition; possessive behaviour comes from
    /// graph structure, not from per-transition flags.
    pub fn char_possessive(ch: char, target: StateId) -> (t: Self)
        ensures
            t@ == (TransV { current: PredV::Char(ch), lookahead: None, target }),
    {
        TwoCharTransition { current: CharacterPredicate::Char(ch), lookahead: None, target }
    }

    /// Create a dot (any character) transition.
    pub fn dot(target: StateId) -> (t: Self)
        ensures
            t@ == (TransV { current: PredV::Any, lookahead: None, target }),
    {
        TwoCharTransition { current: CharacterPredicate::Any, lookahead: None, target }
    }

    /// Create a dot transition with a single-character lookahead.
    pub fn dot_with_lookahead(lookahead: char, target: StateId) -> (t: Self)
        ensures
            t@ == (TransV {
                current: PredV::Any,
                lookahead: Some(PredV::Char(lookahead)),
                target,
            }),
    {
        TwoCharTransition {
            current: CharacterPredicate::Any,
            lookahead: Some(CharacterPredicate::Char(lookahead)),
            target,
        }
    }
}

/// A Thompson NFA state.
#[derive(Debug, PartialEq)]
pub enum State {
    /// An input-consuming node with two-character transitions.
    Transitions { transitions: Vec<TwoCharTransition> },
    /// A single non-consuming edge.
    Epsilon { next: StateId },
    /// A non-deterministic fan-out of non-consuming edges; the order of the
    /// targets is semantic (earlier targets have matching priority).
    Split { targets: Vec<StateId> },
    /// Accepting, terminal, no outgoing edges.
    Match,
    /// Non-accepting terminal sink, reachable only through explicit
    /// rejection transitions.
    Rejected,
}

/// The mathematical value of a [`State`].
pub enum StateV {
    Transitions(Seq<TransV>),
    Epsilon(StateId),
    Split(Seq<StateId>),
    Match,
    Rejected,
}

impl View for State {
    type V = StateV;

    open spec fn view(&self) -> StateV {
        match self {
            State::Transitions { transitions } => StateV::Transitions(
                transitions@.map_values(|t: TwoCharTransition| t@),
            ),
            State::Epsilon { next } => StateV::Epsilon(*next),
            State::Split { targets } => StateV::Split(targets@),
            State::Match => StateV::Match,
            State::Rejected => StateV::Rejected,
        }
    }
}

impl StateV {
    /// Every target this state mentions, in order.
    pub open spec fn out_targets(self) -> Seq<StateId> {
        match self {
            StateV::Transitions(ts) => ts.map_values(|t: TransV| t.target),
            StateV::Epsilon(next) => seq![next],
            StateV::Split(targets) => targets,
            StateV::Match => Seq::empty(),
            StateV::Rejected => Seq::empty(),
        }
    }
}

/// Whether every target of `s` is below `n`.
pub open spec fn state_targets_valid(s: StateV, n: int) -> bool {
    forall|j: int| 0 <= j < s.out_targets().len() ==> (#[trigger] s.out_targets()[j]) < n
}

/// Whether every target of `s` lies in `[lo, hi)` or is the sentinel.
pub open spec fn state_in_region(s: StateV, lo: int, hi: int) -> bool {
    forall|j: int|
        0 <= j < s.out_targets().len() ==> (lo <= (#[trigger] s.out_targets()[j]) < hi
            || s.out_targets()[j] == UNPATCHED)
}

/// Whether no target of `s` is the sentinel.
pub open spec fn state_patched(s: StateV) -> bool {
    forall|j: int| 0 <= j < s.out_targets().len() ==> (#[trigger] s.out_targets()[j]) != UNPATCHED
}

/// A state still waiting for `connect`: an epsilon whose `next` is the
/// sentinel, or a transitions node with at least one sentinel target.
pub open spec fn dangling_state(s: StateV) -> bool {
    match s {
        StateV::Epsilon(next) => next == UNPATCHED,
        StateV::Transitions(ts) => exists|j: int|
            0 <= j < ts.len() && (#[trigger] ts[j]).target == UNPATCHED,
        _ => false,
    }
}

/// A transition with a sentinel target rewritten to `to`; others unchanged.
pub open spec fn patch_transition(t: TransV, to: StateId) -> TransV {
    if t.target == UNPATCHED {
        TransV { current: t.current, lookahead: t.lookahead, target: to }
    } else {
        t
    }
}

/// What `connect(from, to)` does to the state `from`: an epsilon is pointed
/// at `to`, a split gains `to` as an additional target, a transitions node
/// has every sentinel target rewritten to `to`, and terminal states are
/// left alone.
pub open spec fn connect_effect(s_old: StateV, s_new: StateV, to: StateId) -> bool {
    match s_old {
        StateV::Epsilon(_) => s_new == StateV::Epsilon(to),
        StateV::Split(targets) => s_new == StateV::Split(targets.push(to)),
        StateV::Transitions(ts) => s_new == StateV::Transitions(
            ts.map_values(|t: TransV| patch_transition(t, to)),
        ),
        StateV::Match => s_new == s_old,
        StateV::Rejected => s_new == s_old,
    }
}

/// A sub-NFA under construction: control enters at `start`; `end` is the
/// state the next fragment is connected from.
#[derive(Debug, Clone, Copy, PartialEq, Eq, Structural)]
pub struct Fragment {
    pub start: StateId,
    pub end: StateId,
}

/// A Thompson NFA with two-character transitions.
#[derive(Debug, PartialEq)]
pub struct NFA {
    /// All states, indexed by `StateId` in creation order.
    pub states: Vec<State>,
    /// The starting state.
    pub start: StateId,
    /// The accepting states.
    pub accepting: Vec<StateId>,
}

/// The mathematical value of an [`NFA`].
pub struct NfaV {
    pub states: Seq<StateV>,
    pub start: StateId,
    pub accepting: Seq<StateId>,
}

impl View for NFA {
    type V = NfaV;

    open spec fn view(&self) -> NfaV {
        NfaV {
            states: self.states@.map_values(|s: State| s@),
            start: self.start,
            accepting: self.accepting@,
        }
    }
}

impl NfaV {
    /// There is a graph edge from `a` to `b`: some target of `a` is `b`.
    /// A sentinel target is no edge.
    pub open spec fn edge(self, a: StateId, b: StateId) -> bool {
        &&& a < self.states.len()
        &&& b < self.states.len()
        &&& b != UNPATCHED
        &&& self.states[a as int].out_targets().contains(b)
    }

    /// `p` is a non-empty walk along graph edges.
    pub open spec fn is_path(self, p: Seq<StateId>) -> bool {
        &&& p.len() >= 1
        &&& forall|i: int| 0 <= i < p.len() - 1 ==> self.edge(#[trigger] p[i], p[i + 1])
    }

    /// `b` is reachable from `a` along graph edges (in zero or more steps).
    pub open spec fn reaches(self, a: StateId, b: StateId) -> bool {
        exists|p: Seq<StateId>| self.is_path(p) && p.first() == a && p.last() == b
    }

    /// Every target of every state is a real state: no sentinel survives
    /// and no target is out of range.
    pub open spec fn wf(self) -> bool {
        forall|s: int|
            0 <= s < self.states.len() ==> state_targets_valid(
                #[trigger] self.states[s],
                self.states.len() as int,
            )
    }

    /// `accepting` holds exactly the `Match` states.
    pub open spec fn accepting_ok(self) -> bool {
        &&& forall|k: int|
            0 <= k < self.accepting.len() ==> (#[trigger] self.accepting[k]) < self.states.len()
                && self.states[self.accepting[k] as int] is Match
        &&& forall|s: int|
            0 <= s < self.states.len() && (#[trigger] self.states[s]) is Match
                ==> self.accepting.contains(s as StateId)
    }

    pub proof fn lemma_reaches_refl(self, a: StateId)
        ensures
            self.reaches(a, a),
    {
        let p: Seq<StateId> = seq![a];
        assert(self.is_path(p) && p.first() == a && p.last() == a);
    }

    pub proof fn lemma_edge_reaches(self, a: StateId, b: StateId)
        requires
            self.edge(a, b),
        ensures
            self.reaches(a, b),
    {
        let p: Seq<StateId> = seq![a, b];
        assert(self.is_path(p) && p.first() == a && p.last() == b);
    }

    pub proof fn lemma_reaches_trans(self, a: StateId, b: StateId, c: StateId)
        requires
            self.reaches(a, b),
            self.reaches(b, c),
        ensures
            self.reaches(a, c),
    {
        let p1 = choose|p: Seq<StateId>| self.is_path(p) && p.first() == a && p.last() == b;
        let p2 = choose|p: Seq<StateId>| self.is_path(p) && p.first() == b && p.last() == c;
        if p2.len() == 1 {
            assert(self.is_path(p1) && p1.first() == a && p1.last() == c);
        } else {
            let p = p1 + p2.drop_first();
            assert forall|i: int| 0 <= i < p.len() - 1 implies self.edge(
                #[trigger] p[i],
                p[i + 1],
            ) by {
                if i < p1.len() - 1 {
                    assert(p[i] == p1[i] && p[i + 1] == p1[i + 1]);
                } else if i == p1.len() - 1 {
                    assert(p[i] == p1.last());
                    assert(p[i + 1] == p2[1]);
                    assert(self.edge(p2[0], p2[1]));
                } else {
                    let j = i - p1.len() + 1;
                    assert(p[i] == p2[j] && p[i + 1] == p2[j + 1]);
                    assert(self.edge(p2[j], p2[j + 1]));
                }
            }
            assert(self.is_path(p) && p.first() == a && p.last() == c);
        }
    }
}

/// A terminal state has no outgoing edges at all: neither a match state
/// nor a rejected sink mentions any target.
pub proof fn lemma_terminal_no_edges(s: StateV)
    requires
        s is Rejected || s is Match,
    ensures
        s.out_targets() =~= Seq::<StateId>::empty(),
{
}

/// Every edge of `pre` is an edge of `post`.
pub open spec fn edges_preserved(pre: NfaV, post: NfaV) -> bool {
    forall|a: StateId, b: StateId| pre.edge(a, b) ==> #[trigger] post.edge(a, b)
}

/// Reachability survives any change that keeps every existing edge.
pub proof fn lemma_reaches_preserved(pre: NfaV, post: NfaV, a: StateId, b: StateId)
    requires
        edges_preserved(pre, post),
        pre.reaches(a, b),
    ensures
        post.reaches(a, b),
{
    let p = choose|p: Seq<StateId>| pre.is_path(p) && p.first() == a && p.last() == b;
    assert forall|i: int| 0 <= i < p.len() - 1 implies post.edge(#[trigger] p[i], p[i + 1]) by {
        assert(pre.edge(p[i], p[i + 1]));
    }
    assert(post.is_path(p) && p.first() == a && p.last() == b);
}

/// Appending states keeps every edge.
pub proof fn lemma_edges_preserved_extend(pre: NfaV, post: NfaV)
    requires
        pre.states.len() <= post.states.len(),
        forall|i: int| 0 <= i < pre.states.len() ==> post.states[i] == pre.states[i],
    ensures
        edges_preserved(pre, post),
{
    assert forall|a: StateId, b: StateId| pre.edge(a, b) implies post.edge(a, b) by {
        assert(post.states[a as int] == pre.states[a as int]);
    }
}

/// Patching a state through `connect` keeps every edge, provided an epsilon
/// is only connected while its `next` is still the sentinel.
pub proof fn lemma_edges_preserved_connect(pre: NfaV, post: NfaV, from: StateId, to: StateId)
    requires
        post.states.len() == pre.states.len(),
        forall|i: int| 0 <= i < post.states.len() && i != from ==> post.states[i] == pre.states[i],
        from < pre.states.len() ==> connect_effect(
            pre.states[from as int],
            post.states[from as int],
            to,
        ),
        from < pre.states.len() ==> (pre.states[from as int] matches StateV::Epsilon(next) ==> next
            == UNPATCHED),
    ensures
        edges_preserved(pre, post),
{
    assert forall|a: StateId, b: StateId| pre.edge(a, b) implies post.edge(a, b) by {
        if a == from {
            let s_old = pre.states[a as int];
            let s_new = post.states[a as int];
            let j = choose|j: int|
                0 <= j < s_old.out_targets().len() && s_old.out_targets()[j] == b;
            match s_old {
                StateV::Epsilon(next) => {
                    assert(next == b && b != UNPATCHED);
                    assert(false);
                },
                StateV::Split(targets) => {
                    assert(s_new.out_targets()[j] == b);
                },
                StateV::Transitions(ts) => {
                    assert(ts[j].target == b);
                    assert(s_new.out_targets()[j] == patch_transition(ts[j], to).target);
                    assert(s_new.out_targets()[j] == b);
                },
                StateV::Match => {},
                StateV::Rejected => {},
            }
        } else {
            assert(post.states[a as int] == pre.states[a as int]);
        }
    }
}

/// Rewrites that keep every state's targets keep every edge, both ways.
pub proof fn lemma_edges_preserved_same_targets(pre: NfaV, post: NfaV)
    requires
        post.states.len() == pre.states.len(),
        forall|i: int|
            0 <= i < post.states.len() ==> (#[trigger] post.states[i]).out_targets()
                == pre.states[i].out_targets(),
    ensures
        edges_preserved(pre, post),
        edges_preserved(post, pre),
{
    assert forall|a: StateId, b: StateId| pre.edge(a, b) implies post.edge(a, b) by {
        assert(post.states[a as int].out_targets() == pre.states[a as int].out_targets());
    }
    assert forall|a: StateId, b: StateId| post.edge(a, b) implies pre.edge(a, b) by {
        assert(post.states[a as int].out_targets() == pre.states[a as int].out_targets());
    }
}

impl NFA {
    /// Create a new empty NFA.
    pub fn new() -> (nfa: NFA)
        ensures
            nfa@.states =~= Seq::<StateV>::empty(),
            nfa@.start == 0,
            nfa@.accepting =~= Seq::<StateId>::empty(),
    {
        NFA { states: Vec::new(), start: 0, accepting: Vec::new() }
    }

    /// Add a new state and return its identifier.
    pub fn add_state(&mut self, state: State) -> (id: StateId)
        ensures
            id == old(self)@.states.len(),
            id < UNPATCHED,
            final(self)@.states =~= old(self)@.states.push(state@),
            final(self)@.start == old(self)@.start,
            final(self)@.accepting == old(self)@.accepting,
    {
        let ghost sv = state@;
        let id = self.states.len();
        self.states.push(state);
        let len_after = self.states.len();
        proof {
            assert(id < len_after);
            assert(self.states@.map_values(|s: State| s@) =~= old(self).states@.map_values(
                |s: State| s@,
            ).push(sv));
        }
        id
    }

    /// Create an epsilon state pointing at `next`.
    pub fn epsilon(&mut self, next: StateId) -> (id: StateId)
        ensures
            id == old(self)@.states.len(),
            id < UNPATCHED,
            final(self)@.states =~= old(self)@.states.push(StateV::Epsilon(next)),
            final(self)@.start == old(self)@.start,
            final(self)@.accepting == old(self)@.accepting,
    {
        self.add_state(State::Epsilon { next })
    }

    /// Create a split state with the given ordered targets.
    pub fn split(&mut self, targets: Vec<StateId>) -> (id: StateId)
        ensures
            id == old(self)@.states.len(),
            id < UNPATCHED,
            final(self)@.states =~= old(self)@.states.push(StateV::Split(targets@)),
            final(self)@.start == old(self)@.start,
            final(self)@.accepting == old(self)@.accepting,
    {
        self.add_state(State::Split { targets })
    }

    /// Create a transitions state holding a single transition.
    pub fn transition_state(&mut self, transition: TwoCharTransition) -> (id: StateId)
        ensures
            id == old(self)@.states.len(),
            id < UNPATCHED,
            final(self)@.states =~= old(self)@.states.push(
                StateV::Transitions(seq![transition@]),
            ),
            final(self)@.start == old(self)@.start,
            final(self)@.accepting == old(self)@.accepting,
    {
        let ghost tv = transition@;
        let mut transitions: Vec<TwoCharTransition> = Vec::new();
        transitions.push(transition);
        proof {
            assert(transitions@.map_values(|t: TwoCharTransition| t@) =~= seq![tv]);
        }
        self.add_state(State::Transitions { transitions })
    }

    /// Create a transitions state holding the given transitions.
    pub fn transitions_state(&mut self, transitions: Vec<TwoCharTransition>) -> (id: StateId)
        ensures
            id == old(self)@.states.len(),
            id < UNPATCHED,
            final(self)@.states =~= old(self)@.states.push(
                StateV::Transitions(transitions@.map_values(|t: TwoCharTransition| t@)),
            ),
            final(self)@.start == old(self)@.start,
            final(self)@.accepting == old(self)@.accepting,
    {
        self.add_state(State::Transitions { transitions })
    }

    /// Create a match state; it is also recorded as accepting.
    pub fn match_state(&mut self) -> (id: StateId)
        ensures
            id == old(self)@.states.len(),
            id < UNPATCHED,
            final(self)@.states =~= old(self)@.states.push(StateV::Match),
            final(self)@.start == old(self)@.start,
            final(self)@.accepting =~= old(self)@.accepting.push(id),
    {
        let id = self.add_state(State::Match);
        self.accepting.push(id);
        id
    }

    /// Create a rejected state: a non-accepting terminal sink.
    pub fn rejected_state(&mut self) -> (id: StateId)
        ensures
            id == old(self)@.states.len(),
            id < UNPATCHED,
            final(self)@.states =~= old(self)@.states.push(StateV::Rejected),
            final(self)@.start == old(self)@.start,
            final(self)@.accepting == old(self)@.accepting,
    {
        self.add_state(State::Rejected)
    }

    /// Connect state `from` to state `to`: point a pending epsilon at `to`,
    /// append `to` to a split's targets, rewrite every sentinel target of a
    /// transitions node to `to`, and leave terminal states alone.
    pub fn connect(&mut self, from: StateId, to: StateId)
        ensures
            final(self)@.states.len() == old(self)@.states.len(),
            final(self)@.start == old(self)@.start,
            final(self)@.accepting == old(self)@.accepting,
            forall|i: int|
                0 <= i < final(self)@.states.len() && i != from ==> final(self)@.states[i] == old(
                    self,
                )@.states[i],
            from < old(self)@.states.len() ==> connect_effect(
                old(self)@.states[from as int],
                final(self)@.states[from as int],
                to,
            ),
    {
        let n = self.states.len();
        if from >= n {
            return ;
        }
        let ghost pre = old(self)@.states;
        match &self.states[from] {
            State::Epsilon { .. } => {
                self.states.set(from, State::Epsilon { next: to });
            },
            State::Split { targets } => {
                let mut t2 = clone_targets(targets);
                t2.push(to);
                self.states.set(from, State::Split { targets: t2 });
            },
            State::Transitions { .. } => {
                let mut st = self.states.remove(from);
                match &mut st {
                    State::Transitions { transitions } => {
                        patch_transitions(transitions, to);
                    },
                    _ => {},
                }
                self.states.insert(from, st);
            },
            State::Match => {},
            State::Rejected => {},
        }
        proof {
            assert forall|i: int| 0 <= i < self@.states.len() && i != from implies self@.states[i]
                == pre[i] by {
                assert(self.states@[i] == old(self).states@[i]);
            }
            assert(connect_effect(pre[from as int], self@.states[from as int], to));
        }
    }
}

impl NfaV {
    /// The non-consuming successors of state `s`: the targets of an epsilon
    /// or split state. Other states, and out-of-range identifiers,
    /// contribute none.
    pub open spec fn eps_targets(self, s: StateId) -> Seq<StateId> {
        if s < self.states.len() {
            match self.states[s as int] {
                StateV::Epsilon(next) => seq![next],
                StateV::Split(targets) => targets,
                _ => Seq::empty(),
            }
        } else {
            Seq::empty()
        }
    }

    /// `c` is closed under non-consuming edges.
    pub open spec fn eps_closed(self, c: Set<StateId>) -> bool {
        forall|s: StateId, j: int|
            #![trigger c.contains(s), self.eps_targets(s)[j]]
            c.contains(s) && 0 <= j < self.eps_targets(s).len() ==> c.contains(
                self.eps_targets(s)[j],
            )
    }

    /// `x` belongs to every closed superset of `from`; that is, `x` lies in
    /// the epsilon closure of `from`.
    pub open spec fn in_closure(self, from: Set<StateId>, x: StateId) -> bool {
        forall|c: Set<StateId>| from.subset_of(c) && self.eps_closed(c) ==> #[trigger] c.contains(x)
    }

    /// The epsilon closure of `from`: the least set that contains `from`
    /// and is closed under non-consuming edges.
    pub open spec fn closure_of(self, from: Set<StateId>) -> Set<StateId> {
        Set::new(|x: StateId| self.in_closure(from, x))
    }

    /// Whether the set `c` holds an accepting state.
    pub open spec fn any_accepting(self, c: Set<StateId>) -> bool {
        exists|s: StateId| c.contains(s) && self.accepting.contains(s)
    }

    /// Every transition of every in-range `Transitions` state in `c`.
    pub open spec fn trans_of_set(self, c: Set<StateId>) -> Set<TransV> {
        Set::new(
            |tv: TransV|
                exists|s: StateId|
                    #![trigger c.contains(s)]
                    c.contains(s) && s < self.states.len() && (self.states[s as int] matches
                    StateV::Transitions(ts) && ts.contains(tv)),
        )
    }
}


/// Collects the targets of state `s`, in order; empty when `s` is out of
/// range.
pub(crate) fn out_targets_of(nfa: &NFA, s: StateId) -> (out: Vec<StateId>)
    ensures
        s < nfa@.states.len() ==> out@ == nfa@.states[s as int].out_targets(),
        s >= nfa@.states.len() ==> out@ =~= Seq::<StateId>::empty(),
{
    let mut out: Vec<StateId> = Vec::new();
    if s >= nfa.states.len() {
        return out;
    }
    proof {
        assert(nfa.states@[s as int]@ == nfa@.states[s as int]);
    }
    match &nfa.states[s] {
        State::Transitions { transitions } => {
            let mut j: usize = 0;
            while j < transitions.len()
                invariant
                    0 <= j <= transitions@.len(),
                    out@.len() == j,
                    forall|m: int|
                        0 <= m < j ==> out@[m] == (#[trigger] transitions@[m])@.target,
                decreases transitions@.len() - j,
            {
                out.push(transitions[j].target);
                j += 1;
            }
            proof {
                assert(out@ =~= transitions@.map_values(|t: TwoCharTransition| t@).map_values(
                    |t: TransV| t.target,
                ));
            }
        },
        State::Epsilon { next } => {
            out.push(*next);
            proof {
                assert(out@ =~= seq![*next]);
            }
        },
        State::Split { targets } => {
            let mut j: usize = 0;
            while j < targets.len()
                invariant
                    0 <= j <= targets@.len(),
                    out@ == targets@.subrange(0, j as int),
                decreases targets@.len() - j,
            {
                out.push(targets[j]);
                j += 1;
                proof {
                    assert(out@ =~= targets@.subrange(0, j as int));
                }
            }
            proof {
                assert(out@ =~= targets@);
            }
        },
        State::Match => {
            proof {
                assert(out@ =~= Seq::<StateId>::empty());
            }
        },
        State::Rejected => {
            proof {
                assert(out@ =~= Seq::<StateId>::empty());
            }
        },
    }
    out
}

/// A path stays inside any edge-closed set of states that holds its head:
/// marking reachability by a boolean per state, a closed marking that
/// holds the start holds every reachable in-range state.
pub proof fn lemma_path_in_marking(nfa: NfaV, vset: Seq<bool>, p: Seq<StateId>)
    requires
        vset.len() == nfa.states.len(),
        nfa.is_path(p),
        p.last() < nfa.states.len(),
        p.first() < nfa.states.len() ==> vset[p.first() as int],
        forall|i: int, j: int|
            #![trigger vset[i], nfa.states[i].out_targets()[j]]
            0 <= i < nfa.states.len() && vset[i] && 0 <= j < nfa.states[i].out_targets().len()
                && nfa.states[i].out_targets()[j] < nfa.states.len()
                ==> vset[nfa.states[i].out_targets()[j] as int],
    ensures
        vset[p.last() as int],
    decreases p.len(),
{
    if p.len() == 1 {
        assert(p.first() == p.last());
    } else {
        assert(nfa.edge(p[0], p[1]));
        let j = choose|j: int|
            0 <= j < nfa.states[p[0] as int].out_targets().len() && nfa.states[
                p[0] as int].out_targets()[j] == p[1];
        assert(vset[p[0] as int]);
        assert(vset[p[1] as int]);
        let q = p.drop_first();
        assert(nfa.is_path(q)) by {
            assert forall|i: int| 0 <= i < q.len() - 1 implies nfa.edge(
                #[trigger] q[i],
                q[i + 1],
            ) by {
                assert(q[i] == p[i + 1] && q[i + 1] == p[i + 2]);
                assert(nfa.edge(p[i + 1], p[i + 2]));
            }
        }
        assert(q.first() == p[1] && q.last() == p.last());
        lemma_path_in_marking(nfa, vset, q);
    }
}

/// The number of `false` entries in `s`.
pub open spec fn num_false(s: Seq<bool>) -> nat
    decreases s.len(),
{
    if s.len() == 0 {
        0
    } else {
        (if s.last() {
            0nat
        } else {
            1nat
        }) + num_false(s.drop_last())
    }
}

/// Marking a `false` entry `true` lowers the count of `false` entries.
pub(crate) proof fn lemma_num_false_update(s: Seq<bool>, i: int)
    requires
        0 <= i < s.len(),
        !s[i],
    ensures
        num_false(s.update(i, true)) < num_false(s),
    decreases s.len(),
{
    if i == s.len() - 1 {
        assert(s.update(i, true).drop_last() =~= s.drop_last());
        assert(s.update(i, true).last());
    } else {
        assert(s.update(i, true).drop_last() =~= s.drop_last().update(i, true));
        lemma_num_false_update(s.drop_last(), i);
        assert(s.update(i, true).last() == s.last());
    }
}

/// Whether `v` holds `x`.
fn vec_contains(v: &Vec<StateId>, x: StateId) -> (r: bool)
    ensures
        r == v@.contains(x),
{
    let mut i: usize = 0;
    while i < v.len()
        invariant
            0 <= i <= v@.len(),
            forall|j: int| 0 <= j < i ==> v@[j] != x,
        decreases v@.len() - i,
    {
        if v[i] == x {
            return true;
        }
        i += 1;
    }
    false
}

impl NFA {
    /// Get the epsilon closure of a set of states: the least set that
    /// contains the given states and is closed under `Epsilon` and `Split`
    /// edges. Out-of-range identifiers are carried along but not traversed.
    pub fn epsilon_closure(&self, states: &Vec<StateId>) -> (closure: Vec<StateId>)
        ensures
            closure@.to_set() == self@.closure_of(states@.to_set()),
    {
        let ghost from = states@.to_set();
        let n = self.states.len();
        proof {
            assert(self@.states.len() == n);
        }
        let mut visited: Vec<bool> = Vec::new();
        let mut k: usize = 0;
        while k < n
            invariant
                0 <= k <= n,
                visited@.len() == k,
                forall|j: int| 0 <= j < k ==> !visited@[j],
            decreases n - k,
        {
            visited.push(false);
            k += 1;
        }
        let mut closure: Vec<StateId> = Vec::new();
        let mut stack: Vec<StateId> = Vec::new();
        let mut m: usize = 0;
        while m < states.len()
            invariant
                0 <= m <= states@.len(),
                closure@ == states@.subrange(0, m as int),
                stack@ == states@.subrange(0, m as int),
            decreases states@.len() - m,
        {
            closure.push(states[m]);
            stack.push(states[m]);
            m += 1;
            proof {
                assert(closure@ =~= states@.subrange(0, m as int));
                assert(stack@ =~= states@.subrange(0, m as int));
            }
        }
        proof {
            assert(closure@ =~= states@);
            assert forall|x: StateId| closure@.to_set().contains(x) implies self@.in_closure(
                from,
                x,
            ) by {
                assert forall|c: Set<StateId>|
                    from.subset_of(c) && self@.eps_closed(c) implies c.contains(x) by {
                    assert(from.contains(x));
                }
            }
        }
        while stack.len() > 0
            invariant
                n == self@.states.len(),
                visited@.len() == n,
                forall|x: StateId| from.contains(x) ==> closure@.to_set().contains(x),
                forall|x: StateId|
                    closure@.to_set().contains(x) ==> self@.in_closure(from, x),
                forall|j: int| 0 <= j < stack@.len() ==> closure@.contains(#[trigger] stack@[j]),
                forall|s: StateId|
                    s < n && visited@[s as int] ==> closure@.contains(s) && (forall|j: int|
                        0 <= j < self@.eps_targets(s).len() ==> closure@.contains(
                            #[trigger] self@.eps_targets(s)[j],
                        )),
                forall|x: StateId|
                    closure@.contains(x) && x < n && !visited@[x as int] ==> stack@.contains(x),
            decreases num_false(visited@), stack@.len(),
        {
            let ghost stack_pre = stack@;
            let s = stack.pop().unwrap();
            proof {
                assert(stack_pre[stack_pre.len() - 1] == s);
                assert(closure@.contains(s));
            }
            if s < n {
                if !visited[s] {
                    let ghost visited_pre = visited@;
                    visited.set(s, true);
                    proof {
                        lemma_num_false_update(visited_pre, s as int);
                    }
                    match &self.states[s] {
                        State::Epsilon { next } => {
                            let t = *next;
                            proof {
                                assert(self.states@[s as int]@ == self@.states[s as int]);
                                assert(self@.eps_targets(s) =~= seq![t]);
                            }
                            if !vec_contains(&closure, t) {
                                proof {
                                    lemma_closure_step(self@, from, closure@.to_set(), s, 0, t);
                                }
                                closure.push(t);
                                stack.push(t);
                            }
                        },
                        State::Split { targets } => {
                            proof {
                                assert(self.states@[s as int]@ == self@.states[s as int]);
                                assert(self@.eps_targets(s) =~= targets@);
                            }
                            let mut j: usize = 0;
                            while j < targets.len()
                                invariant
                                    0 <= j <= targets@.len(),
                                    n == self@.states.len(),
                                    visited@.len() == n,
                                    s < n,
                                    visited@[s as int],
                                    self@.eps_targets(s) == targets@,
                                    closure@.contains(s),
                                    forall|x: StateId|
                                        from.contains(x) ==> closure@.to_set().contains(x),
                                    forall|x: StateId|
                                        closure@.to_set().contains(x) ==> self@.in_closure(
                                            from,
                                            x,
                                        ),
                                    forall|jj: int|
                                        0 <= jj < stack@.len() ==> closure@.contains(
                                            #[trigger] stack@[jj],
                                        ),
                                    forall|ss: StateId|
                                        ss < n && visited@[ss as int] && ss != s
                                            ==> closure@.contains(ss) && (forall|jj: int|
                                            0 <= jj < self@.eps_targets(ss).len()
                                                ==> closure@.contains(
                                                #[trigger] self@.eps_targets(ss)[jj],
                                            )),
                                    forall|jj: int|
                                        0 <= jj < j ==> closure@.contains(
                                            #[trigger] targets@[jj],
                                        ),
                                    forall|x: StateId|
                                        closure@.contains(x) && x < n && !visited@[x as int]
                                            ==> stack@.contains(x),
                                decreases targets@.len() - j,
                            {
                                let t = targets[j];
                                if !vec_contains(&closure, t) {
                                    proof {
                                        lemma_closure_step(
                                            self@,
                                            from,
                                            closure@.to_set(),
                                            s,
                                            j as int,
                                            t,
                                        );
                                    }
                                    closure.push(t);
                                    stack.push(t);
                                }
                                j += 1;
                            }
                        },
                        _ => {
                            proof {
                                assert(self.states@[s as int]@ == self@.states[s as int]);
                                assert(self@.eps_targets(s) =~= Seq::<StateId>::empty());
                            }
                        },
                    }
                }
            }
        }
        proof {
            let cset = closure@.to_set();
            assert forall|s: StateId, j: int|
                #![trigger cset.contains(s), self@.eps_targets(s)[j]]
                cset.contains(s) && 0 <= j < self@.eps_targets(s).len() implies cset.contains(
                self@.eps_targets(s)[j],
            ) by {
                assert(closure@.contains(s));
                if s < n {
                    assert(visited@[s as int]);
                    assert(closure@.contains(self@.eps_targets(s)[j]));
                }
            }
            assert(self@.eps_closed(cset));
            assert forall|x: StateId| self@.in_closure(from, x) implies cset.contains(x) by {
                assert(from.subset_of(cset));
            }
            assert(closure@.to_set() =~= self@.closure_of(from));
        }
        closure
    }

    /// Check whether any state in the set is accepting.
    pub fn is_accepting(&self, states: &Vec<StateId>) -> (r: bool)
        ensures
            r == self@.any_accepting(states@.to_set()),
    {
        let mut i: usize = 0;
        while i < states.len()
            invariant
                0 <= i <= states@.len(),
                forall|j: int| 0 <= j < i ==> !self@.accepting.contains(#[trigger] states@[j]),
            decreases states@.len() - i,
        {
            if vec_contains(&self.accepting, states[i]) {
                proof {
                    assert(states@.to_set().contains(states@[i as int]));
                }
                return true;
            }
            i += 1;
        }
        proof {
            assert forall|s: StateId| states@.to_set().contains(s) implies !self@.accepting.contains(
                s,
            ) by {
                let j = choose|j: int| 0 <= j < states@.len() && states@[j] == s;
                assert(!self@.accepting.contains(states@[j]));
            }
        }
        false
    }

    /// Collect every transition of every `Transitions` state in the set.
    pub fn get_two_char_transitions(&self, states: &Vec<StateId>) -> (out: Vec<TwoCharTransition>)
        ensures
            out@.map_values(|t: TwoCharTransition| t@) == trans_concat(self@, states@),
            out@.map_values(|t: TwoCharTransition| t@).to_set() == self@.trans_of_set(
                states@.to_set(),
            ),
    {
        let ghost cset = states@.to_set();
        let n = self.states.len();
        proof {
            assert(self@.states.len() == n);
        }
        let mut out: Vec<TwoCharTransition> = Vec::new();
        let mut i: usize = 0;
        while i < states.len()
            invariant
                0 <= i <= states@.len(),
                n == self@.states.len(),
                cset == states@.to_set(),
                out@.map_values(|t: TwoCharTransition| t@) == trans_concat(
                    self@,
                    states@.subrange(0, i as int),
                ),
                forall|tv: TransV|
                    out@.map_values(|t: TwoCharTransition| t@).contains(tv)
                        ==> self@.trans_of_set(cset).contains(tv),
                forall|k: int, j: int|
                    #![trigger trans_seq_of(self@, states@[k])[j]]
                    0 <= k < i && 0 <= j < trans_seq_of(self@, states@[k]).len()
                        ==> out@.map_values(|t: TwoCharTransition| t@).contains(
                        trans_seq_of(self@, states@[k])[j],
                    ),
            decreases states@.len() - i,
        {
            let s = states[i];
            proof {
                assert(cset.contains(states@[i as int]));
            }
            if s < n {
                match &self.states[s] {
                    State::Transitions { transitions } => {
                        proof {
                            assert(self.states@[s as int]@ == self@.states[s as int]);
                        }
                        let mut j: usize = 0;
                        while j < transitions.len()
                            invariant
                                0 <= j <= transitions@.len(),
                                n == self@.states.len(),
                                s < n,
                                cset.contains(s),
                                self@.states[s as int] == StateV::Transitions(
                                    transitions@.map_values(|t: TwoCharTransition| t@),
                                ),
                                trans_seq_of(self@, s) == transitions@.map_values(
                                    |t: TwoCharTransition| t@,
                                ),
                                s == states@[i as int],
                                out@.map_values(|t: TwoCharTransition| t@) == trans_concat(
                                    self@,
                                    states@.subrange(0, i as int),
                                ) + trans_seq_of(self@, s).subrange(0, j as int),
                                forall|tv: TransV|
                                    out@.map_values(|t: TwoCharTransition| t@).contains(tv)
                                        ==> self@.trans_of_set(cset).contains(tv),
                                forall|k: int, jj: int|
                                    #![trigger trans_seq_of(self@, states@[k])[jj]]
                                    0 <= k < i && 0 <= jj < trans_seq_of(self@, states@[k]).len()
                                        ==> out@.map_values(|t: TwoCharTransition| t@).contains(
                                        trans_seq_of(self@, states@[k])[jj],
                                    ),
                                forall|jj: int|
                                    0 <= jj < j ==> out@.map_values(
                                        |t: TwoCharTransition| t@,
                                    ).contains(#[trigger] trans_seq_of(self@, s)[jj]),
                            decreases transitions@.len() - j,
                        {
                            let ghost out_pre = out@.map_values(|t: TwoCharTransition| t@);
                            let tr = transitions[j].clone();
                            proof {
                                assert(tr@ == transitions@.map_values(
                                    |t: TwoCharTransition| t@,
                                )[j as int]);
                            }
                            out.push(tr);
                            proof {
                                assert(out@.map_values(|t: TwoCharTransition| t@) =~= out_pre.push(
                                    tr@,
                                ));
                                assert(self@.trans_of_set(cset).contains(tr@));
                                assert(out_pre.push(tr@) =~= trans_concat(
                                    self@,
                                    states@.subrange(0, i as int),
                                ) + trans_seq_of(self@, s).subrange(0, j as int + 1));
                            }
                            j += 1;
                        }
                    },
                    _ => {
                        proof {
                            assert(self.states@[s as int]@ == self@.states[s as int]);
                        }
                    },
                }
            }
            proof {
                let sub1 = states@.subrange(0, i as int + 1);
                assert(sub1.drop_last() =~= states@.subrange(0, i as int));
                assert(sub1.last() == states@[i as int]);
                if s < n {
                    match self@.states[s as int] {
                        StateV::Transitions(ts) => {
                            assert(trans_seq_of(self@, s).subrange(
                                0,
                                trans_seq_of(self@, s).len() as int,
                            ) =~= trans_seq_of(self@, s));
                        },
                        _ => {
                            assert(trans_seq_of(self@, s) =~= Seq::<TransV>::empty());
                            assert(out@.map_values(|t: TwoCharTransition| t@) =~= trans_concat(
                                self@,
                                states@.subrange(0, i as int),
                            ) + trans_seq_of(self@, s));
                        },
                    }
                } else {
                    assert(trans_seq_of(self@, s) =~= Seq::<TransV>::empty());
                    assert(out@.map_values(|t: TwoCharTransition| t@) =~= trans_concat(
                        self@,
                        states@.subrange(0, i as int),
                    ) + trans_seq_of(self@, s));
                }
                assert(out@.map_values(|t: TwoCharTransition| t@) =~= trans_concat(self@, sub1));
            }
            i += 1;
        }
        proof {
            assert(states@.subrange(0, states@.len() as int) =~= states@);
            let outv = out@.map_values(|t: TwoCharTransition| t@);
            assert forall|tv: TransV| self@.trans_of_set(cset).contains(tv) implies outv.contains(
                tv,
            ) by {
                let s = choose|s: StateId|
                    cset.contains(s) && s < self@.states.len() && (self@.states[s as int] matches
                    StateV::Transitions(ts) && ts.contains(tv));
                let k = choose|k: int| 0 <= k < states@.len() && states@[k] == s;
                let ts = trans_seq_of(self@, s);
                let j = choose|j: int| 0 <= j < ts.len() && ts[j] == tv;
                assert(trans_seq_of(self@, states@[k])[j] == tv);
            }
            assert(outv.to_set() =~= self@.trans_of_set(cset));
        }
        out
    }
}

/// The transitions of state `s`, or the empty sequence for any other state.
pub open spec fn trans_seq_of(nfa: NfaV, s: StateId) -> Seq<TransV> {
    if s < nfa.states.len() {
        match nfa.states[s as int] {
            StateV::Transitions(ts) => ts,
            _ => Seq::empty(),
        }
    } else {
        Seq::empty()
    }
}

/// The transitions of the listed states, concatenated in listing order
/// (out-of-range identifiers and non-transition states contribute none).
pub open spec fn trans_concat(nfa: NfaV, ids: Seq<StateId>) -> Seq<TransV>
    decreases ids.len(),
{
    if ids.len() == 0 {
        Seq::empty()
    } else {
        trans_concat(nfa, ids.drop_last()) + trans_seq_of(nfa, ids.last())
    }
}

/// A freshly discovered non-consuming successor is still in the closure:
/// it belongs to every closed superset of `from`, because the state it was
/// reached from does.
proof fn lemma_closure_step(
    nfa: NfaV,
    from: Set<StateId>,
    have: Set<StateId>,
    s: StateId,
    j: int,
    t: StateId,
)
    requires
        have.contains(s),
        forall|x: StateId| have.contains(x) ==> nfa.in_closure(from, x),
        0 <= j < nfa.eps_targets(s).len(),
        nfa.eps_targets(s)[j] == t,
    ensures
        nfa.in_closure(from, t),
{
    assert forall|c: Set<StateId>| from.subset_of(c) && nfa.eps_closed(c) implies c.contains(
        t,
    ) by {
        assert(nfa.in_closure(from, s));
        assert(c.contains(s));
        assert(c.contains(nfa.eps_targets(s)[j]));
    }
}

impl Default for NFA {
    /// An empty NFA, as `NFA::new` gives.
    fn default() -> (nfa: NFA)
        ensures
            nfa@.states =~= Seq::<StateV>::empty(),
            nfa@.start == 0,
            nfa@.accepting =~= Seq::<StateId>::empty(),
    {
        NFA::new()
    }
}

/// Copies a vector of state identifiers element by element.
fn clone_targets(ts: &Vec<StateId>) -> (out: Vec<StateId>)
    ensures
        out@ == ts@,
{
    let mut out: Vec<StateId> = Vec::new();
    let mut i: usize = 0;
    while i < ts.len()
        invariant
            0 <= i <= ts@.len(),
            out@ == ts@.subrange(0, i as int),
        decreases ts@.len() - i,
    {
        out.push(ts[i]);
        i += 1;
        proof {
            assert(out@ =~= ts@.subrange(0, i as int));
        }
    }
    proof {
        assert(out@ =~= ts@);
    }
    out
}

/// Rewrites every sentinel target in `transitions` to `to`, in place.
fn patch_transitions(transitions: &mut Vec<TwoCharTransition>, to: StateId)
    ensures
        final(transitions)@.map_values(|t: TwoCharTransition| t@) =~= old(transitions)@.map_values(
            |t: TwoCharTransition| t@,
        ).map_values(|t: TransV| patch_transition(t, to)),
{
    let ghost orig = transitions@.map_values(|t: TwoCharTransition| t@);
    let n = transitions.len();
    let mut i: usize = 0;
    while i < n
        invariant
            0 <= i <= n,
            n == orig.len(),
            transitions@.len() == orig.len(),
            forall|j: int|
                0 <= j < i ==> (#[trigger] transitions@[j])@ == patch_transition(orig[j], to),
            forall|j: int| i <= j < orig.len() ==> (#[trigger] transitions@[j])@ == orig[j],
        decreases n - i,
    {
        if transitions[i].target == UNPATCHED {
            let mut t = transitions.remove(i);
            t.target = to;
            transitions.insert(i, t);
        }
        i += 1;
    }
    proof {
        assert(transitions@.map_values(|t: TwoCharTransition| t@) =~= orig.map_values(
            |t: TransV| patch_transition(t, to),
        ));
    }
}

} // verus!
