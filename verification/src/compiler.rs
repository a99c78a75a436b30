//! The compiler: recursive lowering of a regex tree into an NFA fragment,
//! using Thompson construction extended with two-character transitions,
//! an explicit rejection state for sampled negated classes, and structural
//! encodings of possessive quantification.
//!
//! The contract of [`Compiler::compile`] pins down, for every input tree,
//! whether compilation succeeds (see [`hir_outcome`]) and, on success, the
//! structural invariants of the returned graph: no sentinel target
//! survives, the accepting set holds exactly the one `Match` state, and
//! that state is reachable from the start state.

use vstd::prelude::*;

use crate::err_kind;
use crate::matcher::la_of;
use crate::hir::hir_is_anchor;
use crate::hir::hir_is_possessive;
use crate::hir::ByteRange;
use crate::hir::ClassKind;
use crate::hir::Hir;
use crate::hir::LookKind;
use crate::hir::RepKind;
use crate::hir::Repetition;
use crate::nfa::connect_effect;
use crate::nfa::dangling_state;
use crate::nfa::edges_preserved;
use crate::nfa::lemma_edges_preserved_connect;
use crate::nfa::lemma_edges_preserved_same_targets;
use crate::nfa::state_targets_valid;
use crate::nfa::lemma_edges_preserved_extend;
use crate::nfa::lemma_reaches_preserved;
use crate::nfa::state_in_region;
use crate::nfa::state_patched;
use crate::nfa::CharRange;
use crate::nfa::CharacterPredicate;
use crate::nfa::Fragment;
use crate::nfa::NfaV;
use crate::nfa::PredV;
use crate::nfa::State;
use crate::nfa::StateId;
use crate::nfa::StateV;
use crate::nfa::TransV;
use crate::nfa::TwoCharTransition;
use crate::nfa::NFA;
use crate::nfa::UNPATCHED;
use crate::CompileError;
use crate::CompileResult;
use crate::ErrKind;

verus! {

broadcast use {vstd::group_vstd_default, crate::seq_facts::group_seq_facts};

// ---------------------------------------------------------------------
// The outcome specification: which trees compile, and which error kind
// the others produce.
// ---------------------------------------------------------------------
/// The number of code points a range spans; an inverted range spans none.
pub open spec fn range_width(r: CharRange) -> int {
    if r.lo as u32 <= r.hi as u32 {
        r.hi as u32 - r.lo as u32 + 1
    } else {
        0
    }
}

/// The total cardinality of the ranges from index `i` on.
pub open spec fn class_total_from(rs: Seq<CharRange>, i: int) -> int
    decreases rs.len() - i,
{
    if i < 0 || i >= rs.len() {
        0
    } else {
        range_width(rs[i]) + class_total_from(rs, i + 1)
    }
}

/// The total cardinality of a Unicode class's ranges.
pub open spec fn class_total(rs: Seq<CharRange>) -> int {
    class_total_from(rs, 0)
}

proof fn lemma_class_total_from_nonneg(rs: Seq<CharRange>, i: int)
    ensures
        class_total_from(rs, i) >= 0,
    decreases rs.len() - i,
{
    if 0 <= i < rs.len() {
        lemma_class_total_from_nonneg(rs, i + 1);
    }
}

/// Whether lowering a Unicode class yields at least one transition: the
/// class is above the negation threshold (the terminal any-symbol
/// transition is always emitted there), or some range is non-inverted.
pub open spec fn unicode_nonempty(rs: Seq<CharRange>) -> bool {
    class_total(rs) > 50000 || exists|i: int|
        0 <= i < rs.len() && (#[trigger] rs[i]).lo as u32 <= rs[i].hi as u32
}

/// Whether lowering a byte class yields at least one transition.
pub open spec fn bytes_nonempty(rs: Seq<ByteRange>) -> bool {
    exists|i: int| 0 <= i < rs.len() && (#[trigger] rs[i]).lo <= rs[i].hi
}

/// Whether lowering the class yields at least one transition.
pub open spec fn class_nonempty(k: ClassKind) -> bool {
    match k {
        ClassKind::Unicode(rs) => unicode_nonempty(rs@),
        ClassKind::Bytes(rs) => bytes_nonempty(rs@),
    }
}

/// One transition of a small-class lowering: no lookahead, a pending
/// target, and either a single symbol that lies in the class's ranges, or
/// one range of the class wider than 1000 code points as a set predicate.
pub open spec fn unicode_trans_ok(t: TransV, rs: Seq<CharRange>) -> bool {
    &&& t.lookahead is None
    &&& t.target == UNPATCHED
    &&& match t.current {
        PredV::Char(c) => crate::nfa::char_in_ranges(rs, c),
        PredV::CharSet(one) => one.len() == 1 && exists|i: int|
            0 <= i < rs.len() && (#[trigger] rs[i]).lo as u32 == one[0].lo as u32 && rs[i].hi
                as u32 == one[0].hi as u32 && rs[i].hi as u32 - rs[i].lo as u32 > 999,
        _ => false,
    }
}

/// Whether symbol `c`'s code point lies inside one of the byte ranges.
pub open spec fn byte_in_ranges(brs: Seq<ByteRange>, c: char) -> bool {
    exists|i: int|
        0 <= i < brs.len() && (#[trigger] brs[i]).lo as u32 <= c as u32 && c as u32 <= brs[i].hi
            as u32
}

/// One transition of a byte-class lowering: no lookahead, a pending
/// target, and a single symbol whose code point lies in the ranges.
pub open spec fn bytes_trans_ok(t: TransV, brs: Seq<ByteRange>) -> bool {
    &&& t.lookahead is None
    &&& t.target == UNPATCHED
    &&& (t.current matches PredV::Char(c) && byte_in_ranges(brs, c))
}

/// Every symbol of `out` lies in the ranges `rs`.
pub open spec fn chars_in_class(rs: Seq<CharRange>, out: Seq<char>) -> bool {
    forall|m: int| 0 <= m < out.len() ==> crate::nfa::char_in_ranges(rs, #[trigger] out[m])
}

/// Every symbol of `out` has its code point in the byte ranges `brs`.
pub open spec fn chars_in_byte_class(brs: Seq<ByteRange>, out: Seq<char>) -> bool {
    forall|m: int| 0 <= m < out.len() ==> byte_in_ranges(brs, #[trigger] out[m])
}

/// Extraction misses nothing: every symbol of the class is in the
/// result (a literal is covered by exactness).
pub open spec fn extract_complete(h: Hir, out: Seq<char>) -> bool {
    match h {
        Hir::Literal(_) => true,
        Hir::Class(k) => match k {
            ClassKind::Unicode(rs) => forall|c: char|
                #[trigger] crate::nfa::char_in_ranges(rs@, c) ==> out.contains(c),
            ClassKind::Bytes(brs) => forall|c: char|
                #[trigger] byte_in_ranges(brs@, c) ==> out.contains(c),
        },
        _ => false,
    }
}

/// What extraction returns: a literal's symbols exactly; for a class,
/// symbols drawn from its ranges.
pub open spec fn extract_sound(h: Hir, out: Seq<char>) -> bool {
    match h {
        Hir::Literal(l) => out == l@,
        Hir::Class(k) => match k {
            ClassKind::Unicode(rs) => chars_in_class(rs@, out),
            ClassKind::Bytes(brs) => chars_in_byte_class(brs@, out),
        },
        _ => false,
    }
}

/// The lowered shape of a class above the negation threshold: up to 200
/// single-symbol rejection transitions into the rejected state, then one
/// terminal any-symbol transition with a pending target.
pub open spec fn negated_shape(ts: Seq<TransV>, rejected: int) -> bool {
    &&& 1 <= ts.len() <= 201
    &&& ts[ts.len() - 1].current is Any
    &&& ts[ts.len() - 1].lookahead is None
    &&& ts[ts.len() - 1].target == UNPATCHED
    &&& forall|j: int|
        0 <= j < ts.len() - 1 ==> ((#[trigger] ts[j]).current is Char && ts[j].lookahead is None
            && ts[j].target == rejected)
}

/// Every non-inverted range wider than 1000 code points is carried by
/// some transition as a single-range set predicate.
pub open spec fn wide_ranges_covered(ts: Seq<TransV>, rs: Seq<CharRange>) -> bool {
    forall|i: int|
        0 <= i < rs.len() && (#[trigger] rs[i]).lo as u32 <= rs[i].hi as u32 && rs[i].hi as u32
            - rs[i].lo as u32 > 999 ==> exists|j: int|
            0 <= j < ts.len() && ((#[trigger] ts[j]).current matches PredV::CharSet(one)
                && one.len() == 1 && one[0].lo as u32 == rs[i].lo as u32 && one[0].hi as u32
                == rs[i].hi as u32)
}

/// The ranges are sorted and pairwise separated, as the canonical class
/// representation of an upstream parser has them.
pub open spec fn ranges_separated(rs: Seq<CharRange>) -> bool {
    &&& forall|a: int| 0 <= a < rs.len() ==> ((#[trigger] rs[a]).lo as u32) <= (rs[a].hi as u32)
    &&& forall|a: int, b: int|
        #![trigger rs[a], rs[b]]
        0 <= a < b < rs.len() ==> (rs[a].hi as u32) < (rs[b].lo as u32)
}

/// The rejection symbols lie outside the class: every single-symbol
/// rejection transition consumes a symbol in a gap of the ranges.
pub open spec fn negated_gaps_ok(ts: Seq<TransV>, rs: Seq<CharRange>) -> bool {
    forall|j: int|
        0 <= j < ts.len() - 1 ==> ((#[trigger] ts[j]).current matches PredV::Char(c)
            ==> !crate::nfa::char_in_ranges(rs, c))
}

/// The lowered state of a character class: below the negation threshold,
/// every transition is sound for the class and every wide range appears
/// as a set predicate; above it, the sampled-rejection shape stands, with
/// the rejected state freshly appended before the class state.
pub open spec fn class_state_ok(pre: NfaV, post: NfaV, f: Fragment, k: ClassKind) -> bool {
    post.states[f.start as int] matches StateV::Transitions(ts) && match k {
        ClassKind::Unicode(rs) => if class_total(rs@) > 50000 {
            negated_shape(ts, pre.states.len() as int) && post.states[pre.states.len() as int]
                == StateV::Rejected && (ranges_separated(rs@) ==> negated_gaps_ok(ts, rs@))
        } else {
            (forall|j: int| 0 <= j < ts.len() ==> unicode_trans_ok(#[trigger] ts[j], rs@))
                && wide_ranges_covered(ts, rs@)
        },
        ClassKind::Bytes(brs) => forall|j: int|
            0 <= j < ts.len() ==> bytes_trans_ok(#[trigger] ts[j], brs@),
    }
}

/// Relies on `char::from_u32` of std: it returns `Some` exactly for
/// Unicode scalar values (everything up to `0x10FFFF` except the
/// surrogate range), and the returned scalar has the given value.
pub assume_specification[ std::primitive::char::from_u32 ](u: u32) -> (r: Option<char>)
    ensures
        r is Some <==> (u < 0xD800 || (0xE000 <= u && u <= 0x10FFFF)),
        r matches Some(c) ==> c as u32 == u,
;

/// Whether the symbols of `h` can be extracted as an explicit character
/// set: a literal, a byte class, or a Unicode class of narrow ranges.
pub open spec fn extract_chars_ok(h: Hir) -> bool {
    match h {
        Hir::Literal(_) => true,
        Hir::Class(k) => match k {
            ClassKind::Unicode(rs) => narrow_ranges(rs@),
            ClassKind::Bytes(_) => true,
        },
        _ => false,
    }
}

/// Every range spans at most eleven code points: no range reaches more
/// than ten past its start.
pub open spec fn narrow_ranges(rs: Seq<CharRange>) -> bool {
    forall|i: int|
        0 <= i < rs.len() ==> ((#[trigger] rs[i]).lo as u32 <= rs[i].hi as u32 ==> rs[i].hi as u32
            - rs[i].lo as u32 <= 10)
}

/// Whether the extracted character set of `h` is non-empty.
pub open spec fn extract_nonempty(h: Hir) -> bool {
    match h {
        Hir::Literal(cs) => cs@.len() > 0,
        Hir::Class(k) => match k {
            ClassKind::Unicode(rs) => exists|i: int|
                0 <= i < rs@.len() && (#[trigger] rs@[i]).lo as u32 <= rs@[i].hi as u32,
            ClassKind::Bytes(rs) => exists|i: int|
                0 <= i < rs@.len() && (#[trigger] rs@[i]).lo <= rs@[i].hi,
        },
        _ => false,
    }
}

/// The outcome of lowering a possessive loop over the atom `sub`: the
/// atom must be a literal or a character class with at least one symbol.
/// A wide or negated class is carried as a set predicate, so no width
/// limit applies here.
pub open spec fn poss_outcome(sub: Hir) -> Option<ErrKind> {
    if extract_nonempty(sub) {
        None
    } else {
        Some(ErrKind::Unsupported)
    }
}

/// The outcome of compiling a tree: `None` when compilation succeeds, and
/// the kind of the error it raises otherwise.
pub open spec fn hir_outcome(h: Hir) -> Option<ErrKind>
    decreases h, 0int, 0int,
{
    match h {
        Hir::Empty => None,
        Hir::Literal(_) => None,
        Hir::Class(k) => if class_nonempty(k) {
            None
        } else {
            Some(ErrKind::Unsupported)
        },
        Hir::Look(_) => Some(ErrKind::Unsupported),
        Hir::Capture(sub) => hir_outcome(*sub),
        Hir::Repetition(r) => rep_outcome(r),
        Hir::Concat(items) => concat_outcome_from(items@, 0),
        Hir::Alternation(items) => alt_outcome_from(items@, 0),
    }
}

/// The outcome of compiling a repetition.
pub open spec fn rep_outcome(r: Repetition) -> Option<ErrKind>
    decreases r, 1int, 0int,
{
    match (r.min, r.max) {
        (0u32, Some(1u32)) => hir_outcome(*r.sub),
        (0u32, None) => if r.kind is Possessive {
            poss_outcome(*r.sub)
        } else {
            hir_outcome(*r.sub)
        },
        (1u32, None) => if r.kind is Possessive {
            poss_outcome(*r.sub)
        } else {
            hir_outcome(*r.sub)
        },
        (min, max) => counted_outcome(*r.sub, min, max),
    }
}

/// The outcome of a counted repetition: with zero copies it lowers to the
/// empty fragment, otherwise to copies of the sub-expression.
pub open spec fn counted_outcome(sub: Hir, min: u32, max: Option<u32>) -> Option<ErrKind>
    decreases sub, 2int, 0int,
{
    match max {
        Some(m) => if min == 0 && m == 0 {
            None
        } else {
            hir_outcome(sub)
        },
        None => hir_outcome(sub),
    }
}

/// The outcome of a pairwise step on adjacent elements `a`, `b`, when both
/// are in view: an anchor may not come first; an anchor after a possessive
/// fuses only when it is an end anchor; an anchor after anything else has
/// no extractable symbol set; otherwise `a` is lowered on its own.
pub open spec fn pair_outcome(a: Hir, b: Hir) -> Option<ErrKind>
    decreases a, 3int, 0int,
{
    if hir_is_anchor(a) {
        Some(ErrKind::Unsupported)
    } else if hir_is_anchor(b) {
        if hir_is_possessive(a) {
            match b {
                Hir::Look(k) => if k.is_end_anchor() {
                    hir_outcome(a)
                } else {
                    Some(ErrKind::Unsupported)
                },
                _ => Some(ErrKind::Unsupported),
            }
        } else {
            Some(ErrKind::Unsupported)
        }
    } else {
        hir_outcome(a)
    }
}

/// The outcome of compiling the alternation branches from index `i` on:
/// the first failing branch decides.
pub open spec fn alt_outcome_from(items: Seq<Hir>, i: int) -> Option<ErrKind>
    decreases items, 1int, items.len() - i,
{
    if i < 0 || i >= items.len() {
        None
    } else {
        match hir_outcome(items[i]) {
            Some(e) => Some(e),
            None => alt_outcome_from(items, i + 1),
        }
    }
}

/// The outcome of the pairwise concatenation scan from index `i` on,
/// mirroring the pairwise rules: an anchor may not come first; an anchor
/// after a possessive fuses only when it is an end anchor; an anchor after
/// anything else has no extractable symbol set and is rejected; otherwise
/// the leading element is lowered on its own.
pub open spec fn concat_outcome_from(items: Seq<Hir>, i: int) -> Option<ErrKind>
    decreases items, 4int, items.len() - i,
{
    if i < 0 || i >= items.len() {
        None
    } else if i + 1 >= items.len() {
        hir_outcome(items[i])
    } else {
        match pair_outcome(items[i], items[i + 1]) {
            Some(e) => Some(e),
            None => concat_outcome_from(
                items,
                if hir_is_anchor(items[i + 1]) {
                    i + 2
                } else {
                    i + 1
                },
            ),
        }
    }
}

/// Append a transition, recording exactly what the new sequence holds.
fn push_transition(transitions: &mut Vec<TwoCharTransition>, t: TwoCharTransition)
    ensures
        final(transitions)@.len() == old(transitions)@.len() + 1,
        forall|j: int|
            0 <= j < old(transitions)@.len() ==> final(transitions)@[j] == old(transitions)@[j],
        (final(transitions)@[old(transitions)@.len() as int])@ == t@,
{
    let ghost old_ts = transitions@;
    let ghost tv = t@;
    transitions.push(t);
    proof {
        assert(transitions@[old_ts.len() as int]@ == tv);
        assert forall|j: int| 0 <= j < old_ts.len() implies transitions@[j] == old_ts[j] by {
            assert(old_ts.push(transitions@[old_ts.len() as int])[j] == old_ts[j]);
        }
    }
}

// ---------------------------------------------------------------------
// The fragment contract.
// ---------------------------------------------------------------------
/// The builder only appends: old states are untouched, and the start and
/// accepting records are unchanged.
pub open spec fn builder_extends(pre: NfaV, post: NfaV) -> bool {
    &&& pre.states.len() <= post.states.len()
    &&& forall|i: int| 0 <= i < pre.states.len() ==> post.states[i] == pre.states[i]
    &&& post.start == pre.start
    &&& post.accepting == pre.accepting
}

/// No `Match` state was created.
pub open spec fn no_new_match(pre: NfaV, post: NfaV) -> bool {
    forall|i: int|
        pre.states.len() <= i < post.states.len() ==> !((#[trigger] post.states[i]) is Match)
}

/// Every state from `lo` on points only into `[lo, len)` or carries the
/// sentinel: a fragment is a closed region of the arena.
pub open spec fn region_closed(post: NfaV, lo: int) -> bool {
    forall|i: int|
        lo <= i < post.states.len() ==> state_in_region(
            #[trigger] post.states[i],
            lo,
            post.states.len() as int,
        )
}

/// Every state from `lo` on is fully patched, except the still dangling
/// fragment end `keep`.
pub open spec fn patched_except(post: NfaV, lo: int, keep: StateId) -> bool {
    forall|i: int|
        lo <= i < post.states.len() && i != keep ==> state_patched(#[trigger] post.states[i])
}

/// What every lowered fragment guarantees: the builder only appended, no
/// `Match` was created, the fragment lies in the new region, its end is
/// dangling and is the only unpatched state, the region is closed, and
/// the end is reachable from the start.
pub open spec fn frag_ok(pre: NfaV, post: NfaV, f: Fragment) -> bool {
    &&& builder_extends(pre, post)
    &&& no_new_match(pre, post)
    &&& pre.states.len() <= f.start < post.states.len()
    &&& pre.states.len() <= f.end < post.states.len()
    &&& f.start != UNPATCHED
    &&& f.end != UNPATCHED
    &&& dangling_state(post.states[f.end as int])
    &&& post.reaches(f.start, f.end)
    &&& region_closed(post, pre.states.len() as int)
    &&& patched_except(post, pre.states.len() as int, f.end)
}

/// What every compile step guarantees: on success a lowered fragment and a
/// successful outcome, on failure exactly the predicted error kind.
pub open spec fn compile_result_ok(
    pre: NfaV,
    post: NfaV,
    r: CompileResult<Fragment>,
    outcome: Option<ErrKind>,
) -> bool {
    match r {
        Ok(f) => outcome is None && frag_ok(pre, post, f),
        Err(e) => outcome == Some(err_kind(e)),
    }
}




/// The state a literal's symbol `k` lowers to: exactly one transition
/// that consumes the symbol with no lookahead and moves to the next
/// state in the chain; the last state's transition is still dangling.
pub open spec fn literal_state_ok(sv: StateV, cs: Seq<char>, first: int, k: int) -> bool {
    sv matches StateV::Transitions(ts) && ts.len() == 1 && ts[0].current == PredV::Char(cs[k])
        && ts[0].lookahead is None && ts[0].target == (if k == cs.len() - 1 {
        UNPATCHED
    } else {
        (first + k + 1) as StateId
    })
}

/// The arena state at chain position `k` has its literal shape.
pub open spec fn lit_ok_at(v: NfaV, first: int, cs: Seq<char>, k: int) -> bool {
    literal_state_ok(v.states[first + k], cs, first, k)
}

/// One chaining step of a literal: symbol `i` was added as a fresh
/// dangling single-transition state, and the previous link was connected
/// to it; the first `i + 1` chain states then have their final shapes for
/// the prefix of length `i + 1`.
///
/// `mid` is the arena before the new state, `mid2` after it, `post`
/// after the connect.
proof fn lemma_literal_step(
    mid: NfaV,
    mid2: NfaV,
    post: NfaV,
    lits: Seq<char>,
    first: int,
    i: int,
    s: StateId,
)
    requires
        1 <= i < lits.len(),
        0 <= first,
        mid.states.len() == first + i,
        forall|k: int| 0 <= k < i ==> #[trigger] lit_ok_at(mid, first, lits.subrange(0, i), k),
        s == first + i,
        mid2.states.len() == mid.states.len() + 1,
        forall|j: int| 0 <= j < mid.states.len() ==> mid2.states[j] == mid.states[j],
        mid2.states[s as int] matches StateV::Transitions(ts) && ts.len() == 1 && ts[0].current
            == PredV::Char(lits[i]) && ts[0].lookahead is None && ts[0].target == UNPATCHED,
        post.states.len() == mid2.states.len(),
        forall|j: int|
            0 <= j < post.states.len() && j != first + i - 1 ==> post.states[j] == mid2.states[j],
        connect_effect(
            mid2.states[first + i - 1],
            post.states[first + i - 1],
            s,
        ),
    ensures
        forall|k: int|
            0 <= k < i + 1 ==> #[trigger] lit_ok_at(post, first, lits.subrange(0, i + 1), k),
{
    let cs = lits.subrange(0, i + 1);
    assert forall|k: int| 0 <= k < i + 1 implies #[trigger] lit_ok_at(post, first, cs, k) by {
        if k == i {
            assert(post.states[first + k] == mid2.states[first + k]);
            assert(cs[k] == lits[i]);
        } else if k == i - 1 {
            assert(lit_ok_at(mid, first, lits.subrange(0, i), k));
            assert(lits.subrange(0, i)[k] == lits[k]);
            assert(cs[k] == lits[k]);
            assert(mid2.states[first + k] == mid.states[first + k]);
            match mid.states[first + k] {
                StateV::Transitions(ts) => {
                    match post.states[first + k] {
                        StateV::Transitions(ts2) => {
                            assert(ts2 == ts.map_values(
                                |t: TransV| crate::nfa::patch_transition(t, s),
                            ));
                            assert(ts2.len() == 1);
                            assert(ts2[0] == crate::nfa::patch_transition(ts[0], s));
                            assert(ts[0].target == UNPATCHED);
                            assert(ts2[0].current == ts[0].current);
                            assert(ts2[0].lookahead == ts[0].lookahead);
                            assert(ts2[0].target == s);
                        },
                        _ => {
                            assert(false);
                        },
                    }
                },
                _ => {
                    assert(false);
                },
            }
        } else {
            assert(lit_ok_at(mid, first, lits.subrange(0, i), k));
            assert(lits.subrange(0, i)[k] == cs[k]);
            assert(post.states[first + k] == mid2.states[first + k]);
            assert(mid2.states[first + k] == mid.states[first + k]);
        }
    }
}

/// Chaining two finished fragments: `f2` was lowered after `f1`, and
/// `f1`'s end was then connected to `f2`'s start. The result is one
/// finished fragment from `f1.start` to `f2.end`.
///
/// `pre` is the arena before `f1`, `mid` between the fragments, `mid2`
/// after `f2`, `post` after the connect.
pub proof fn lemma_chain_frags(pre: NfaV, mid: NfaV, mid2: NfaV, post: NfaV, f1: Fragment, f2: Fragment)
    requires
        frag_ok(pre, mid, f1),
        frag_ok(mid, mid2, f2),
        post.states.len() == mid2.states.len(),
        forall|i: int|
            0 <= i < post.states.len() && i != f1.end ==> post.states[i] == mid2.states[i],
        connect_effect(mid2.states[f1.end as int], post.states[f1.end as int], f2.start),
        post.start == mid2.start,
        post.accepting == mid2.accepting,
    ensures
        frag_ok(pre, post, Fragment { start: f1.start, end: f2.end }),
{
    assert(mid2.states[f1.end as int] == mid.states[f1.end as int]);
    lemma_connect_end(mid2, post, f1.end, f2.start);
    lemma_edges_preserved_extend(mid, mid2);
    lemma_reaches_preserved(mid, mid2, f1.start, f1.end);
    lemma_reaches_preserved(mid2, post, f1.start, f1.end);
    lemma_reaches_preserved(mid2, post, f2.start, f2.end);
    post.lemma_edge_reaches(f1.end, f2.start);
    post.lemma_reaches_trans(f1.start, f1.end, f2.start);
    post.lemma_reaches_trans(f1.start, f2.start, f2.end);
    let lo = pre.states.len() as int;
    let hi = post.states.len() as int;
    assert(post.states[f2.end as int] == mid2.states[f2.end as int]);
    assert forall|i: int| lo <= i < hi implies state_in_region(
        #[trigger] post.states[i],
        lo,
        hi,
    ) by {
        if i == f1.end {
            let tp = post.states[f1.end as int].out_targets();
            let tm = mid2.states[f1.end as int].out_targets();
            assert forall|j: int| 0 <= j < tp.len() implies (lo <= (#[trigger] tp[j]) < hi || tp[j]
                == UNPATCHED) by {
                if tp[j] == f2.start {
                } else {
                    assert(tp[j] == tm[j]);
                    assert(state_in_region(mid.states[f1.end as int], lo, mid.states.len() as int));
                }
            }
        } else if i < mid.states.len() {
            assert(post.states[i] == mid.states[i]);
            assert(state_in_region(mid.states[i], lo, mid.states.len() as int));
        } else {
            assert(post.states[i] == mid2.states[i]);
            assert(state_in_region(mid2.states[i], mid.states.len() as int,
                mid2.states.len() as int));
        }
    }
    assert forall|i: int| lo <= i < hi && i != f2.end implies state_patched(
        #[trigger] post.states[i],
    ) by {
        if i == f1.end {
        } else if i < mid.states.len() {
            assert(post.states[i] == mid.states[i]);
        } else {
            assert(post.states[i] == mid2.states[i]);
        }
    }
    assert forall|i: int| lo <= i < hi implies !((#[trigger] post.states[i]) is Match) by {
        if i == f1.end {
        } else if i < mid.states.len() {
            assert(post.states[i] == mid.states[i]);
        } else {
            assert(post.states[i] == mid2.states[i]);
        }
    }
    assert forall|i: int| 0 <= i < pre.states.len() implies post.states[i] == pre.states[i] by {
        assert(post.states[i] == mid2.states[i]);
        assert(mid2.states[i] == mid.states[i]);
    }
    assert(dangling_state(post.states[f2.end as int]));
}

/// Wrapping a finished fragment in a quantifier skeleton: an exit epsilon
/// `e` and a split `sp` are added after the fragment `ef`, and `ef.end`
/// is connected either to `e` or back to `sp`. The result runs from
/// either `sp` or `ef.start` to `e`.
///
/// `pre` is the arena before `ef`, `mid` after it, `mid2` after `e`,
/// `mid3` after `sp`, `post` after the connect.
pub proof fn lemma_two_state_wrap(
    pre: NfaV,
    mid: NfaV,
    mid2: NfaV,
    mid3: NfaV,
    post: NfaV,
    ef: Fragment,
    e: StateId,
    sp: StateId,
    sp_targets: Seq<StateId>,
    connect_to: StateId,
    ret: Fragment,
)
    requires
        frag_ok(pre, mid, ef),
        e == mid.states.len(),
        e != UNPATCHED,
        mid2.states =~= mid.states.push(StateV::Epsilon(UNPATCHED)),
        mid2.start == mid.start,
        mid2.accepting == mid.accepting,
        sp == mid2.states.len(),
        sp != UNPATCHED,
        mid3.states =~= mid2.states.push(StateV::Split(sp_targets)),
        mid3.start == mid2.start,
        mid3.accepting == mid2.accepting,
        forall|j: int|
            0 <= j < sp_targets.len() ==> ((#[trigger] sp_targets[j]) == ef.start
                || sp_targets[j] == e),
        connect_to == e || connect_to == sp,
        post.states.len() == mid3.states.len(),
        forall|i: int|
            0 <= i < post.states.len() && i != ef.end ==> post.states[i] == mid3.states[i],
        connect_effect(mid3.states[ef.end as int], post.states[ef.end as int], connect_to),
        post.start == mid3.start,
        post.accepting == mid3.accepting,
        ret.end == e,
        ret.start == sp || ret.start == ef.start,
        ret.start == sp ==> sp_targets.contains(e),
        ret.start == ef.start ==> (connect_to == sp && sp_targets.contains(e)),
    ensures
        frag_ok(pre, post, ret),
{
    assert(mid3.states[ef.end as int] == mid.states[ef.end as int]);
    lemma_connect_end(mid3, post, ef.end, connect_to);
    lemma_edges_preserved_extend(mid, mid3);
    lemma_reaches_preserved(mid, mid3, ef.start, ef.end);
    lemma_reaches_preserved(mid3, post, ef.start, ef.end);
    assert(post.states[e as int] == StateV::Epsilon(UNPATCHED));
    assert(post.states[e as int].out_targets() =~= seq![UNPATCHED]);
    assert(post.states[sp as int] == StateV::Split(sp_targets));
    if ret.start == sp {
        let j = choose|j: int| 0 <= j < sp_targets.len() && sp_targets[j] == e;
        assert(post.states[sp as int].out_targets()[j] == e);
        assert(post.edge(sp, e));
        post.lemma_edge_reaches(sp, e);
    } else {
        let j = choose|j: int| 0 <= j < sp_targets.len() && sp_targets[j] == e;
        assert(post.states[sp as int].out_targets()[j] == e);
        assert(post.edge(sp, e));
        assert(post.edge(ef.end, sp));
        post.lemma_edge_reaches(ef.end, sp);
        post.lemma_edge_reaches(sp, e);
        post.lemma_reaches_trans(ef.start, ef.end, sp);
        post.lemma_reaches_trans(ef.start, sp, e);
    }
    let lo = pre.states.len() as int;
    let hi = post.states.len() as int;
    assert forall|i: int| lo <= i < hi implies state_in_region(
        #[trigger] post.states[i],
        lo,
        hi,
    ) by {
        if i == ef.end {
            let tp = post.states[ef.end as int].out_targets();
            let tm = mid3.states[ef.end as int].out_targets();
            assert forall|j: int| 0 <= j < tp.len() implies (lo <= (#[trigger] tp[j]) < hi || tp[j]
                == UNPATCHED) by {
                if tp[j] == connect_to {
                } else {
                    assert(tp[j] == tm[j]);
                    assert(state_in_region(mid.states[ef.end as int], lo, mid.states.len() as int));
                }
            }
        } else if i == e as int {
        } else if i == sp as int {
            assert forall|j: int|
                0 <= j < post.states[sp as int].out_targets().len() implies (lo <= (
            #[trigger] post.states[sp as int].out_targets()[j]) < hi
                || post.states[sp as int].out_targets()[j] == UNPATCHED) by {
                assert(post.states[sp as int].out_targets()[j] == sp_targets[j]);
            }
        } else if i < mid.states.len() {
            assert(post.states[i] == mid.states[i]);
            assert(state_in_region(mid.states[i], lo, mid.states.len() as int));
        }
    }
    assert forall|i: int| lo <= i < hi && i != e implies state_patched(
        #[trigger] post.states[i],
    ) by {
        if i == ef.end {
        } else if i == sp as int {
            assert forall|j: int|
                0 <= j < post.states[sp as int].out_targets().len() implies (
            #[trigger] post.states[sp as int].out_targets()[j]) != UNPATCHED by {
                assert(post.states[sp as int].out_targets()[j] == sp_targets[j]);
                assert(sp_targets[j] == ef.start || sp_targets[j] == e);
            }
        } else if i < mid.states.len() {
            assert(post.states[i] == mid.states[i]);
        }
    }
    assert forall|i: int| lo <= i < hi implies !((#[trigger] post.states[i]) is Match) by {
        if i == ef.end {
        } else if i == e as int {
        } else if i == sp as int {
        } else if i < mid.states.len() {
            assert(post.states[i] == mid.states[i]);
        }
    }
    assert forall|i: int| 0 <= i < pre.states.len() implies post.states[i] == pre.states[i] by {
        assert(post.states[i] == mid3.states[i]);
        assert(mid3.states[i] == mid.states[i]);
    }
    assert(dangling_state(post.states[e as int]));
}


/// A still-pending fragment inside a larger construction: its states are
/// in the region, its end dangles, and its end is reachable.
pub open spec fn frag_in(pre: NfaV, cur: NfaV, f: Fragment) -> bool {
    &&& pre.states.len() <= f.start < cur.states.len()
    &&& pre.states.len() <= f.end < cur.states.len()
    &&& f.start != UNPATCHED
    &&& f.end != UNPATCHED
    &&& dangling_state(cur.states[f.end as int])
    &&& cur.reaches(f.start, f.end)
}

/// Whether `i` is the end of one of the fragments.
pub open spec fn frag_end_in(fs: Seq<Fragment>, i: int) -> bool {
    exists|k: int| 0 <= k < fs.len() && (#[trigger] fs[k]).end == i
}

/// A family of pending fragments: the builder only appended, the region
/// is closed, every fragment is alive, their ends are distinct, and only
/// their ends are unpatched.
pub open spec fn frags_ok(pre: NfaV, cur: NfaV, fs: Seq<Fragment>) -> bool {
    &&& builder_extends(pre, cur)
    &&& no_new_match(pre, cur)
    &&& region_closed(cur, pre.states.len() as int)
    &&& forall|k: int| 0 <= k < fs.len() ==> frag_in(pre, cur, #[trigger] fs[k])
    &&& forall|j: int, k: int|
        #![trigger fs[j], fs[k]]
        0 <= j < k < fs.len() ==> fs[j].end != fs[k].end
    &&& forall|i: int|
        pre.states.len() <= i < cur.states.len() && !frag_end_in(fs, i) ==> state_patched(
            #[trigger] cur.states[i],
        )
}

/// Lowering one more fragment extends a pending family.
pub proof fn lemma_frags_push(pre: NfaV, cur: NfaV, nxt: NfaV, fs: Seq<Fragment>, f: Fragment)
    requires
        frags_ok(pre, cur, fs),
        frag_ok(cur, nxt, f),
    ensures
        frags_ok(pre, nxt, fs.push(f)),
{
    lemma_edges_preserved_extend(cur, nxt);
    let fs2 = fs.push(f);
    assert forall|k: int| 0 <= k < fs2.len() implies frag_in(pre, nxt, #[trigger] fs2[k]) by {
        if k < fs.len() {
            assert(fs2[k] == fs[k]);
            assert(nxt.states[fs[k].end as int] == cur.states[fs[k].end as int]);
            lemma_reaches_preserved(cur, nxt, fs[k].start, fs[k].end);
        } else {
            assert(fs2[k] == f);
        }
    }
    assert forall|j: int, k: int|
        #![trigger fs2[j], fs2[k]]
        0 <= j < k < fs2.len() implies fs2[j].end != fs2[k].end by {
        if k < fs.len() {
            assert(fs2[j] == fs[j] && fs2[k] == fs[k]);
        } else {
            assert(fs2[j] == fs[j] && fs2[k] == f);
            assert(fs[j].end < cur.states.len() <= f.end);
        }
    }
    assert forall|i: int|
        pre.states.len() <= i < nxt.states.len() && !frag_end_in(fs2, i) implies state_patched(
        #[trigger] nxt.states[i],
    ) by {
        if i < cur.states.len() {
            assert(!frag_end_in(fs, i)) by {
                if frag_end_in(fs, i) {
                    let k = choose|k: int| 0 <= k < fs.len() && (#[trigger] fs[k]).end == i;
                    assert(fs2[k] == fs[k]);
                    assert(frag_end_in(fs2, i));
                }
            }
            assert(nxt.states[i] == cur.states[i]);
        } else {
            if i != f.end {
                assert(state_patched(nxt.states[i]));
            } else {
                assert(fs2[fs.len() as int] == f);
                assert(frag_end_in(fs2, i));
            }
        }
    }
    assert forall|i: int|
        pre.states.len() <= i < nxt.states.len() implies state_in_region(
        #[trigger] nxt.states[i],
        pre.states.len() as int,
        nxt.states.len() as int,
    ) by {
        if i < cur.states.len() {
            assert(nxt.states[i] == cur.states[i]);
            assert(state_in_region(cur.states[i], pre.states.len() as int,
                cur.states.len() as int));
        } else {
            assert(state_in_region(nxt.states[i], cur.states.len() as int,
                nxt.states.len() as int));
        }
    }
    assert forall|i: int|
        pre.states.len() <= i < nxt.states.len() implies !((#[trigger] nxt.states[i])
        is Match) by {
        if i < cur.states.len() {
            assert(nxt.states[i] == cur.states[i]);
        }
    }
}

/// One step of the right fold over an alternation: pop the fragment `f`,
/// give it and the running result `res` a fresh shared exit epsilon `e2`,
/// reached through their ends, and enter through a fresh split `sp` that
/// offers `f` before `res`. The new running result goes from `sp` to `e2`.
///
/// `pre` is the arena before all branches, `cur` before `e2`, `mid2`
/// after `e2`, `mid3` after `sp`, `post1` after connecting `f.end`,
/// `post2` after connecting `res.end`.
pub proof fn lemma_alt_fold(
    pre: NfaV,
    cur: NfaV,
    mid2: NfaV,
    mid3: NfaV,
    post1: NfaV,
    post2: NfaV,
    rest: Seq<Fragment>,
    f: Fragment,
    res: Fragment,
    e2: StateId,
    sp: StateId,
    tseq: Seq<StateId>,
)
    requires
        frags_ok(pre, cur, rest.push(f).push(res)),
        e2 == cur.states.len(),
        e2 != UNPATCHED,
        mid2.states =~= cur.states.push(StateV::Epsilon(UNPATCHED)),
        mid2.start == cur.start,
        mid2.accepting == cur.accepting,
        sp == mid2.states.len(),
        sp != UNPATCHED,
        mid3.states =~= mid2.states.push(StateV::Split(tseq)),
        mid3.start == mid2.start,
        mid3.accepting == mid2.accepting,
        tseq.len() == 2,
        tseq[0] == f.start,
        tseq[1] == res.start,
        post1.states.len() == mid3.states.len(),
        forall|i: int|
            0 <= i < post1.states.len() && i != f.end ==> post1.states[i] == mid3.states[i],
        connect_effect(mid3.states[f.end as int], post1.states[f.end as int], e2),
        post1.start == mid3.start,
        post1.accepting == mid3.accepting,
        post2.states.len() == post1.states.len(),
        forall|i: int|
            0 <= i < post2.states.len() && i != res.end ==> post2.states[i] == post1.states[i],
        connect_effect(post1.states[res.end as int], post2.states[res.end as int], e2),
        post2.start == post1.start,
        post2.accepting == post1.accepting,
    ensures
        frags_ok(pre, post2, rest.push(Fragment { start: sp, end: e2 })),
{
    let fs0 = rest.push(f).push(res);
    assert(fs0[fs0.len() - 1] == res);
    assert(fs0[fs0.len() - 2] == f);
    assert(f.end != res.end);
    assert(frag_in(pre, cur, f));
    assert(frag_in(pre, cur, res));
    lemma_edges_preserved_extend(cur, mid3);
    assert(mid3.states[f.end as int] == cur.states[f.end as int]);
    lemma_connect_end(mid3, post1, f.end, e2);
    assert(post1.states[res.end as int] == cur.states[res.end as int]);
    lemma_connect_end(post1, post2, res.end, e2);
    // the new running result
    assert(post2.states[e2 as int] == StateV::Epsilon(UNPATCHED));
    assert(post2.states[e2 as int].out_targets() =~= seq![UNPATCHED]);
    assert(post2.states[sp as int] == StateV::Split(tseq));
    assert(post2.edge(sp, f.start)) by {
        assert(post2.states[sp as int].out_targets()[0] == f.start);
    }
    lemma_reaches_preserved(cur, mid3, f.start, f.end);
    lemma_reaches_preserved(mid3, post1, f.start, f.end);
    lemma_reaches_preserved(post1, post2, f.start, f.end);
    assert(post2.edge(f.end, e2)) by {
        assert(post1.edge(f.end, e2));
    }
    post2.lemma_edge_reaches(sp, f.start);
    post2.lemma_edge_reaches(f.end, e2);
    post2.lemma_reaches_trans(sp, f.start, f.end);
    post2.lemma_reaches_trans(sp, f.end, e2);
    let newres = Fragment { start: sp, end: e2 };
    let fs2 = rest.push(newres);
    let lo = pre.states.len() as int;
    let hi = post2.states.len() as int;
    assert forall|k: int| 0 <= k < fs2.len() implies frag_in(pre, post2, #[trigger] fs2[k]) by {
        if k < rest.len() {
            assert(fs2[k] == rest[k]);
            assert(fs0[k] == rest[k]);
            assert(frag_in(pre, cur, rest[k]));
            assert(rest[k].end != f.end && rest[k].end != res.end);
            assert(post2.states[rest[k].end as int] == cur.states[rest[k].end as int]);
            lemma_reaches_preserved(cur, mid3, rest[k].start, rest[k].end);
            lemma_reaches_preserved(mid3, post1, rest[k].start, rest[k].end);
            lemma_reaches_preserved(post1, post2, rest[k].start, rest[k].end);
        } else {
            assert(fs2[k] == newres);
        }
    }
    assert forall|j: int, k: int|
        #![trigger fs2[j], fs2[k]]
        0 <= j < k < fs2.len() implies fs2[j].end != fs2[k].end by {
        if k < rest.len() {
            assert(fs2[j] == rest[j] && fs2[k] == rest[k]);
            assert(fs0[j] == rest[j] && fs0[k] == rest[k]);
        } else {
            assert(fs2[j] == rest[j] && fs2[k] == newres);
            assert(fs0[j] == rest[j]);
            assert(rest[j].end < cur.states.len());
        }
    }
    assert forall|i: int| lo <= i < hi && !frag_end_in(fs2, i) implies state_patched(
        #[trigger] post2.states[i],
    ) by {
        if i == f.end || i == res.end {
        } else if i == e2 as int {
            assert(fs2[rest.len() as int] == newres);
            assert(frag_end_in(fs2, i));
        } else if i == sp as int {
            assert forall|j: int|
                0 <= j < post2.states[sp as int].out_targets().len() implies (
            #[trigger] post2.states[sp as int].out_targets()[j]) != UNPATCHED by {
                assert(post2.states[sp as int].out_targets()[j] == tseq[j]);
                assert(tseq[j] == f.start || tseq[j] == res.start);
            }
        } else if i < cur.states.len() {
            assert(post2.states[i] == cur.states[i]);
            assert(!frag_end_in(fs0, i)) by {
                if frag_end_in(fs0, i) {
                    let k = choose|k: int| 0 <= k < fs0.len() && (#[trigger] fs0[k]).end == i;
                    if k < rest.len() {
                        assert(fs2[k] == rest[k]);
                        assert(frag_end_in(fs2, i));
                    } else {
                        assert(fs0[k] == f || fs0[k] == res);
                    }
                }
            }
        }
    }
    assert forall|i: int| lo <= i < hi implies state_in_region(
        #[trigger] post2.states[i],
        lo,
        hi,
    ) by {
        if i == f.end {
            let tp = post2.states[f.end as int].out_targets();
            let tm = cur.states[f.end as int].out_targets();
            assert(post1.states[f.end as int] == post2.states[f.end as int]);
            assert forall|j: int| 0 <= j < tp.len() implies (lo <= (#[trigger] tp[j]) < hi || tp[j]
                == UNPATCHED) by {
                if tp[j] == e2 {
                } else {
                    assert(tp[j] == tm[j]);
                    assert(state_in_region(cur.states[f.end as int], lo, cur.states.len() as int));
                }
            }
        } else if i == res.end {
            let tp = post2.states[res.end as int].out_targets();
            let tm = cur.states[res.end as int].out_targets();
            assert forall|j: int| 0 <= j < tp.len() implies (lo <= (#[trigger] tp[j]) < hi || tp[j]
                == UNPATCHED) by {
                if tp[j] == e2 {
                } else {
                    assert(tp[j] == tm[j]);
                    assert(state_in_region(cur.states[res.end as int], lo,
                        cur.states.len() as int));
                }
            }
        } else if i == e2 as int {
        } else if i == sp as int {
            assert forall|j: int|
                0 <= j < post2.states[sp as int].out_targets().len() implies (lo <= (
            #[trigger] post2.states[sp as int].out_targets()[j]) < hi
                || post2.states[sp as int].out_targets()[j] == UNPATCHED) by {
                assert(post2.states[sp as int].out_targets()[j] == tseq[j]);
                assert(tseq[j] == f.start || tseq[j] == res.start);
            }
        } else if i < cur.states.len() {
            assert(post2.states[i] == cur.states[i]);
            assert(state_in_region(cur.states[i], lo, cur.states.len() as int));
        }
    }
    assert forall|i: int| lo <= i < hi implies !((#[trigger] post2.states[i]) is Match) by {
        if i == f.end || i == res.end {
        } else if i == e2 as int || i == sp as int {
        } else if i < cur.states.len() {
            assert(post2.states[i] == cur.states[i]);
        }
    }
    assert forall|i: int| 0 <= i < pre.states.len() implies post2.states[i] == pre.states[i] by {
        assert(f.end >= pre.states.len() && res.end >= pre.states.len());
        assert(post2.states[i] == cur.states[i]);
    }
}


/// The outcome of lowering `a` with the lookahead element `b` fused into
/// its transitions: `b`'s symbols must be extractable.
pub open spec fn cwl_outcome(a: Hir, b: Hir) -> Option<ErrKind>
    decreases a, 2int, 0int,
{
    if !extract_chars_ok(b) {
        Some(ErrKind::Unsupported)
    } else {
        hir_outcome(a)
    }
}

/// The outcome of lowering a possessive element followed by a disjoint
/// lookahead assertion: only end anchors can be fused into the exits.
pub open spec fn pwdl_outcome(a: Hir, b: Hir) -> Option<ErrKind>
    decreases a, 2int, 0int,
{
    match b {
        Hir::Look(k) => if k.is_end_anchor() {
            hir_outcome(a)
        } else {
            Some(ErrKind::Unsupported)
        },
        _ => Some(ErrKind::Internal),
    }
}

/// A transition after the lookahead set `cs` was fused in: same symbol
/// predicate and target, lookahead replaced by the set (an empty set
/// leaves the transition alone).
pub open spec fn augmented_trans(t_old: TransV, t_new: TransV, cs: Seq<char>) -> bool {
    if cs.len() == 0 {
        t_new == t_old
    } else {
        &&& t_new.current == t_old.current
        &&& t_new.target == t_old.target
        &&& (t_new.lookahead matches Some(p) && (p matches PredV::CharSet(rs) && ranges_single(
            rs,
            cs,
        )))
    }
}

/// A state after the lookahead set was fused into its transitions; other
/// state kinds are untouched.
pub open spec fn augmented_state(s_old: StateV, s_new: StateV, cs: Seq<char>) -> bool {
    match s_old {
        StateV::Transitions(ts) => s_new matches StateV::Transitions(ts2) && ts2.len() == ts.len()
            && forall|j: int| 0 <= j < ts.len() ==> augmented_trans(ts[j], #[trigger] ts2[j], cs),
        _ => s_new == s_old,
    }
}

/// The ranges cover every symbol: a lookahead over them can only hold at
/// the end of the input when negated.
pub open spec fn covers_all(rs: Seq<CharRange>) -> bool {
    forall|x: char| crate::nfa::char_in_ranges(rs, x)
}

/// A transition after an end anchor was fused into the exits: one that
/// leaves for `end` gains a negated lookahead over all symbols, which can
/// only hold at the end of the input; others are untouched.
pub open spec fn end_anchored_trans(t_old: TransV, t_new: TransV, end: StateId) -> bool {
    if t_old.target == end {
        &&& t_new.current == t_old.current
        &&& t_new.target == t_old.target
        &&& (t_new.lookahead matches Some(p) && (p matches PredV::NotCharSet(rs) && covers_all(
            rs,
        )))
    } else {
        t_new == t_old
    }
}

/// A state after an end anchor was fused into its exit transitions.
pub open spec fn end_anchored_state(s_old: StateV, s_new: StateV, end: StateId) -> bool {
    match s_old {
        StateV::Transitions(ts) => s_new matches StateV::Transitions(ts2) && ts2.len() == ts.len()
            && forall|j: int| 0 <= j < ts.len() ==> end_anchored_trans(ts[j], #[trigger] ts2[j], end),
        _ => s_new == s_old,
    }
}


/// Paths out of a closed region stay inside it: from a state at or past
/// `lo`, every step lands at or past `lo` again.
pub proof fn lemma_region_path(post: NfaV, lo: int, p: Seq<StateId>)
    requires
        region_closed(post, lo),
        post.is_path(p),
        lo <= p.first(),
    ensures
        lo <= p.last(),
    decreases p.len(),
{
    if p.len() > 1 {
        assert(post.edge(p[0], p[1]));
        let j = choose|j: int|
            0 <= j < post.states[p[0] as int].out_targets().len() && post.states[
                p[0] as int].out_targets()[j] == p[1];
        assert(state_in_region(post.states[p[0] as int], lo, post.states.len() as int));
        assert(lo <= p[1]);
        let q = p.drop_first();
        assert(post.is_path(q)) by {
            assert forall|i: int| 0 <= i < q.len() - 1 implies post.edge(
                #[trigger] q[i],
                q[i + 1],
            ) by {
                assert(q[i] == p[i + 1] && q[i + 1] == p[i + 2]);
                assert(post.edge(p[i + 1], p[i + 2]));
            }
        }
        assert(q.first() == p[1] && q.last() == p.last());
        lemma_region_path(post, lo, q);
    }
}

/// Rewrites that only replace lookaheads keep every target, so a pending
/// fragment survives them: its end stays dangling, its path stays intact,
/// the region stays closed, and no state is unpatched beyond the end.
pub proof fn lemma_lookahead_rewrite_frame(pre: NfaV, a: NfaV, b: NfaV, f: Fragment)
    requires
        frag_ok(pre, a, f),
        b.states.len() == a.states.len(),
        b.start == a.start,
        b.accepting == a.accepting,
        forall|i: int|
            0 <= i < b.states.len() ==> ((#[trigger] b.states[i]).out_targets()
                == a.states[i].out_targets() && (b.states[i] is Transitions <==> a.states[i]
                is Transitions) && (b.states[i] is Match <==> a.states[i] is Match) && (
            !(a.states[i] is Transitions) ==> b.states[i] == a.states[i])),
        forall|i: int| 0 <= i < pre.states.len() ==> b.states[i] == pre.states[i],
    ensures
        frag_ok(pre, b, f),
{
    lemma_edges_preserved_same_targets(a, b);
    lemma_reaches_preserved(a, b, f.start, f.end);
    assert(dangling_state(b.states[f.end as int])) by {
        let se = a.states[f.end as int];
        match se {
            StateV::Epsilon(_) => {
                assert(b.states[f.end as int] == se);
            },
            StateV::Transitions(ts) => {
                let j = choose|j: int| 0 <= j < ts.len() && (#[trigger] ts[j]).target == UNPATCHED;
                assert(se.out_targets()[j] == UNPATCHED);
                assert(b.states[f.end as int].out_targets()[j] == UNPATCHED);
                match b.states[f.end as int] {
                    StateV::Transitions(ts2) => {
                        assert(ts2.map_values(|t: TransV| t.target)[j] == UNPATCHED);
                        assert(ts2[j].target == UNPATCHED);
                    },
                    _ => {
                        assert(false);
                    },
                }
            },
            _ => {
                assert(false);
            },
        }
    }
    assert forall|i: int|
        pre.states.len() <= i < b.states.len() implies state_in_region(
        #[trigger] b.states[i],
        pre.states.len() as int,
        b.states.len() as int,
    ) by {
        assert(b.states[i].out_targets() == a.states[i].out_targets());
        assert(state_in_region(a.states[i], pre.states.len() as int, a.states.len() as int));
    }
    assert forall|i: int|
        pre.states.len() <= i < b.states.len() && i != f.end implies state_patched(
        #[trigger] b.states[i],
    ) by {
        assert(b.states[i].out_targets() == a.states[i].out_targets());
        assert(state_patched(a.states[i]));
    }
}


/// A pending fragment together with a shared exit epsilon that is still
/// dangling: the assembly state of a counted repetition.
pub open spec fn frag_with_exit(pre: NfaV, cur: NfaV, f: Fragment, e: StateId) -> bool {
    &&& builder_extends(pre, cur)
    &&& no_new_match(pre, cur)
    &&& region_closed(cur, pre.states.len() as int)
    &&& frag_in(pre, cur, f)
    &&& pre.states.len() <= e < cur.states.len()
    &&& e != UNPATCHED
    &&& f.end != e
    &&& cur.states[e as int] == StateV::Epsilon(UNPATCHED)
    &&& forall|i: int|
        pre.states.len() <= i < cur.states.len() && i != f.end && i != e ==> state_patched(
            #[trigger] cur.states[i],
        )
}

/// A shared exit epsilon alone, before any optional copy exists.
pub open spec fn exit_only(pre: NfaV, cur: NfaV, e: StateId) -> bool {
    &&& builder_extends(pre, cur)
    &&& no_new_match(pre, cur)
    &&& region_closed(cur, pre.states.len() as int)
    &&& pre.states.len() <= e < cur.states.len()
    &&& e != UNPATCHED
    &&& cur.states[e as int] == StateV::Epsilon(UNPATCHED)
    &&& forall|i: int|
        pre.states.len() <= i < cur.states.len() && i != e ==> state_patched(
            #[trigger] cur.states[i],
        )
}

/// Creating the shared exit epsilon behind a finished fragment.
pub proof fn lemma_make_exit(pre: NfaV, cur: NfaV, nxt: NfaV, f: Fragment, e: StateId)
    requires
        frag_ok(pre, cur, f),
        e == cur.states.len(),
        e != UNPATCHED,
        nxt.states =~= cur.states.push(StateV::Epsilon(UNPATCHED)),
        nxt.start == cur.start,
        nxt.accepting == cur.accepting,
    ensures
        frag_with_exit(pre, nxt, f, e),
{
    lemma_edges_preserved_extend(cur, nxt);
    lemma_reaches_preserved(cur, nxt, f.start, f.end);
    assert(nxt.states[e as int] == StateV::Epsilon(UNPATCHED));
    assert(nxt.states[e as int].out_targets() =~= seq![UNPATCHED]);
    assert forall|i: int|
        pre.states.len() <= i < nxt.states.len() implies state_in_region(
        #[trigger] nxt.states[i],
        pre.states.len() as int,
        nxt.states.len() as int,
    ) by {
        if i < cur.states.len() {
            assert(nxt.states[i] == cur.states[i]);
            assert(state_in_region(cur.states[i], pre.states.len() as int,
                cur.states.len() as int));
        }
    }
    assert forall|i: int|
        pre.states.len() <= i < nxt.states.len() && i != f.end && i != e implies state_patched(
        #[trigger] nxt.states[i],
    ) by {
        if i < cur.states.len() {
            assert(nxt.states[i] == cur.states[i]);
        }
    }
    assert forall|i: int|
        pre.states.len() <= i < nxt.states.len() implies !((#[trigger] nxt.states[i])
        is Match) by {
        if i < cur.states.len() {
            assert(nxt.states[i] == cur.states[i]);
        }
    }
}

/// Attaching an optional copy `cf` behind a fresh split: the split offers
/// the copy or the shared exit. If a running fragment exists, its end is
/// connected to the split and the result runs from its start; otherwise
/// the split itself becomes the start.
///
/// `pre` is the arena before the whole repetition, `cur` before `cf`,
/// `mid2` after `cf`, `mid3` after the split `sp`, `post` after the
/// optional connect (equal to `mid3` when no running fragment exists).
pub proof fn lemma_split_attach(
    pre: NfaV,
    cur: NfaV,
    mid2: NfaV,
    mid3: NfaV,
    post: NfaV,
    running: Option<Fragment>,
    cf: Fragment,
    e: StateId,
    sp: StateId,
    tseq: Seq<StateId>,
    ret: Fragment,
)
    requires
        match running {
            Some(p) => frag_with_exit(pre, cur, p, e),
            None => exit_only(pre, cur, e),
        },
        frag_ok(cur, mid2, cf),
        cf.end != e,
        sp == mid2.states.len(),
        sp != UNPATCHED,
        mid3.states =~= mid2.states.push(StateV::Split(tseq)),
        mid3.start == mid2.start,
        mid3.accepting == mid2.accepting,
        tseq.len() == 2,
        tseq[0] == cf.start,
        tseq[1] == e,
        match running {
            Some(p) => {
                &&& post.states.len() == mid3.states.len()
                &&& (forall|i: int|
                    0 <= i < post.states.len() && i != p.end ==> post.states[i] == mid3.states[i])
                &&& connect_effect(mid3.states[p.end as int], post.states[p.end as int], sp)
                &&& post.start == mid3.start
                &&& post.accepting == mid3.accepting
                &&& ret == (Fragment { start: p.start, end: cf.end })
            },
            None => post == mid3 && ret == (Fragment { start: sp, end: cf.end }),
        },
    ensures
        frag_with_exit(pre, post, ret, e),
{
    lemma_edges_preserved_extend(cur, mid3);
    let lo = pre.states.len() as int;
    let hi = post.states.len() as int;
    assert(cf.end >= cur.states.len());
    match running {
        Some(p) => {
            assert(mid3.states[p.end as int] == cur.states[p.end as int]);
            lemma_connect_end(mid3, post, p.end, sp);
            lemma_reaches_preserved(cur, mid3, p.start, p.end);
            lemma_reaches_preserved(mid3, post, p.start, p.end);
            lemma_reaches_preserved(mid2, mid3, cf.start, cf.end);
            lemma_reaches_preserved(mid3, post, cf.start, cf.end);
            assert(post.states[sp as int] == StateV::Split(tseq));
            assert(post.edge(sp, cf.start)) by {
                assert(post.states[sp as int].out_targets()[0] == cf.start);
            }
            post.lemma_edge_reaches(p.end, sp);
            post.lemma_edge_reaches(sp, cf.start);
            post.lemma_reaches_trans(p.start, p.end, sp);
            post.lemma_reaches_trans(p.start, sp, cf.start);
            post.lemma_reaches_trans(p.start, cf.start, cf.end);
            assert(post.states[e as int] == StateV::Epsilon(UNPATCHED));
            assert(post.states[cf.end as int] == mid2.states[cf.end as int]);
            assert forall|i: int| lo <= i < hi implies state_in_region(
                #[trigger] post.states[i],
                lo,
                hi,
            ) by {
                if i == p.end {
                    let tp = post.states[p.end as int].out_targets();
                    let tm = mid3.states[p.end as int].out_targets();
                    assert forall|j: int| 0 <= j < tp.len() implies (lo <= (#[trigger] tp[j]) < hi
                        || tp[j] == UNPATCHED) by {
                        if tp[j] == sp {
                        } else {
                            assert(tp[j] == tm[j]);
                            assert(state_in_region(cur.states[p.end as int], lo,
                                cur.states.len() as int));
                        }
                    }
                } else if i == sp as int {
                    assert forall|j: int|
                        0 <= j < post.states[sp as int].out_targets().len() implies (lo <= (
                    #[trigger] post.states[sp as int].out_targets()[j]) < hi
                        || post.states[sp as int].out_targets()[j] == UNPATCHED) by {
                        assert(post.states[sp as int].out_targets()[j] == tseq[j]);
                        assert(tseq[j] == cf.start || tseq[j] == e);
                    }
                } else if i < cur.states.len() {
                    assert(post.states[i] == cur.states[i]);
                    assert(state_in_region(cur.states[i], lo, cur.states.len() as int));
                } else if i < mid2.states.len() {
                    assert(post.states[i] == mid2.states[i]);
                    assert(state_in_region(mid2.states[i], cur.states.len() as int,
                        mid2.states.len() as int));
                }
            }
            assert forall|i: int| lo <= i < hi && i != cf.end && i != e implies state_patched(
                #[trigger] post.states[i],
            ) by {
                if i == p.end {
                } else if i == sp as int {
                    assert forall|j: int|
                        0 <= j < post.states[sp as int].out_targets().len() implies (
                    #[trigger] post.states[sp as int].out_targets()[j]) != UNPATCHED by {
                        assert(post.states[sp as int].out_targets()[j] == tseq[j]);
                        assert(tseq[j] == cf.start || tseq[j] == e);
                    }
                } else if i < cur.states.len() {
                    assert(post.states[i] == cur.states[i]);
                } else if i < mid2.states.len() {
                    assert(post.states[i] == mid2.states[i]);
                }
            }
            assert forall|i: int| lo <= i < hi implies !((#[trigger] post.states[i])
                is Match) by {
                if i == p.end {
                } else if i == sp as int {
                } else if i < cur.states.len() {
                    assert(post.states[i] == cur.states[i]);
                } else if i < mid2.states.len() {
                    assert(post.states[i] == mid2.states[i]);
                }
            }
            assert forall|i: int| 0 <= i < pre.states.len() implies post.states[i]
                == pre.states[i] by {
                assert(p.end >= pre.states.len());
                assert(post.states[i] == cur.states[i]);
            }
            assert(dangling_state(post.states[cf.end as int]));
        },
        None => {
            lemma_reaches_preserved(mid2, mid3, cf.start, cf.end);
            assert(post.states[sp as int] == StateV::Split(tseq));
            assert(post.edge(sp, cf.start)) by {
                assert(post.states[sp as int].out_targets()[0] == cf.start);
            }
            post.lemma_edge_reaches(sp, cf.start);
            post.lemma_reaches_trans(sp, cf.start, cf.end);
            assert(post.states[e as int] == StateV::Epsilon(UNPATCHED));
            assert(post.states[cf.end as int] == mid2.states[cf.end as int]);
            assert forall|i: int| lo <= i < hi implies state_in_region(
                #[trigger] post.states[i],
                lo,
                hi,
            ) by {
                if i == sp as int {
                    assert forall|j: int|
                        0 <= j < post.states[sp as int].out_targets().len() implies (lo <= (
                    #[trigger] post.states[sp as int].out_targets()[j]) < hi
                        || post.states[sp as int].out_targets()[j] == UNPATCHED) by {
                        assert(post.states[sp as int].out_targets()[j] == tseq[j]);
                        assert(tseq[j] == cf.start || tseq[j] == e);
                    }
                } else if i < cur.states.len() {
                    assert(post.states[i] == cur.states[i]);
                    assert(state_in_region(cur.states[i], lo, cur.states.len() as int));
                } else if i < mid2.states.len() {
                    assert(post.states[i] == mid2.states[i]);
                    assert(state_in_region(mid2.states[i], cur.states.len() as int,
                        mid2.states.len() as int));
                }
            }
            assert forall|i: int| lo <= i < hi && i != cf.end && i != e implies state_patched(
                #[trigger] post.states[i],
            ) by {
                if i == sp as int {
                    assert forall|j: int|
                        0 <= j < post.states[sp as int].out_targets().len() implies (
                    #[trigger] post.states[sp as int].out_targets()[j]) != UNPATCHED by {
                        assert(post.states[sp as int].out_targets()[j] == tseq[j]);
                        assert(tseq[j] == cf.start || tseq[j] == e);
                    }
                } else if i < cur.states.len() {
                    assert(post.states[i] == cur.states[i]);
                } else if i < mid2.states.len() {
                    assert(post.states[i] == mid2.states[i]);
                }
            }
            assert forall|i: int| lo <= i < hi implies !((#[trigger] post.states[i])
                is Match) by {
                if i == sp as int {
                } else if i < cur.states.len() {
                    assert(post.states[i] == cur.states[i]);
                } else if i < mid2.states.len() {
                    assert(post.states[i] == mid2.states[i]);
                }
            }
            assert(dangling_state(post.states[cf.end as int]));
        },
    }
}

/// Closing the assembly: the running fragment's end is connected to the
/// shared exit, which becomes the finished fragment's dangling end.
pub proof fn lemma_close_exit(pre: NfaV, cur: NfaV, post: NfaV, f: Fragment, e: StateId)
    requires
        frag_with_exit(pre, cur, f, e),
        post.states.len() == cur.states.len(),
        forall|i: int| 0 <= i < post.states.len() && i != f.end ==> post.states[i] == cur.states[i],
        connect_effect(cur.states[f.end as int], post.states[f.end as int], e),
        post.start == cur.start,
        post.accepting == cur.accepting,
    ensures
        frag_ok(pre, post, Fragment { start: f.start, end: e }),
{
    lemma_connect_end(cur, post, f.end, e);
    lemma_reaches_preserved(cur, post, f.start, f.end);
    post.lemma_edge_reaches(f.end, e);
    post.lemma_reaches_trans(f.start, f.end, e);
    let lo = pre.states.len() as int;
    let hi = post.states.len() as int;
    assert(post.states[e as int] == StateV::Epsilon(UNPATCHED));
    assert(post.states[e as int].out_targets() =~= seq![UNPATCHED]);
    assert forall|i: int| lo <= i < hi implies state_in_region(
        #[trigger] post.states[i],
        lo,
        hi,
    ) by {
        if i == f.end {
            let tp = post.states[f.end as int].out_targets();
            let tm = cur.states[f.end as int].out_targets();
            assert forall|j: int| 0 <= j < tp.len() implies (lo <= (#[trigger] tp[j]) < hi || tp[j]
                == UNPATCHED) by {
                if tp[j] == e {
                } else {
                    assert(tp[j] == tm[j]);
                    assert(state_in_region(cur.states[f.end as int], lo, cur.states.len() as int));
                }
            }
        } else {
            assert(post.states[i] == cur.states[i]);
            assert(state_in_region(cur.states[i], lo, cur.states.len() as int));
        }
    }
    assert forall|i: int| lo <= i < hi && i != e implies state_patched(
        #[trigger] post.states[i],
    ) by {
        if i != f.end {
            assert(post.states[i] == cur.states[i]);
        }
    }
    assert forall|i: int| lo <= i < hi implies !((#[trigger] post.states[i]) is Match) by {
        if i != f.end {
            assert(post.states[i] == cur.states[i]);
        }
    }
    assert forall|i: int| 0 <= i < pre.states.len() implies post.states[i] == pre.states[i] by {
        assert(post.states[i] == cur.states[i]);
    }
}

/// The unbounded tail of a counted repetition: one more copy sits behind
/// a split that loops it back to itself or leaves for the shared exit;
/// the running fragment's end and the copy's end both join the split.
pub proof fn lemma_unbounded_tail(
    pre: NfaV,
    cur: NfaV,
    mid2: NfaV,
    mid3: NfaV,
    post1: NfaV,
    post2: NfaV,
    mand: Fragment,
    loopf: Fragment,
    e: StateId,
    sp: StateId,
    tseq: Seq<StateId>,
)
    requires
        frag_with_exit(pre, cur, mand, e),
        frag_ok(cur, mid2, loopf),
        loopf.end != e,
        sp == mid2.states.len(),
        sp != UNPATCHED,
        mid3.states =~= mid2.states.push(StateV::Split(tseq)),
        mid3.start == mid2.start,
        mid3.accepting == mid2.accepting,
        tseq.len() == 2,
        tseq[0] == loopf.start,
        tseq[1] == e,
        post1.states.len() == mid3.states.len(),
        forall|i: int|
            0 <= i < post1.states.len() && i != mand.end ==> post1.states[i] == mid3.states[i],
        connect_effect(mid3.states[mand.end as int], post1.states[mand.end as int], sp),
        post1.start == mid3.start,
        post1.accepting == mid3.accepting,
        mand.end != loopf.end,
        post2.states.len() == post1.states.len(),
        forall|i: int|
            0 <= i < post2.states.len() && i != loopf.end ==> post2.states[i] == post1.states[i],
        connect_effect(post1.states[loopf.end as int], post2.states[loopf.end as int], sp),
        post2.start == post1.start,
        post2.accepting == post1.accepting,
    ensures
        frag_ok(pre, post2, Fragment { start: mand.start, end: e }),
{
    lemma_edges_preserved_extend(cur, mid3);
    assert(mid3.states[mand.end as int] == cur.states[mand.end as int]);
    lemma_connect_end(mid3, post1, mand.end, sp);
    assert(post1.states[loopf.end as int] == mid2.states[loopf.end as int]);
    lemma_connect_end(post1, post2, loopf.end, sp);
    lemma_reaches_preserved(cur, mid3, mand.start, mand.end);
    lemma_reaches_preserved(mid3, post1, mand.start, mand.end);
    lemma_reaches_preserved(post1, post2, mand.start, mand.end);
    assert(post2.states[sp as int] == StateV::Split(tseq));
    assert(post2.edge(sp, e)) by {
        assert(post2.states[sp as int].out_targets()[1] == e);
    }
    assert(post2.edge(mand.end, sp)) by {
        assert(post1.edge(mand.end, sp));
    }
    post2.lemma_edge_reaches(mand.end, sp);
    post2.lemma_edge_reaches(sp, e);
    post2.lemma_reaches_trans(mand.start, mand.end, sp);
    post2.lemma_reaches_trans(mand.start, sp, e);
    let lo = pre.states.len() as int;
    let hi = post2.states.len() as int;
    assert(post2.states[e as int] == StateV::Epsilon(UNPATCHED));
    assert(post2.states[e as int].out_targets() =~= seq![UNPATCHED]);
    assert forall|i: int| lo <= i < hi implies state_in_region(
        #[trigger] post2.states[i],
        lo,
        hi,
    ) by {
        if i == mand.end {
            let tp = post2.states[mand.end as int].out_targets();
            let tm = mid3.states[mand.end as int].out_targets();
            assert(post2.states[mand.end as int] == post1.states[mand.end as int]);
            assert forall|j: int| 0 <= j < tp.len() implies (lo <= (#[trigger] tp[j]) < hi || tp[j]
                == UNPATCHED) by {
                if tp[j] == sp {
                } else {
                    assert(tp[j] == tm[j]);
                    assert(state_in_region(cur.states[mand.end as int], lo,
                        cur.states.len() as int));
                }
            }
        } else if i == loopf.end {
            let tp = post2.states[loopf.end as int].out_targets();
            let tm = mid2.states[loopf.end as int].out_targets();
            assert forall|j: int| 0 <= j < tp.len() implies (lo <= (#[trigger] tp[j]) < hi || tp[j]
                == UNPATCHED) by {
                if tp[j] == sp {
                } else {
                    assert(tp[j] == tm[j]);
                    assert(state_in_region(mid2.states[loopf.end as int],
                        cur.states.len() as int, mid2.states.len() as int));
                }
            }
        } else if i == sp as int {
            assert forall|j: int|
                0 <= j < post2.states[sp as int].out_targets().len() implies (lo <= (
            #[trigger] post2.states[sp as int].out_targets()[j]) < hi
                || post2.states[sp as int].out_targets()[j] == UNPATCHED) by {
                assert(post2.states[sp as int].out_targets()[j] == tseq[j]);
                assert(tseq[j] == loopf.start || tseq[j] == e);
            }
        } else if i < cur.states.len() {
            assert(post2.states[i] == cur.states[i]);
            assert(state_in_region(cur.states[i], lo, cur.states.len() as int));
        } else if i < mid2.states.len() {
            assert(post2.states[i] == mid2.states[i]);
            assert(state_in_region(mid2.states[i], cur.states.len() as int,
                mid2.states.len() as int));
        }
    }
    assert forall|i: int| lo <= i < hi && i != e implies state_patched(
        #[trigger] post2.states[i],
    ) by {
        if i == mand.end || i == loopf.end {
        } else if i == sp as int {
            assert forall|j: int|
                0 <= j < post2.states[sp as int].out_targets().len() implies (
            #[trigger] post2.states[sp as int].out_targets()[j]) != UNPATCHED by {
                assert(post2.states[sp as int].out_targets()[j] == tseq[j]);
                assert(tseq[j] == loopf.start || tseq[j] == e);
            }
        } else if i < cur.states.len() {
            assert(post2.states[i] == cur.states[i]);
        } else if i < mid2.states.len() {
            assert(post2.states[i] == mid2.states[i]);
        }
    }
    assert forall|i: int| lo <= i < hi implies !((#[trigger] post2.states[i]) is Match) by {
        if i == mand.end || i == loopf.end || i == sp as int {
        } else if i < cur.states.len() {
            assert(post2.states[i] == cur.states[i]);
        } else if i < mid2.states.len() {
            assert(post2.states[i] == mid2.states[i]);
        }
    }
    assert forall|i: int| 0 <= i < pre.states.len() implies post2.states[i] == pre.states[i] by {
        assert(mand.end >= pre.states.len() && loopf.end >= pre.states.len());
        assert(post2.states[i] == cur.states[i]);
    }
    assert(dangling_state(post2.states[e as int]));
}


/// Sets every transition's lookahead to a set predicate over `rgs`.
fn set_lookaheads(transitions: &mut Vec<TwoCharTransition>, rgs: &Vec<CharRange>)
    ensures
        final(transitions)@.len() == old(transitions)@.len(),
        forall|j: int|
            0 <= j < old(transitions)@.len() ==> {
                let t_old = (#[trigger] old(transitions)@[j])@;
                let t_new = (final(transitions)@[j])@;
                &&& t_new.current == t_old.current
                &&& t_new.target == t_old.target
                &&& t_new.lookahead == Some(PredV::CharSet(rgs@))
            },
{
    let ghost orig = transitions@;
    let n = transitions.len();
    let mut i: usize = 0;
    while i < n
        invariant
            0 <= i <= n,
            n == orig.len(),
            transitions@.len() == orig.len(),
            forall|j: int|
                0 <= j < i ==> {
                    let t_old = (#[trigger] orig[j])@;
                    let t_new = (transitions@[j])@;
                    &&& t_new.current == t_old.current
                    &&& t_new.target == t_old.target
                    &&& t_new.lookahead == Some(PredV::CharSet(rgs@))
                },
            forall|j: int| i <= j < orig.len() ==> transitions@[j] == (#[trigger] orig[j]),
        decreases n - i,
    {
        let mut t = transitions.remove(i);
        t.lookahead = Some(CharacterPredicate::CharSet(crate::nfa::clone_ranges(rgs)));
        transitions.insert(i, t);
        i += 1;
    }
}

/// Sets an end-of-input lookahead (a negated predicate over every
/// symbol) on every transition that targets `end`.
fn set_end_anchor_lookaheads(transitions: &mut Vec<TwoCharTransition>, end: StateId)
    ensures
        final(transitions)@.len() == old(transitions)@.len(),
        forall|j: int|
            0 <= j < old(transitions)@.len() ==> end_anchored_trans(
                (#[trigger] old(transitions)@[j])@,
                (final(transitions)@[j])@,
                end,
            ),
{
    let lo_c = match std::primitive::char::from_u32(0) {
        Some(c) => c,
        None => {
            proof {
                assert(false);
            }
            ' '
        },
    };
    let hi_c = match std::primitive::char::from_u32(0x10FFFF) {
        Some(c) => c,
        None => {
            proof {
                assert(false);
            }
            ' '
        },
    };
    let ghost orig = transitions@;
    let n = transitions.len();
    let mut i: usize = 0;
    while i < n
        invariant
            0 <= i <= n,
            n == orig.len(),
            transitions@.len() == orig.len(),
            lo_c as u32 == 0,
            hi_c as u32 == 0x10FFFF,
            forall|j: int|
                0 <= j < i ==> end_anchored_trans(
                    (#[trigger] orig[j])@,
                    (transitions@[j])@,
                    end,
                ),
            forall|j: int| i <= j < orig.len() ==> transitions@[j] == (#[trigger] orig[j]),
        decreases n - i,
    {
        if transitions[i].target == end {
            let mut rv: Vec<CharRange> = Vec::new();
            rv.push(CharRange::new(lo_c, hi_c));
            proof {
                assert forall|x: char| crate::nfa::char_in_ranges(rv@, x) by {
                    vstd::utf8::char_is_scalar(x);
                    assert(rv@[0].lo as u32 <= x as u32 && x as u32 <= rv@[0].hi as u32);
                }
                assert(covers_all(rv@));
            }
            let ghost rvv = rv@;
            let mut t = transitions.remove(i);
            t.lookahead = Some(CharacterPredicate::NotCharSet(rv));
            transitions.insert(i, t);
            proof {
                assert((transitions@[i as int])@.lookahead == Some(PredV::NotCharSet(rvv)));
            }
        }
        i += 1;
    }
}

/// A lookahead-augmented state keeps every target and its kind.
pub proof fn lemma_augmented_targets(s_old: StateV, s_new: StateV, cs: Seq<char>)
    requires
        augmented_state(s_old, s_new, cs),
    ensures
        s_new.out_targets() == s_old.out_targets(),
        s_new is Transitions <==> s_old is Transitions,
        s_new is Match <==> s_old is Match,
        !(s_old is Transitions) ==> s_new == s_old,
{
    match s_old {
        StateV::Transitions(ts) => {
            match s_new {
                StateV::Transitions(ts2) => {
                    assert(s_new.out_targets() =~= s_old.out_targets()) by {
                        assert forall|j: int| 0 <= j < ts.len() implies (#[trigger] ts2[j]).target
                            == ts[j].target by {
                            assert(augmented_trans(ts[j], ts2[j], cs));
                        }
                    }
                },
                _ => {
                    assert(false);
                },
            }
        },
        _ => {},
    }
}

/// An end-anchored state keeps every target and its kind.
pub proof fn lemma_end_anchored_targets(s_old: StateV, s_new: StateV, end: StateId)
    requires
        end_anchored_state(s_old, s_new, end),
    ensures
        s_new.out_targets() == s_old.out_targets(),
        s_new is Transitions <==> s_old is Transitions,
        s_new is Match <==> s_old is Match,
        !(s_old is Transitions) ==> s_new == s_old,
{
    match s_old {
        StateV::Transitions(ts) => {
            match s_new {
                StateV::Transitions(ts2) => {
                    assert(s_new.out_targets() =~= s_old.out_targets()) by {
                        assert forall|j: int| 0 <= j < ts.len() implies (#[trigger] ts2[j]).target
                            == ts[j].target by {
                            assert(end_anchored_trans(ts[j], ts2[j], end));
                        }
                    }
                },
                _ => {
                    assert(false);
                },
            }
        },
        _ => {},
    }
}

/// What the public compiler states of a possessive tree: when the whole
/// tree is a possessive `+`, the start state is the possessive node; when
/// it is a possessive `*`, the start state is the split that enters the
/// possessive node first and bypasses it second.
pub open spec fn compile_possessive_boundary(h: Hir, v: NfaV) -> bool {
    match h {
        Hir::Repetition(rp) => rp.kind is Possessive ==> {
            &&& (rp.min == 1 && rp.max is None ==> exists|ex: StateId|
                #[trigger] possessive_node_at(v, v.start, ex, *rp.sub))
            &&& (rp.min == 0 && rp.max is None ==> exists|e2: StateId|
                #[trigger] possessive_star_at(v, Fragment { start: v.start, end: e2 }, *rp.sub))
        },
        _ => true,
    }
}

/// The complete NFA a non-empty top-level literal compiles to: one
/// single-transition state per symbol, chained from state 0 on, each
/// consuming its symbol with no lookahead and moving to the next state,
/// and the final match state right after the chain.
pub open spec fn literal_nfa_ok(v: NfaV, cs: Seq<char>) -> bool {
    &&& v.states.len() == cs.len() + 1
    &&& v.start == 0
    &&& v.states[cs.len() as int] is Match
    &&& forall|k: int|
        0 <= k < cs.len() ==> ((#[trigger] v.states[k]) matches StateV::Transitions(ts)
            && ts.len() == 1 && ts[0].current == PredV::Char(cs[k]) && ts[0].lookahead is None
            && ts[0].target == (k + 1) as StateId)
}

/// What the public compiler states of a literal tree: a non-empty
/// literal compiles to exactly its transition chain ending in the match
/// state — and, consequently, the automaton matches the literal itself
/// in full under the matcher's simulation semantics.
pub open spec fn compile_literal_boundary(h: Hir, v: NfaV) -> bool {
    match h {
        Hir::Literal(l) => l@.len() > 0 ==> (literal_nfa_ok(v, l@) && v.match_at_spec(l@, 0)
            == Some(l@.len() as int)),
        _ => true,
    }
}


/// The epsilon closure of a single state with no non-consuming edges is
/// that state alone.
proof fn lemma_closure_of_singleton(v: NfaV, s0: StateId)
    requires
        v.eps_targets(s0).len() == 0,
    ensures
        v.closure_of(set![s0]) =~= set![s0],
{
    assert(v.eps_closed(set![s0])) by {
        assert forall|s: StateId, j: int|
            #![trigger set![s0].contains(s), v.eps_targets(s)[j]]
            set![s0].contains(s) && 0 <= j < v.eps_targets(s).len() implies set![s0].contains(
            v.eps_targets(s)[j],
        ) by {
            assert(s == s0);
        }
    }
    assert forall|x: StateId| v.in_closure(set![s0], x) implies set![s0].contains(x) by {
        assert(set![s0].subset_of(set![s0]));
    }
    assert forall|x: StateId| set![s0].contains(x) implies v.in_closure(set![s0], x) by {
        assert forall|c: Set<StateId>|
            set![s0].subset_of(c) && v.eps_closed(c) implies c.contains(x) by {
            assert(c.contains(s0));
        }
    }
}

/// Running the simulation down a literal chain from position `k` in its
/// own state `k` accepts exactly at the end of the literal.
proof fn lemma_literal_chain_run(v: NfaV, cs: Seq<char>, k: int)
    requires
        literal_nfa_ok(v, cs),
        v.accepting_ok(),
        0 <= k <= cs.len(),
    ensures
        v.best_from(set![k as StateId], cs, k) == Some(cs.len() as int),
    decreases cs.len() - k,
{
    let kk = k as StateId;
    if k == cs.len() {
        assert(v.any_accepting(set![kk])) by {
            assert(v.states[k] is Match);
            assert(v.accepting.contains(kk));
            assert(set![kk].contains(kk));
        }
    } else {
        assert(!v.any_accepting(set![kk])) by {
            if v.any_accepting(set![kk]) {
                let s = choose|s: StateId| set![kk].contains(s) && v.accepting.contains(s);
                assert(s == kk);
                let j = choose|j: int| 0 <= j < v.accepting.len() && v.accepting[j] == kk;
                assert(v.states[kk as int] is Match);
                assert(v.states[k] is Transitions);
            }
        }
        let ts0 = match v.states[k] {
            StateV::Transitions(ts) => ts[0],
            _ => choose|tv: TransV| #[trigger] (tv.target) == tv.target,
        };
        assert(ts0.current == PredV::Char(cs[k]) && ts0.lookahead is None && ts0.target == (k
            + 1) as StateId);
        // the transitions available from state set {k} are exactly {ts0}
        assert(v.trans_of_set(set![kk]) =~= set![ts0]) by {
            assert forall|tv: TransV| v.trans_of_set(set![kk]).contains(tv) implies set![
                ts0,
            ].contains(tv) by {
                let s = choose|s: StateId|
                    #![trigger set![kk].contains(s)]
                    set![kk].contains(s) && s < v.states.len() && (v.states[s as int] matches
                    StateV::Transitions(ts) && ts.contains(tv));
                assert(s == kk);
                match v.states[k] {
                    StateV::Transitions(ts) => {
                        let j = choose|j: int| 0 <= j < ts.len() && ts[j] == tv;
                        assert(j == 0);
                    },
                    _ => {
                        assert(false);
                    },
                }
            }
            assert(set![kk].contains(kk));
            match v.states[k] {
                StateV::Transitions(ts) => {
                    assert(ts.contains(ts0)) by {
                        assert(ts[0] == ts0);
                    }
                    assert(v.trans_of_set(set![kk]).contains(ts0));
                },
                _ => {
                    assert(false);
                },
            }
        }
        // the transition fires on cs[k] and nothing else is reachable
        let stepped = v.step_set(set![kk], cs[k], la_of(cs, k));
        assert(crate::nfa::trans_matches(ts0, cs[k], la_of(cs, k)));
        assert(stepped =~= set![(k + 1) as StateId]) by {
            assert forall|t: StateId| stepped.contains(t) implies set![
                (k + 1) as StateId,
            ].contains(t) by {
                let tv = choose|tv: TransV|
                    #[trigger] v.trans_of_set(set![kk]).contains(tv) && crate::nfa::trans_matches(
                        tv,
                        cs[k],
                        la_of(cs, k),
                    ) && tv.target == t;
                assert(tv == ts0);
            }
            assert(v.trans_of_set(set![kk]).contains(ts0));
            assert(stepped.contains((k + 1) as StateId));
        }
        // its closure is itself: state k+1 is a transitions node or the match
        assert(v.eps_targets((k + 1) as StateId).len() == 0) by {
            if k + 1 < cs.len() {
                assert(v.states[k + 1] is Transitions);
            } else {
                assert(v.states[k + 1] is Match);
            }
        }
        lemma_closure_of_singleton(v, (k + 1) as StateId);
        assert(v.closure_of(stepped) =~= v.closure_of(set![(k + 1) as StateId]));
        lemma_literal_chain_run(v, cs, k + 1);
        assert(v.best_from(v.closure_of(stepped), cs, k + 1) == Some(cs.len() as int));
    }
}

/// A compiled non-empty literal matches itself in full: simulated on its
/// own symbols from the start, the automaton accepts exactly at the end.
pub proof fn lemma_literal_matches_itself(v: NfaV, cs: Seq<char>)
    requires
        literal_nfa_ok(v, cs),
        v.accepting_ok(),
        cs.len() > 0,
    ensures
        v.match_at_spec(cs, 0) == Some(cs.len() as int),
{
    assert(v.eps_targets(0).len() == 0) by {
        assert(v.states[0] is Transitions);
    }
    lemma_closure_of_singleton(v, 0);
    assert(v.closure_of(set![v.start]) =~= v.closure_of(set![0usize]));
    lemma_literal_chain_run(v, cs, 0);
    assert(v.best_from(v.closure_of(set![v.start]), cs, 0) == Some(cs.len() as int));
}


/// The complete NFA the empty pattern compiles to: one epsilon into the
/// match state.
pub open spec fn empty_nfa_ok(v: NfaV) -> bool {
    &&& v.states.len() == 2
    &&& v.start == 0
    &&& v.states[0] == StateV::Epsilon(1)
    &&& v.states[1] is Match
}

/// What the public compiler states of the empty pattern: its automaton
/// is the single epsilon into the match state, and it matches every
/// input at position 0 with zero length.
pub open spec fn compile_empty_boundary(h: Hir, v: NfaV) -> bool {
    match h {
        Hir::Empty => empty_nfa_ok(v) && (forall|chars: Seq<char>|
            #[trigger] v.match_at_spec(chars, 0) == Some(0int) && v.find_spec(chars) == Some(
                (0int, 0int),
            )),
        _ => true,
    }
}

/// The empty pattern's automaton matches every input at position 0 with
/// zero length, and that is also its leftmost find.
pub proof fn lemma_empty_matches_everywhere(v: NfaV, chars: Seq<char>)
    requires
        empty_nfa_ok(v),
        v.accepting_ok(),
    ensures
        v.match_at_spec(chars, 0) == Some(0int),
        v.find_spec(chars) == Some((0int, 0int)),
{
    let c01: Set<StateId> = set![0usize, 1usize];
    assert(v.eps_targets(0usize) =~= seq![1usize]) by {
        assert(v.states[0] == StateV::Epsilon(1));
    }
    assert(v.eps_targets(1usize) =~= Seq::<StateId>::empty()) by {
        assert(v.states[1] is Match);
    }
    assert(v.eps_closed(c01)) by {
        assert forall|s: StateId, j: int|
            #![trigger c01.contains(s), v.eps_targets(s)[j]]
            c01.contains(s) && 0 <= j < v.eps_targets(s).len() implies c01.contains(
            v.eps_targets(s)[j],
        ) by {
            if s == 0usize {
                assert(v.eps_targets(s)[j] == 1usize);
            }
        }
    }
    assert(v.closure_of(set![0usize]) =~= c01) by {
        assert forall|x: StateId| v.in_closure(set![0usize], x) implies c01.contains(x) by {
            assert(set![0usize].subset_of(c01));
        }
        assert forall|x: StateId| c01.contains(x) implies v.in_closure(set![0usize], x) by {
            assert forall|c: Set<StateId>|
                set![0usize].subset_of(c) && v.eps_closed(c) implies c.contains(x) by {
                assert(c.contains(0usize));
                assert(v.eps_targets(0usize)[0] == 1usize);
                assert(c.contains(v.eps_targets(0usize)[0]));
            }
        }
    }
    assert(v.any_accepting(c01)) by {
        assert(v.accepting.contains(1usize));
        assert(c01.contains(1usize));
    }
    assert(v.start == 0usize);
    if chars.len() > 0 {
        assert(v.trans_of_set(c01) =~= Set::<TransV>::empty()) by {
            assert forall|tv: TransV| v.trans_of_set(c01).contains(tv) implies false by {
                let s = choose|s: StateId|
                    #![trigger c01.contains(s)]
                    c01.contains(s) && s < v.states.len() && (v.states[s as int] matches
                    StateV::Transitions(ts) && ts.contains(tv));
                assert(s == 0usize || s == 1usize);
            }
        }
        let stepped = v.step_set(c01, chars[0], la_of(chars, 0));
        assert(stepped =~= Set::<StateId>::empty()) by {
            assert forall|t: StateId| stepped.contains(t) implies false by {
                let tv = choose|tv: TransV|
                    #[trigger] v.trans_of_set(c01).contains(tv) && crate::nfa::trans_matches(
                        tv,
                        chars[0],
                        la_of(chars, 0),
                    ) && tv.target == t;
            }
        }
        assert(v.closure_of(stepped) =~= Set::<StateId>::empty()) by {
            assert forall|x: StateId| v.in_closure(stepped, x) implies false by {
                assert(stepped.subset_of(Set::<StateId>::empty()));
                assert(v.eps_closed(Set::<StateId>::empty()));
                assert(!Set::<StateId>::empty().contains(x));
            }
        }
        crate::matcher::lemma_best_from_empty(v, chars, 1);
        assert(v.best_from(v.closure_of(stepped), chars, 1) is None);
    }
    assert(v.match_at_spec(chars, 0) == Some(0int));
    assert(v.find_from(chars, 0) == Some((0int, 0int)));
}

/// A compiled NFA is structurally sound: every transition target is a
/// real state, the accepting set holds exactly the one match state, and
/// that state is reachable from the start state.
pub open spec fn compiled_ok(nfa: NfaV) -> bool {
    &&& nfa.wf()
    &&& nfa.accepting_ok()
    &&& nfa.start < nfa.states.len()
    &&& exists|m: StateId|
        m < nfa.states.len() && (#[trigger] nfa.states[m as int]) is Match && nfa.reaches(
            nfa.start,
            m,
        )
    &&& forall|s: int, s2: int|
        #![trigger nfa.states[s], nfa.states[s2]]
        0 <= s < nfa.states.len() && 0 <= s2 < nfa.states.len() && nfa.states[s] is Match
            && nfa.states[s2] is Match ==> s == s2
}


/// No sentinel survives compilation: in a structurally sound NFA every
/// target of every state is a real state identifier, never `UNPATCHED`.
pub proof fn lemma_no_unpatched_survives(nfa: &NFA, s: int, j: int)
    requires
        compiled_ok(nfa@),
        0 <= s < nfa@.states.len(),
        0 <= j < nfa@.states[s].out_targets().len(),
    ensures
        nfa@.states[s].out_targets()[j] < nfa@.states.len(),
        nfa@.states[s].out_targets()[j] != UNPATCHED,
{
    broadcast use vstd::std_specs::vec::axiom_spec_len;

    assert(state_targets_valid(nfa@.states[s], nfa@.states.len() as int));
    assert(vstd::std_specs::vec::spec_vec_len(&nfa.states) == nfa.states@.len());
    assert(nfa@.states.len() == nfa.states@.len());
}

impl Default for Compiler {
    /// A fresh compiler, as `Compiler::new` gives.
    fn default() -> (c: Self)
        ensures
            c@.states.len() == 0,
            c@.accepting.len() == 0,
            c@.start == 0,
    {
        Compiler::new()
    }
}

/// After connecting a dangling state `end` to a real target `to`: every
/// old edge survives, `end` gains an edge to `to`, `end` is fully patched,
/// each of its targets is an old one or `to`, and it is still no `Match`.
pub proof fn lemma_connect_end(pre: NfaV, post: NfaV, end: StateId, to: StateId)
    requires
        end < pre.states.len(),
        to < pre.states.len(),
        to != UNPATCHED,
        dangling_state(pre.states[end as int]),
        post.states.len() == pre.states.len(),
        forall|i: int| 0 <= i < post.states.len() && i != end ==> post.states[i] == pre.states[i],
        connect_effect(pre.states[end as int], post.states[end as int], to),
        post.start == pre.start,
        post.accepting == pre.accepting,
    ensures
        edges_preserved(pre, post),
        post.edge(end, to),
        state_patched(post.states[end as int]),
        !(post.states[end as int] is Match),
        post.states[end as int].out_targets().len() >= pre.states[end as int].out_targets().len(),
        forall|j: int|
            0 <= j < post.states[end as int].out_targets().len()
                ==> (#[trigger] post.states[end as int].out_targets()[j]) == to || (0 <= j
                < pre.states[end as int].out_targets().len() && post.states[
                end as int].out_targets()[j] == pre.states[end as int].out_targets()[j]),
{
    lemma_edges_preserved_connect(pre, post, end, to);
    let s_old = pre.states[end as int];
    let s_new = post.states[end as int];
    match s_old {
        StateV::Epsilon(_) => {
            assert(s_new.out_targets() =~= seq![to]);
            assert(s_new.out_targets().contains(to));
        },
        StateV::Transitions(ts) => {
            let ts2 = ts.map_values(|t: TransV| crate::nfa::patch_transition(t, to));
            assert(s_new == StateV::Transitions(ts2));
            let j = choose|j: int| 0 <= j < ts.len() && (#[trigger] ts[j]).target == UNPATCHED;
            assert(ts2[j].target == to);
            assert(s_new.out_targets()[j] == to);
            assert(s_new.out_targets().contains(to));
            assert forall|k: int| 0 <= k < s_new.out_targets().len() implies (
            #[trigger] s_new.out_targets()[k]) == to || (0 <= k < s_old.out_targets().len()
                && s_new.out_targets()[k] == s_old.out_targets()[k]) by {
                assert(ts2[k] == crate::nfa::patch_transition(ts[k], to));
            }
            assert forall|k: int| 0 <= k < s_new.out_targets().len() implies (
            #[trigger] s_new.out_targets()[k]) != UNPATCHED by {
                assert(ts2[k] == crate::nfa::patch_transition(ts[k], to));
            }
        },
        _ => {},
    }
}

/// An already finished fragment survives further building: its states are
/// untouched, so its end stays dangling and its path stays intact.
pub proof fn lemma_frag_persists(pre: NfaV, mid: NfaV, post: NfaV, f: Fragment)
    requires
        frag_ok(pre, mid, f),
        mid.states.len() <= post.states.len(),
        forall|i: int| 0 <= i < mid.states.len() ==> post.states[i] == mid.states[i],
    ensures
        dangling_state(post.states[f.end as int]),
        post.reaches(f.start, f.end),
{
    lemma_edges_preserved_extend(mid, post);
    lemma_reaches_preserved(mid, post, f.start, f.end);
}

// ---------------------------------------------------------------------
// The compiler.
// ---------------------------------------------------------------------
/// Compiler that lowers a regex tree into a two-character Thompson NFA.
pub struct Compiler {
    nfa: NFA,
}

impl View for Compiler {
    type V = NfaV;

    closed spec fn view(&self) -> NfaV {
        self.nfa@
    }
}

impl Compiler {
    /// Create a new compiler with an empty NFA.
    pub fn new() -> (c: Self)
        ensures
            c@.states.len() == 0,
            c@.accepting.len() == 0,
            c@.start == 0,
    {
        Compiler { nfa: NFA::new() }
    }

    /// Compile the empty expression: exactly one dangling epsilon is
    /// appended, and the fragment starts and ends there.
    pub fn compile_empty(&mut self) -> (f: Fragment)
        ensures
            frag_ok(old(self)@, final(self)@, f),
            f.start == f.end,
            f.start == old(self)@.states.len(),
            final(self)@.states =~= old(self)@.states.push(StateV::Epsilon(UNPATCHED)),
    {
        let ghost pre = self@;
        let start = self.nfa.epsilon(UNPATCHED);
        proof {
            let post = self@;
            assert(post.states[start as int] == StateV::Epsilon(UNPATCHED));
            assert(state_in_region(post.states[start as int], pre.states.len() as int,
                post.states.len() as int)) by {
                assert(post.states[start as int].out_targets() =~= seq![UNPATCHED]);
            }
            post.lemma_reaches_refl(start);
        }
        Fragment { start, end: start }
    }

    /// Compile a literal: one transition state per symbol, chained in
    /// sequence. An empty literal lowers to the empty fragment.
    pub fn compile_literal(&mut self, literal: &Vec<char>) -> (r: CompileResult<Fragment>)
        ensures
            r matches Ok(f) && frag_ok(old(self)@, final(self)@, f),
            literal@.len() > 0 ==> (r matches Ok(f) ==> {
                &&& f.start == old(self)@.states.len()
                &&& f.end == f.start + literal@.len() - 1
                &&& final(self)@.states.len() == old(self)@.states.len() + literal@.len()
                &&& forall|k: int|
                    0 <= k < literal@.len() ==> #[trigger] lit_ok_at(
                        final(self)@,
                        f.start as int,
                        literal@,
                        k,
                    )
            }),
    {
        let ghost pre = self@;
        if literal.len() == 0 {
            return Ok(self.compile_empty());
        }
        let first = self.nfa.transition_state(TwoCharTransition::char(literal[0], UNPATCHED));
        proof {
            lemma_fresh_transition_state(pre, self@, first, PredV::Char(literal@[0]), None);
            self@.lemma_reaches_refl(first);
            assert(lit_ok_at(self@, first as int, literal@.subrange(0, 1), 0)) by {
                assert(literal@.subrange(0, 1)[0] == literal@[0]);
                assert(self@.states[first as int] matches StateV::Transitions(ts) && ts.len() == 1
                    && ts[0].current == PredV::Char(literal@[0]) && ts[0].lookahead is None
                    && ts[0].target == UNPATCHED);
            }
        }
        let mut prev = first;
        let mut i: usize = 1;
        while i < literal.len()
            invariant
                1 <= i <= literal@.len(),
                first == pre.states.len(),
                prev == first + i - 1,
                self@.states.len() == first + i,
                frag_ok(pre, self@, Fragment { start: first, end: prev }),
                forall|k: int|
                    0 <= k < i ==> #[trigger] lit_ok_at(
                        self@,
                        first as int,
                        literal@.subrange(0, i as int),
                        k,
                    ),
            decreases literal@.len() - i,
        {
            let ghost mid = self@;
            let s = self.nfa.transition_state(TwoCharTransition::char(literal[i], UNPATCHED));
            proof {
                lemma_fresh_transition_state(
                    mid,
                    self@,
                    s,
                    PredV::Char(literal@[i as int]),
                    None,
                );
                lemma_frag_persists(pre, mid, self@, Fragment { start: first, end: prev });
            }
            let ghost mid2 = self@;
            self.nfa.connect(prev, s);
            proof {
                lemma_connect_end(mid2, self@, prev, s);
                lemma_chain_step(pre, mid, mid2, self@, first, prev, s);
                lemma_literal_step(mid, mid2, self@, literal@, first as int, i as int, s);
            }
            prev = s;
            i += 1;
        }
        proof {
            assert(literal@.subrange(0, literal@.len() as int) =~= literal@);
        }
        Ok(Fragment { start: first, end: prev })
    }

    /// Compile a character class into a single transitions node. A class
    /// that yields no transition at all is rejected: its fragment could
    /// never reach the match state.
    fn compile_class(&mut self, class: &ClassKind) -> (r: CompileResult<Fragment>)
        ensures
            match r {
                Ok(f) => frag_ok(old(self)@, final(self)@, f) && class_nonempty(*class)
                    && f.start == f.end && class_state_ok(old(self)@, final(self)@, f, *class),
                Err(e) => err_kind(e) is Unsupported && !class_nonempty(*class),
            },
    {
        let ghost pre = self@;
        let transitions = match class {
            ClassKind::Unicode(rs) => self.compile_unicode_class(rs)?,
            ClassKind::Bytes(rs) => self.compile_bytes_class(rs)?,
        };
        let ghost mid = self@;
        if transitions.len() == 0 {
            return Err(CompileError::UnsupportedFeature("empty character class".to_owned()));
        }
        let ghost tsrc = transitions@;
        let ghost tsv = transitions@.map_values(|t: TwoCharTransition| t@);
        let id = self.nfa.transitions_state(transitions);
        proof {
            let post = self@;
            assert(post.states[id as int] == StateV::Transitions(tsv));
            let j = choose|j: int| 0 <= j < tsrc.len() && (#[trigger] tsrc[j])@.target == UNPATCHED;
            assert(tsv[j] == tsrc[j]@);
            assert(tsv[j].target == UNPATCHED);
            assert(dangling_state(post.states[id as int]));
            assert(state_in_region(post.states[id as int], pre.states.len() as int,
                post.states.len() as int)) by {
                assert forall|k: int|
                    0 <= k < post.states[id as int].out_targets().len() implies (pre.states.len()
                    <= (#[trigger] post.states[id as int].out_targets()[k])
                    < post.states.len() || post.states[id as int].out_targets()[k]
                    == UNPATCHED) by {
                    assert(post.states[id as int].out_targets()[k] == tsv[k].target);
                    assert(tsv[k] == tsrc[k]@);
                }
            }
            assert forall|i: int| pre.states.len() <= i < post.states.len() implies
                state_in_region(#[trigger] post.states[i], pre.states.len() as int,
                post.states.len() as int) by {
                if i < mid.states.len() {
                    assert(post.states[i] == mid.states[i]);
                    assert(state_in_region(mid.states[i], pre.states.len() as int,
                        mid.states.len() as int));
                }
            }
            post.lemma_reaches_refl(id);
            match class {
                ClassKind::Unicode(rs) => {
                    assert(*class == ClassKind::Unicode(*rs));
                    assert(class_state_ok(pre, post, Fragment { start: id, end: id }, *class));
                },
                ClassKind::Bytes(rs) => {
                    assert(*class == ClassKind::Bytes(*rs));
                    assert(class_state_ok(pre, post, Fragment { start: id, end: id }, *class));
                },
            }
        }
        Ok(Fragment { start: id, end: id })
    }

    /// Lower a Unicode class to transitions. Small ranges are enumerated
    /// one transition per scalar; a range wider than 1000 code points
    /// becomes a single set-predicate transition; a class whose total
    /// cardinality exceeds 50000 is treated as a negated class.
    fn compile_unicode_class(&mut self, rs: &Vec<CharRange>) -> (r: CompileResult<
        Vec<TwoCharTransition>,
    >)
        ensures
            r matches Ok(ts) && ({
                let pre = old(self)@;
                let post = final(self)@;
                &&& builder_extends(pre, post)
                &&& no_new_match(pre, post)
                &&& region_closed(post, pre.states.len() as int)
                &&& forall|i: int|
                    pre.states.len() <= i < post.states.len() ==> state_patched(
                        #[trigger] post.states[i],
                    )
                &&& (ts@.len() > 0 <==> unicode_nonempty(rs@))
                &&& (ts@.len() > 0 ==> exists|j: int|
                    0 <= j < ts@.len() && (#[trigger] ts@[j])@.target == UNPATCHED)
                &&& forall|j: int|
                    0 <= j < ts@.len() ==> ((#[trigger] ts@[j])@.target == UNPATCHED || (
                    pre.states.len() <= ts@[j]@.target < post.states.len()))
                &&& (class_total(rs@) <= 50000 ==> forall|j: int|
                    0 <= j < ts@.len() ==> unicode_trans_ok((#[trigger] ts@[j])@, rs@))
                &&& (class_total(rs@) <= 50000 ==> wide_ranges_covered(
                    ts@.map_values(|t: TwoCharTransition| t@),
                    rs@,
                ))
                &&& (class_total(rs@) > 50000 ==> (negated_shape(
                    ts@.map_values(|t: TwoCharTransition| t@),
                    pre.states.len() as int,
                ) && post.states.len() == pre.states.len() + 1 && post.states[pre.states.len()
                    as int] == StateV::Rejected && (ranges_separated(rs@) ==> negated_gaps_ok(
                    ts@.map_values(|t: TwoCharTransition| t@),
                    rs@,
                ))))
            }),
    {
        let ghost pre = self@;
        let mut total: u64 = 0;
        let mut over: bool = false;
        let mut i: usize = 0;
        while i < rs.len() && !over
            invariant
                0 <= i <= rs@.len(),
                !over ==> total as int == class_total(rs@) - class_total_from(rs@, i as int),
                !over ==> total <= 50000,
                over ==> class_total(rs@) > 50000,
            decreases rs@.len() - i,
        {
            let lo = rs[i].lo as u32;
            let hi = rs[i].hi as u32;
            proof {
                assert(class_total_from(rs@, i as int) == range_width(rs@[i as int])
                    + class_total_from(rs@, i as int + 1));
                vstd::utf8::char_is_scalar(rs@[i as int].hi);
            }
            if lo <= hi {
                let w = hi - lo + 1;
                total = total + (w as u64);
                if total > 50000 {
                    over = true;
                    proof {
                        lemma_class_total_from_nonneg(rs@, i as int + 1);
                    }
                }
            }
            i += 1;
        }
        if over {
            return self.compile_negated_unicode_class(rs);
        }
        proof {
            assert(class_total_from(rs@, rs@.len() as int) == 0);
            assert(class_total(rs@) <= 50000);
        }
        let mut transitions: Vec<TwoCharTransition> = Vec::new();
        let mut k: usize = 0;
        while k < rs.len()
            invariant
                0 <= k <= rs@.len(),
                forall|j: int|
                    0 <= j < transitions@.len() ==> (#[trigger] transitions@[j])@.target
                        == UNPATCHED,
                forall|j: int|
                    0 <= j < transitions@.len() ==> unicode_trans_ok(
                        (#[trigger] transitions@[j])@,
                        rs@,
                    ),
                forall|ii: int|
                    0 <= ii < k && (#[trigger] rs@[ii]).lo as u32 <= rs@[ii].hi as u32 && rs@[
                    ii].hi as u32 - rs@[ii].lo as u32 > 999 ==> exists|j: int|
                        0 <= j < transitions@.len() && ((#[trigger] transitions@[j])@.current
                            matches PredV::CharSet(one) && one.len() == 1 && one[0].lo as u32
                            == rs@[ii].lo as u32 && one[0].hi as u32 == rs@[ii].hi as u32),
                (transitions@.len() > 0) <==> (exists|ii: int|
                    0 <= ii < k && (#[trigger] rs@[ii]).lo as u32 <= rs@[ii].hi as u32),
            decreases rs@.len() - k,
        {
            let lo = rs[k].lo as u32;
            let hi = rs[k].hi as u32;
            proof {
                vstd::utf8::char_is_scalar(rs@[k as int].lo);
                vstd::utf8::char_is_scalar(rs@[k as int].hi);
            }
            if lo <= hi {
                if hi - lo + 1 <= 1000 {
                    let ghost entry_len = transitions@.len();
                    let end: u32 = hi + 1;
                    let mut cp: u32 = lo;
                    while cp < end
                        invariant
                            lo <= cp <= end,
                            end == hi + 1,
                            lo < 0xD800 || (0xE000 <= lo && lo <= 0x10FFFF),
                            0 <= k < rs@.len(),
                            lo == rs@[k as int].lo as u32,
                            hi == rs@[k as int].hi as u32,
                            transitions@.len() >= entry_len,
                            cp > lo ==> transitions@.len() > entry_len,
                            forall|j: int|
                                0 <= j < transitions@.len() ==> (#[trigger] transitions@[j])@.target
                                    == UNPATCHED,
                            forall|j: int|
                                0 <= j < transitions@.len() ==> unicode_trans_ok(
                                    (#[trigger] transitions@[j])@,
                                    rs@,
                                ),
                            forall|ii: int|
                                0 <= ii < k && (#[trigger] rs@[ii]).lo as u32 <= rs@[ii].hi as u32
                                    && rs@[ii].hi as u32 - rs@[ii].lo as u32 > 999 ==> exists|
                                    j: int,
                                |
                                    0 <= j < transitions@.len() && ((
                                    #[trigger] transitions@[j])@.current matches PredV::CharSet(
                                        one,
                                    ) && one.len() == 1 && one[0].lo as u32 == rs@[ii].lo as u32
                                        && one[0].hi as u32 == rs@[ii].hi as u32),
                        decreases end - cp,
                    {
                        match std::primitive::char::from_u32(cp) {
                            Some(ch) => {
                                let ghost old_len = transitions@.len();
                                push_transition(
                                    &mut transitions,
                                    TwoCharTransition::char(ch, UNPATCHED),
                                );
                                proof {
                                    assert(rs@[k as int].lo as u32 <= ch as u32 && ch as u32
                                        <= rs@[k as int].hi as u32);
                                    assert(crate::nfa::char_in_ranges(rs@, ch));
                                    assert(unicode_trans_ok(transitions@[old_len as int]@, rs@));
                                }
                            },
                            None => {},
                        }
                        cp = cp + 1;
                    }
                } else {
                    let mut rv: Vec<CharRange> = Vec::new();
                    rv.push(CharRange::new(rs[k].lo, rs[k].hi));
                    let ghost rvv = rv@;
                    let ghost old_len = transitions@.len();
                    push_transition(
                        &mut transitions,
                        TwoCharTransition {
                            current: CharacterPredicate::CharSet(rv),
                            lookahead: None,
                            target: UNPATCHED,
                        },
                    );
                    proof {
                        assert(rvv.len() == 1);
                        assert(rvv[0].lo as u32 == rs@[k as int].lo as u32 && rvv[0].hi as u32
                            == rs@[k as int].hi as u32);
                        assert(rs@[k as int].hi as u32 - rs@[k as int].lo as u32 > 999);
                        assert(unicode_trans_ok(transitions@[old_len as int]@, rs@));
                        assert(transitions@[old_len as int]@.current matches PredV::CharSet(one)
                            && one.len() == 1 && one[0].lo as u32 == rs@[k as int].lo as u32
                            && one[0].hi as u32 == rs@[k as int].hi as u32);
                    }
                }
            }
            k += 1;
        }
        proof {
            if transitions@.len() > 0 {
                assert(transitions@[0]@.target == UNPATCHED);
            }
            let tsv = transitions@.map_values(|t: TwoCharTransition| t@);
            assert forall|ii: int|
                0 <= ii < rs@.len() && (#[trigger] rs@[ii]).lo as u32 <= rs@[ii].hi as u32 && rs@[
                ii].hi as u32 - rs@[ii].lo as u32 > 999 implies exists|j: int|
                0 <= j < tsv.len() && ((#[trigger] tsv[j]).current matches PredV::CharSet(one)
                    && one.len() == 1 && one[0].lo as u32 == rs@[ii].lo as u32 && one[0].hi
                    as u32 == rs@[ii].hi as u32) by {
                let j0 = choose|j: int|
                    0 <= j < transitions@.len() && ((#[trigger] transitions@[j])@.current matches
                    PredV::CharSet(one) && one.len() == 1 && one[0].lo as u32 == rs@[ii].lo as u32
                        && one[0].hi as u32 == rs@[ii].hi as u32);
                assert(tsv[j0] == transitions@[j0]@);
            }
            assert(wide_ranges_covered(tsv, rs@));
        }
        Ok(transitions)
    }

    /// Lower a Unicode class above the negation threshold: the class
    /// enumerates the complement of a negated class, so the gaps in its
    /// ranges are the symbols that were negated. Up to 200 of them become
    /// explicit rejection transitions into a shared rejected state, and a
    /// terminal any-symbol transition accepts everything else.
    fn compile_negated_unicode_class(&mut self, rs: &Vec<CharRange>) -> (r: CompileResult<
        Vec<TwoCharTransition>,
    >)
        ensures
            r matches Ok(ts) && ({
                let pre = old(self)@;
                let post = final(self)@;
                &&& builder_extends(pre, post)
                &&& no_new_match(pre, post)
                &&& region_closed(post, pre.states.len() as int)
                &&& forall|i: int|
                    pre.states.len() <= i < post.states.len() ==> state_patched(
                        #[trigger] post.states[i],
                    )
                &&& ts@.len() > 0
                &&& (exists|j: int|
                    0 <= j < ts@.len() && (#[trigger] ts@[j])@.target == UNPATCHED)
                &&& forall|j: int|
                    0 <= j < ts@.len() ==> ((#[trigger] ts@[j])@.target == UNPATCHED || (
                    pre.states.len() <= ts@[j]@.target < post.states.len()))
                &&& post.states.len() == pre.states.len() + 1
                &&& post.states[pre.states.len() as int] == StateV::Rejected
                &&& ts@.len() <= 201
                &&& (ts@[ts@.len() - 1])@ == (TransV {
                    current: PredV::Any,
                    lookahead: None,
                    target: UNPATCHED,
                })
                &&& forall|j: int|
                    0 <= j < ts@.len() - 1 ==> ((#[trigger] ts@[j])@.current is Char
                        && ts@[j]@.lookahead is None && ts@[j]@.target == pre.states.len())
                &&& (ranges_separated(rs@) ==> forall|j: int|
                    0 <= j < ts@.len() - 1 ==> ((#[trigger] ts@[j])@.current matches PredV::Char(
                        c,
                    ) ==> !crate::nfa::char_in_ranges(rs@, c)))
            }),
    {
        let ghost pre = self@;
        let rejected = self.nfa.rejected_state();
        proof {
            let post = self@;
            assert(post.states[rejected as int] == StateV::Rejected);
            assert(post.states[rejected as int].out_targets() =~= Seq::<StateId>::empty());
        }
        let mut transitions: Vec<TwoCharTransition> = Vec::new();
        let mut count: usize = 0;
        if rs.len() > 0 {
            let first_lo = rs[0].lo as u32;
            let mut cp: u32 = 0;
            while cp < first_lo && count < 200
                invariant
                    count <= 200,
                    cp <= first_lo,
                    first_lo == rs@[0].lo as u32,
                    rs@.len() > 0,
                    transitions@.len() == count,
                    forall|j: int|
                        0 <= j < transitions@.len() ==> ((#[trigger] transitions@[j])@.current
                            is Char && transitions@[j]@.lookahead is None
                            && transitions@[j]@.target == rejected),
                    forall|j: int|
                        0 <= j < transitions@.len() ==> ((#[trigger] transitions@[j])@.current
                            matches PredV::Char(c) ==> (ranges_separated(rs@)
                            ==> !crate::nfa::char_in_ranges(rs@, c))),
                decreases first_lo - cp,
            {
                match std::primitive::char::from_u32(cp) {
                    Some(ch) => {
                        proof {
                            if ranges_separated(rs@) {
                                assert(!crate::nfa::char_in_ranges(rs@, ch)) by {
                                    if crate::nfa::char_in_ranges(rs@, ch) {
                                        let ii = choose|ii: int|
                                            0 <= ii < rs@.len() && (#[trigger] rs@[ii]).lo as u32
                                                <= ch as u32 && ch as u32 <= rs@[ii].hi as u32;
                                        if ii > 0 {
                                            assert((rs@[0].hi as u32) < (rs@[ii].lo as u32));
                                            assert((rs@[0].lo as u32) <= (rs@[0].hi as u32));
                                        }
                                    }
                                }
                            }
                        }
                        push_transition(
                            &mut transitions,
                            TwoCharTransition {
                                current: CharacterPredicate::Char(ch),
                                lookahead: None,
                                target: rejected,
                            },
                        );
                        count += 1;
                    },
                    None => {},
                }
                cp = cp + 1;
            }
            let mut k: usize = 1;
            while k < rs.len() && count < 200
                invariant
                    1 <= k,
                    count <= 200,
                    transitions@.len() == count,
                    forall|j: int|
                        0 <= j < transitions@.len() ==> ((#[trigger] transitions@[j])@.current
                            is Char && transitions@[j]@.lookahead is None
                            && transitions@[j]@.target == rejected),
                    forall|j: int|
                        0 <= j < transitions@.len() ==> ((#[trigger] transitions@[j])@.current
                            matches PredV::Char(c) ==> (ranges_separated(rs@)
                            ==> !crate::nfa::char_in_ranges(rs@, c))),
                decreases rs@.len() - k,
            {
                let cur_end = rs[k - 1].hi as u32;
                let next_start = rs[k].lo as u32;
                proof {
                    vstd::utf8::char_is_scalar(rs@[k - 1].hi);
                }
                let mut cp2: u32 = cur_end + 1;
                while cp2 < next_start && count < 200
                    invariant
                        count <= 200,
                        1 <= k < rs@.len(),
                        cur_end == rs@[k - 1].hi as u32,
                        next_start == rs@[k as int].lo as u32,
                        cur_end < cp2,
                        transitions@.len() == count,
                        forall|j: int|
                            0 <= j < transitions@.len() ==> ((#[trigger] transitions@[j])@.current
                                is Char && transitions@[j]@.lookahead is None
                                && transitions@[j]@.target == rejected),
                        forall|j: int|
                            0 <= j < transitions@.len() ==> ((#[trigger] transitions@[j])@.current
                                matches PredV::Char(c) ==> (ranges_separated(rs@)
                                ==> !crate::nfa::char_in_ranges(rs@, c))),
                    decreases next_start - cp2,
                {
                    match std::primitive::char::from_u32(cp2) {
                        Some(ch) => {
                            proof {
                                if ranges_separated(rs@) {
                                    assert(!crate::nfa::char_in_ranges(rs@, ch)) by {
                                        if crate::nfa::char_in_ranges(rs@, ch) {
                                            let ii = choose|ii: int|
                                                0 <= ii < rs@.len() && (#[trigger] rs@[ii]).lo
                                                    as u32 <= ch as u32 && ch as u32 <= rs@[
                                                ii].hi as u32;
                                            if ii < k - 1 {
                                                assert((rs@[ii].hi as u32) < (rs@[k - 1].lo
                                                    as u32));
                                                assert((rs@[k - 1].lo as u32) <= (rs@[k - 1].hi
                                                    as u32));
                                            } else if ii > k {
                                                assert((rs@[k as int].hi as u32) < (rs@[ii].lo
                                                    as u32));
                                                assert((rs@[k as int].lo as u32) <= (rs@[
                                                    k as int].hi as u32));
                                            }
                                        }
                                    }
                                }
                            }
                            push_transition(
                                &mut transitions,
                                TwoCharTransition {
                                    current: CharacterPredicate::Char(ch),
                                    lookahead: None,
                                    target: rejected,
                                },
                            );
                            count += 1;
                        },
                        None => {},
                    }
                    cp2 = cp2 + 1;
                }
                k += 1;
            }
        }
        let ghost before_any = transitions@;
        push_transition(
            &mut transitions,
            TwoCharTransition { current: CharacterPredicate::Any, lookahead: None, target: UNPATCHED },
        );
        proof {
            assert(transitions@[before_any.len() as int]@.target == UNPATCHED);
            assert(transitions@[before_any.len() as int]@ == (TransV {
                current: PredV::Any,
                lookahead: None,
                target: UNPATCHED,
            }));
            assert(transitions@.len() == before_any.len() + 1);
            assert(transitions@.len() <= 201);
        }
        Ok(transitions)
    }

    /// Lower a byte class to one transition per byte in its ranges.
    fn compile_bytes_class(&mut self, rs: &Vec<ByteRange>) -> (r: CompileResult<
        Vec<TwoCharTransition>,
    >)
        ensures
            r matches Ok(ts) && ({
                &&& final(self)@ == old(self)@
                &&& (forall|j: int|
                    0 <= j < ts@.len() ==> (#[trigger] ts@[j])@.target == UNPATCHED)
                &&& (forall|j: int|
                    0 <= j < ts@.len() ==> bytes_trans_ok((#[trigger] ts@[j])@, rs@))
                &&& (ts@.len() > 0 ==> exists|j: int|
                    0 <= j < ts@.len() && (#[trigger] ts@[j])@.target == UNPATCHED)
                &&& (ts@.len() > 0 <==> bytes_nonempty(rs@))
            }),
    {
        let mut transitions: Vec<TwoCharTransition> = Vec::new();
        let mut k: usize = 0;
        while k < rs.len()
            invariant
                0 <= k <= rs@.len(),
                forall|j: int|
                    0 <= j < transitions@.len() ==> (#[trigger] transitions@[j])@.target
                        == UNPATCHED,
                forall|j: int|
                    0 <= j < transitions@.len() ==> bytes_trans_ok(
                        (#[trigger] transitions@[j])@,
                        rs@,
                    ),
                (transitions@.len() > 0) <==> (exists|ii: int|
                    0 <= ii < k && (#[trigger] rs@[ii]).lo <= rs@[ii].hi),
            decreases rs@.len() - k,
        {
            let lo = rs[k].lo;
            let hi = rs[k].hi;
            if lo <= hi {
                let ghost entry_len = transitions@.len();
                let end: u32 = hi as u32 + 1;
                let mut b: u32 = lo as u32;
                while b < end
                    invariant
                        lo as u32 <= b <= end,
                        end == hi as u32 + 1,
                        end <= 256,
                        0 <= k < rs@.len(),
                        lo == rs@[k as int].lo,
                        hi == rs@[k as int].hi,
                        transitions@.len() >= entry_len,
                        b > lo as u32 ==> transitions@.len() > entry_len,
                        forall|j: int|
                            0 <= j < transitions@.len() ==> (#[trigger] transitions@[j])@.target
                                == UNPATCHED,
                        forall|j: int|
                            0 <= j < transitions@.len() ==> bytes_trans_ok(
                                (#[trigger] transitions@[j])@,
                                rs@,
                            ),
                    decreases end - b,
                {
                    match std::primitive::char::from_u32(b) {
                        Some(ch) => {
                            let ghost old_len = transitions@.len();
                            push_transition(
                                &mut transitions,
                                TwoCharTransition::char(ch, UNPATCHED),
                            );
                            proof {
                                assert(rs@[k as int].lo as u32 <= ch as u32 && ch as u32 <= rs@[
                                    k as int].hi as u32);
                                assert(byte_in_ranges(rs@, ch));
                                assert(bytes_trans_ok(transitions@[old_len as int]@, rs@));
                            }
                        },
                        None => {
                            proof {
                                assert(false);
                            }
                        },
                    }
                    b = b + 1;
                }
            }
            k += 1;
        }
        proof {
            if transitions@.len() > 0 {
                assert(transitions@[0]@.target == UNPATCHED);
            }
        }
        Ok(transitions)
    }

    /// Extract the characters a lookahead element would match: a literal's
    /// symbols, a byte class's bytes, or a narrow Unicode class's scalars.
    /// Anything else, or a Unicode range wider than ten code points past
    /// its start, is rejected.
    #[verifier::rlimit(100)]
    #[verifier::spinoff_prover]
    fn extract_lookahead_chars(&self, hir: &Hir) -> (r: CompileResult<Vec<char>>)
        ensures
            match r {
                Ok(cs) => extract_chars_ok(*hir) && (cs@.len() > 0 <==> extract_nonempty(*hir))
                    && extract_sound(*hir, cs@) && extract_complete(*hir, cs@),
                Err(e) => err_kind(e) is Unsupported && !extract_chars_ok(*hir),
            },
    {
        match hir {
            Hir::Literal(cs) => {
                let out = clone_chars(cs);
                proof {
                    assert(*hir == Hir::Literal(*cs));
                    assert(extract_chars_ok(*hir));
                    assert(out@.len() > 0 <==> extract_nonempty(*hir));
                    assert(extract_sound(*hir, out@));
                    assert(extract_complete(*hir, out@));
                }
                Ok(out)
            },
            Hir::Class(ClassKind::Unicode(rs)) => {
                proof {
                    assert(*hir == Hir::Class(ClassKind::Unicode(*rs)));
                }
                let mut chars: Vec<char> = Vec::new();
                let mut k: usize = 0;
                while k < rs.len()
                    invariant
                        *hir == Hir::Class(ClassKind::Unicode(*rs)),
                        0 <= k <= rs@.len(),
                        forall|ii: int|
                            0 <= ii < k ==> ((#[trigger] rs@[ii]).lo as u32 <= rs@[ii].hi as u32
                                ==> rs@[ii].hi as u32 - rs@[ii].lo as u32 <= 10),
                        chars_in_class(rs@, chars@),
                        forall|c: char|
                            #![trigger chars@.contains(c)]
                            crate::nfa::char_in_ranges(rs@.subrange(0, k as int), c)
                                ==> chars@.contains(c),
                        (chars@.len() > 0) <==> (exists|ii: int|
                            0 <= ii < k && (#[trigger] rs@[ii]).lo as u32 <= rs@[ii].hi as u32),
                    decreases rs@.len() - k,
                {
                    let lo = rs[k].lo as u32;
                    let hi = rs[k].hi as u32;
                    proof {
                        vstd::utf8::char_is_scalar(rs@[k as int].lo);
                        vstd::utf8::char_is_scalar(rs@[k as int].hi);
                    }
                    if lo <= hi {
                        if hi - lo <= 10 {
                            let ghost entry_len = chars@.len();
                            let end: u32 = hi + 1;
                            let mut cp: u32 = lo;
                            while cp < end
                                invariant
                                    lo <= cp <= end,
                                    end == hi + 1,
                                    lo < 0xD800 || (0xE000 <= lo && lo <= 0x10FFFF),
                                    0 <= k < rs@.len(),
                                    lo == rs@[k as int].lo as u32,
                                    hi == rs@[k as int].hi as u32,
                                    chars_in_class(rs@, chars@),
                                    forall|c: char|
                                        #![trigger chars@.contains(c)]
                                        crate::nfa::char_in_ranges(rs@.subrange(0, k as int), c)
                                            ==> chars@.contains(c),
                                    forall|c: char|
                                        #![trigger chars@.contains(c)]
                                        lo <= (c as u32) && (c as u32) < cp ==> chars@.contains(c),
                                    chars@.len() >= entry_len,
                                    cp > lo ==> chars@.len() > entry_len,
                                decreases end - cp,
                            {
                                match std::primitive::char::from_u32(cp) {
                                    Some(ch) => {
                                        let ghost old_cs = chars@;
                                        chars.push(ch);
                                        proof {
                                            assert(rs@[k as int].lo as u32 <= ch as u32 && ch
                                                as u32 <= rs@[k as int].hi as u32);
                                            assert(crate::nfa::char_in_ranges(rs@, ch));
                                            assert(chars@ =~= old_cs.push(ch));
                                            assert(chars@.contains(ch));
                                            assert forall|c: char|
                                                lo <= (c as u32) && (c as u32) < cp
                                                    + 1 implies chars@.contains(c) by {
                                                if c as u32 == cp {
                                                    vstd::utf8::char_u32_cast(c, cp);
                                                    vstd::utf8::char_u32_cast(ch, cp);
                                                    assert(c == ch);
                                                } else {
                                                    assert(old_cs.contains(c));
                                                }
                                            }
                                        }
                                    },
                                    None => {
                                        proof {
                                            assert forall|c: char|
                                                lo <= (c as u32) && (c as u32) < cp
                                                    + 1 implies chars@.contains(c) by {
                                                if c as u32 == cp {
                                                    vstd::utf8::char_is_scalar(c);
                                                }
                                            }
                                        }
                                    },
                                }
                                cp = cp + 1;
                            }
                        } else {
                            proof {
                                assert(rs@[k as int].lo as u32 <= rs@[k as int].hi as u32);
                                assert(rs@[k as int].hi as u32 - rs@[k as int].lo as u32 > 10);
                                assert(!narrow_ranges(rs@));
                                assert(!extract_chars_ok(*hir));
                            }
                            return Err(
                                CompileError::UnsupportedFeature(
                                    "large character ranges in lookahead".to_owned(),
                                ),
                            );
                        }
                    }
                    proof {
                        assert forall|c: char|
                            #![trigger chars@.contains(c)]
                            crate::nfa::char_in_ranges(
                                rs@.subrange(0, k as int + 1),
                                c,
                            ) implies chars@.contains(c) by {
                            let ii = choose|ii: int|
                                0 <= ii < rs@.subrange(0, k as int + 1).len() && (#[trigger] rs@.subrange(
                                    0,
                                    k as int + 1,
                                )[ii]).lo as u32 <= c as u32 && c as u32 <= rs@.subrange(
                                    0,
                                    k as int + 1,
                                )[ii].hi as u32;
                            assert(rs@.subrange(0, k as int + 1)[ii].lo as u32 == rs@[ii].lo
                                as u32);
                            if ii < k {
                                assert(rs@.subrange(0, k as int)[ii].lo as u32 <= c as u32 && c
                                    as u32 <= rs@.subrange(0, k as int)[ii].hi as u32);
                                assert(crate::nfa::char_in_ranges(rs@.subrange(0, k as int), c));
                            }
                        }
                    }
                    k += 1;
                }
                proof {
                    assert(rs@.subrange(0, rs@.len() as int) =~= rs@);
                    assert(chars_in_class(rs@, chars@));
                    assert(extract_sound(*hir, chars@));
                    assert(extract_complete(*hir, chars@));
                }
                Ok(chars)
            },
            Hir::Class(ClassKind::Bytes(rs)) => {
                proof {
                    assert(*hir == Hir::Class(ClassKind::Bytes(*rs)));
                }
                let mut chars: Vec<char> = Vec::new();
                let mut k: usize = 0;
                while k < rs.len()
                    invariant
                        *hir == Hir::Class(ClassKind::Bytes(*rs)),
                        0 <= k <= rs@.len(),
                        chars_in_byte_class(rs@, chars@),
                        forall|c: char|
                            #![trigger chars@.contains(c)]
                            byte_in_ranges(rs@.subrange(0, k as int), c) ==> chars@.contains(c),
                        (chars@.len() > 0) <==> (exists|ii: int|
                            0 <= ii < k && (#[trigger] rs@[ii]).lo <= rs@[ii].hi),
                    decreases rs@.len() - k,
                {
                    let lo = rs[k].lo;
                    let hi = rs[k].hi;
                    if lo <= hi {
                        let ghost entry_len = chars@.len();
                        let end: u32 = hi as u32 + 1;
                        let mut b: u32 = lo as u32;
                        while b < end
                            invariant
                                lo as u32 <= b <= end,
                                end == hi as u32 + 1,
                                end <= 256,
                                0 <= k < rs@.len(),
                                lo == rs@[k as int].lo,
                                hi == rs@[k as int].hi,
                                chars_in_byte_class(rs@, chars@),
                                forall|c: char|
                                    #![trigger chars@.contains(c)]
                                    byte_in_ranges(rs@.subrange(0, k as int), c)
                                        ==> chars@.contains(c),
                                forall|c: char|
                                    #![trigger chars@.contains(c)]
                                    lo as u32 <= (c as u32) && (c as u32) < b ==> chars@.contains(
                                        c,
                                    ),
                                chars@.len() >= entry_len,
                                b > lo as u32 ==> chars@.len() > entry_len,
                            decreases end - b,
                        {
                            match std::primitive::char::from_u32(b) {
                                Some(ch) => {
                                    let ghost old_cs = chars@;
                                    chars.push(ch);
                                    proof {
                                        assert(rs@[k as int].lo as u32 <= ch as u32 && ch as u32
                                            <= rs@[k as int].hi as u32);
                                        assert(byte_in_ranges(rs@, ch));
                                        assert(chars@ =~= old_cs.push(ch));
                                        assert(chars@.contains(ch));
                                        assert forall|c: char|
                                            lo as u32 <= (c as u32) && (c as u32) < b
                                                + 1 implies chars@.contains(c) by {
                                            if c as u32 == b {
                                                vstd::utf8::char_u32_cast(c, b);
                                                vstd::utf8::char_u32_cast(ch, b);
                                                assert(c == ch);
                                            } else {
                                                assert(old_cs.contains(c));
                                            }
                                        }
                                    }
                                },
                                None => {
                                    proof {
                                        assert(false);
                                    }
                                },
                            }
                            b = b + 1;
                        }
                    }
                    proof {
                        assert forall|c: char|
                            #![trigger chars@.contains(c)]
                            byte_in_ranges(rs@.subrange(0, k as int + 1), c) implies
                            chars@.contains(c) by {
                            let ii = choose|ii: int|
                                0 <= ii < rs@.subrange(0, k as int + 1).len() && (#[trigger] rs@.subrange(
                                    0,
                                    k as int + 1,
                                )[ii]).lo as u32 <= c as u32 && c as u32 <= rs@.subrange(
                                    0,
                                    k as int + 1,
                                )[ii].hi as u32;
                            assert(rs@.subrange(0, k as int + 1)[ii] == rs@[ii]);
                            if ii < k {
                                assert(rs@.subrange(0, k as int)[ii] == rs@[ii]);
                                assert(byte_in_ranges(rs@.subrange(0, k as int), c));
                            }
                        }
                    }
                    k += 1;
                }
                proof {
                    assert(rs@.subrange(0, rs@.len() as int) =~= rs@);
                    assert(chars_in_byte_class(rs@, chars@));
                    assert(extract_sound(*hir, chars@));
                    assert(extract_complete(*hir, chars@));
                }
                Ok(chars)
            },
            _ => Err(CompileError::UnsupportedFeature("complex lookahead patterns".to_owned())),
        }
    }

    /// Extract the characters a pattern element would match; the same
    /// notion of an explicit character set as for lookaheads.
    fn extract_pattern_chars(&self, hir: &Hir) -> (r: CompileResult<Vec<char>>)
        ensures
            match r {
                Ok(cs) => extract_chars_ok(*hir) && (cs@.len() > 0 <==> extract_nonempty(*hir))
                    && extract_sound(*hir, cs@) && extract_complete(*hir, cs@),
                Err(e) => err_kind(e) is Unsupported && !extract_chars_ok(*hir),
            },
    {
        self.extract_lookahead_chars(hir)
    }

    /// Compile a possessive loop over the atom `expr`, structurally: one
    /// transitions node `P` whose entries consume a symbol of the atom's
    /// set `C` and either continue the loop — iff the next symbol is again
    /// in `C` — or leave for the exit `E` — iff the next symbol is not in
    /// `C` (or the input ends). A literal atom gets one such pair per
    /// symbol; a class atom, of any width, gets a single pair over the
    /// class's set predicate. The two guards are disjoint, so the
    /// simulator can never take both at one position: the loop never
    /// gives a symbol back.
    fn compile_possessive_plus(&mut self, expr: &Hir) -> (r: CompileResult<Fragment>)
        ensures
            match r {
                Ok(f) => frag_ok(old(self)@, final(self)@, f) && poss_outcome(*expr) is None
                    && possessive_node_at(final(self)@, f.start, f.end, *expr)
                    && final(self)@.states[f.end as int] == StateV::Epsilon(UNPATCHED),
                Err(e) => poss_outcome(*expr) == Some(err_kind(e)),
            },
    {
        match expr {
            Hir::Literal(pattern_chars) => {
                if pattern_chars.len() == 0 {
                    return Err(
                        CompileError::UnsupportedFeature(
                            "empty possessive character set".to_owned(),
                        ),
                    );
                }
                let ghost cs = pattern_chars@;
                let mut rgs: Vec<CharRange> = Vec::new();
                let mut i: usize = 0;
                while i < pattern_chars.len()
                    invariant
                        0 <= i <= pattern_chars@.len(),
                        rgs@.len() == i,
                        forall|m: int|
                            0 <= m < i ==> ((#[trigger] rgs@[m]).lo == pattern_chars@[m]
                                && rgs@[m].hi == pattern_chars@[m]),
                    decreases pattern_chars@.len() - i,
                {
                    let c = pattern_chars[i];
                    rgs.push(CharRange::new(c, c));
                    i += 1;
                }
                let ghost rgsv = rgs@;
                let main_id = self.nfa.states.len();
                proof {
                    assert(self@.states.len() == self.nfa.states@.len());
                }
                let mut transitions: Vec<TwoCharTransition> = Vec::new();
                let mut j: usize = 0;
                while j < pattern_chars.len()
                    invariant
                        0 <= j <= pattern_chars@.len(),
                        cs == pattern_chars@,
                        rgs@ == rgsv,
                        ranges_single(rgsv, cs),
                        transitions@.len() == 2 * j,
                        forall|m: int|
                            0 <= m < transitions@.len() ==> poss_pair_ok(
                                (#[trigger] transitions@[m])@,
                                cs,
                                rgsv,
                                main_id,
                                m,
                            ),
                    decreases pattern_chars@.len() - j,
                {
                    let c = pattern_chars[j];
                    push_transition(
                        &mut transitions,
                        TwoCharTransition {
                            current: CharacterPredicate::Char(c),
                            lookahead: Some(
                                CharacterPredicate::CharSet(crate::nfa::clone_ranges(&rgs)),
                            ),
                            target: main_id,
                        },
                    );
                    push_transition(
                        &mut transitions,
                        TwoCharTransition {
                            current: CharacterPredicate::Char(c),
                            lookahead: Some(
                                CharacterPredicate::NotCharSet(crate::nfa::clone_ranges(&rgs)),
                            ),
                            target: UNPATCHED,
                        },
                    );
                    j += 1;
                }
                let ghost tsrc = transitions@.map_values(|t: TwoCharTransition| t@);
                proof {
                    assert forall|m: int| 0 <= m < tsrc.len() implies poss_trans_ok(
                        #[trigger] tsrc[m],
                        rgsv,
                        main_id,
                    ) by {
                        assert(poss_pair_ok(tsrc[m], cs, rgsv, main_id, m));
                        assert(cs.contains(cs[m / 2]));
                        lemma_singleton_ranges(rgsv, cs, cs[m / 2]);
                    }
                    assert(tsrc.len() >= 2);
                    assert(poss_pair_ok(tsrc[1], cs, rgsv, main_id, 1));
                    assert(tsrc[1].target == UNPATCHED);
                    assert((transitions@[1])@.target == UNPATCHED);
                    assert(main_id as int == self@.states.len() as int);
                    assert forall|m: int| 0 <= m < transitions@.len() implies poss_trans_ok(
                        (#[trigger] transitions@[m])@,
                        rgsv,
                        main_id,
                    ) by {
                        assert(tsrc[m] == transitions@[m]@);
                        assert(poss_trans_ok(tsrc[m], rgsv, main_id));
                    }
                }
                let f = self.finish_possessive(transitions, Ghost(rgsv));
                proof {
                    let ts2 = match self@.states[f.start as int] {
                        StateV::Transitions(ts2) => ts2,
                        _ => Seq::empty(),
                    };
                    assert forall|c: char| #[trigger]
                        crate::nfa::char_in_ranges(rgsv, c) implies ((exists|m: int|
                        0 <= m < ts2.len() && (#[trigger] ts2[m]).target == f.start
                            && crate::nfa::pred_matches(ts2[m].current, c)) && (exists|m: int|
                        0 <= m < ts2.len() && (#[trigger] ts2[m]).target == f.end
                            && crate::nfa::pred_matches(ts2[m].current, c))) by {
                        lemma_singleton_ranges(rgsv, cs, c);
                        let k = choose|k: int| 0 <= k < cs.len() && cs[k] == c;
                        assert(poss_pair_ok(tsrc[2 * k], cs, rgsv, main_id, 2 * k));
                        assert(poss_pair_ok(tsrc[2 * k + 1], cs, rgsv, main_id, 2 * k + 1));
                        assert(tsrc[2 * k].current == PredV::Char(c));
                        assert(tsrc[2 * k + 1].current == PredV::Char(c));
                        assert(ts2[2 * k] == crate::nfa::patch_transition(tsrc[2 * k], f.end));
                        assert(ts2[2 * k + 1] == crate::nfa::patch_transition(
                            tsrc[2 * k + 1],
                            f.end,
                        ));
                        assert(ts2[2 * k].target == f.start && crate::nfa::pred_matches(
                            ts2[2 * k].current,
                            c,
                        ));
                        assert(ts2[2 * k + 1].target == f.end && crate::nfa::pred_matches(
                            ts2[2 * k + 1].current,
                            c,
                        ));
                    }
                    assert(possessive_covers(ts2, rgsv, f.start, f.end));
                    assert(poss_ranges_of(*expr, rgsv));
                    assert(possessive_node_shape(self@.states[f.start as int], rgsv, f.start,
                        f.end));
                    assert(possessive_node_at(self@, f.start, f.end, *expr));
                }
                Ok(f)
            },
            Hir::Class(ClassKind::Unicode(class_ranges)) => {
                let mut found = false;
                let mut k: usize = 0;
                while k < class_ranges.len()
                    invariant
                        0 <= k <= class_ranges@.len(),
                        found <==> exists|ii: int|
                            0 <= ii < k && (#[trigger] class_ranges@[ii]).lo as u32
                                <= class_ranges@[ii].hi as u32,
                    decreases class_ranges@.len() - k,
                {
                    if class_ranges[k].lo as u32 <= class_ranges[k].hi as u32 {
                        found = true;
                    }
                    k += 1;
                }
                if !found {
                    return Err(
                        CompileError::UnsupportedFeature(
                            "empty possessive character set".to_owned(),
                        ),
                    );
                }
                let rgs = crate::nfa::clone_ranges(class_ranges);
                let ghost rgsv = class_ranges@;
                self.compile_possessive_class(rgs, Ghost(rgsv), Ghost(*expr))
            },
            Hir::Class(ClassKind::Bytes(byte_ranges)) => {
                let mut found = false;
                let mut k: usize = 0;
                while k < byte_ranges.len()
                    invariant
                        0 <= k <= byte_ranges@.len(),
                        found <==> exists|ii: int|
                            0 <= ii < k && (#[trigger] byte_ranges@[ii]).lo
                                <= byte_ranges@[ii].hi,
                    decreases byte_ranges@.len() - k,
                {
                    if byte_ranges[k].lo <= byte_ranges[k].hi {
                        found = true;
                    }
                    k += 1;
                }
                if !found {
                    return Err(
                        CompileError::UnsupportedFeature(
                            "empty possessive character set".to_owned(),
                        ),
                    );
                }
                let mut rgs: Vec<CharRange> = Vec::new();
                let mut i: usize = 0;
                while i < byte_ranges.len()
                    invariant
                        0 <= i <= byte_ranges@.len(),
                        rgs@.len() == i,
                        forall|m: int|
                            0 <= m < i ==> ((#[trigger] rgs@[m]).lo as u32 == byte_ranges@[m].lo
                                as u32 && rgs@[m].hi as u32 == byte_ranges@[m].hi as u32),
                    decreases byte_ranges@.len() - i,
                {
                    let lo = match std::primitive::char::from_u32(byte_ranges[i].lo as u32) {
                        Some(c) => c,
                        None => {
                            proof {
                                assert(false);
                            }
                            ' '
                        },
                    };
                    let hi = match std::primitive::char::from_u32(byte_ranges[i].hi as u32) {
                        Some(c) => c,
                        None => {
                            proof {
                                assert(false);
                            }
                            ' '
                        },
                    };
                    rgs.push(CharRange::new(lo, hi));
                    i += 1;
                }
                let ghost rgsv = rgs@;
                proof {
                    assert(byte_ranges_single(rgsv, byte_ranges@));
                }
                self.compile_possessive_class(rgs, Ghost(rgsv), Ghost(*expr))
            },
            _ => Err(CompileError::UnsupportedFeature("complex lookahead patterns".to_owned())),
        }
    }

    /// Build the possessive node for a class atom: one loop entry and one
    /// exit, both consuming the class's set as a single predicate.
    fn compile_possessive_class(
        &mut self,
        rgs: Vec<CharRange>,
        Ghost(rgsv): Ghost<Seq<CharRange>>,
        Ghost(atom): Ghost<Hir>,
    ) -> (r: CompileResult<Fragment>)
        requires
            rgs@ == rgsv,
            poss_ranges_of(atom, rgsv),
            poss_outcome(atom) is None,
        ensures
            r matches Ok(f) && frag_ok(old(self)@, final(self)@, f) && poss_outcome(atom)
                is None && possessive_node_at(final(self)@, f.start, f.end, atom)
                && final(self)@.states[f.end as int] == StateV::Epsilon(UNPATCHED),
    {
        let main_id = self.nfa.states.len();
        proof {
            assert(self@.states.len() == self.nfa.states@.len());
        }
        let mut transitions: Vec<TwoCharTransition> = Vec::new();
        push_transition(
            &mut transitions,
            TwoCharTransition {
                current: CharacterPredicate::CharSet(crate::nfa::clone_ranges(&rgs)),
                lookahead: Some(CharacterPredicate::CharSet(crate::nfa::clone_ranges(&rgs))),
                target: main_id,
            },
        );
        push_transition(
            &mut transitions,
            TwoCharTransition {
                current: CharacterPredicate::CharSet(crate::nfa::clone_ranges(&rgs)),
                lookahead: Some(CharacterPredicate::NotCharSet(crate::nfa::clone_ranges(&rgs))),
                target: UNPATCHED,
            },
        );
        let ghost tsrc = transitions@.map_values(|t: TwoCharTransition| t@);
        proof {
            assert(tsrc.len() == 2);
            assert(tsrc[0] == transitions@[0]@ && tsrc[1] == transitions@[1]@);
            assert(poss_trans_ok(tsrc[0], rgsv, main_id));
            assert(poss_trans_ok(tsrc[1], rgsv, main_id));
            assert forall|m: int| 0 <= m < tsrc.len() implies poss_trans_ok(
                #[trigger] tsrc[m],
                rgsv,
                main_id,
            ) by {
                assert(m == 0 || m == 1);
            }
            assert(tsrc[1].target == UNPATCHED);
            assert((transitions@[1])@.target == UNPATCHED);
            assert(main_id as int == self@.states.len() as int);
            assert forall|m: int| 0 <= m < transitions@.len() implies poss_trans_ok(
                (#[trigger] transitions@[m])@,
                rgsv,
                main_id,
            ) by {
                assert(tsrc[m] == transitions@[m]@);
                assert(m == 0 || m == 1);
            }
        }
        let f = self.finish_possessive(transitions, Ghost(rgsv));
        proof {
            let ts2 = match self@.states[f.start as int] {
                StateV::Transitions(ts2) => ts2,
                _ => Seq::empty(),
            };
            assert(ts2[0] == crate::nfa::patch_transition(tsrc[0], f.end));
            assert(ts2[1] == crate::nfa::patch_transition(tsrc[1], f.end));
            assert forall|c: char| #[trigger]
                crate::nfa::char_in_ranges(rgsv, c) implies ((exists|m: int|
                0 <= m < ts2.len() && (#[trigger] ts2[m]).target == f.start
                    && crate::nfa::pred_matches(ts2[m].current, c)) && (exists|m: int|
                0 <= m < ts2.len() && (#[trigger] ts2[m]).target == f.end
                    && crate::nfa::pred_matches(ts2[m].current, c))) by {
                assert(ts2[0].target == f.start && crate::nfa::pred_matches(ts2[0].current, c));
                assert(ts2[1].target == f.end && crate::nfa::pred_matches(ts2[1].current, c));
            }
            assert(possessive_covers(ts2, rgsv, f.start, f.end));
            assert(possessive_node_shape(self@.states[f.start as int], rgsv, f.start, f.end));
            assert(possessive_node_at(self@, f.start, f.end, atom));
        }
        Ok(f)
    }

    /// Turn the assembled possessive transitions into the finished node:
    /// the transitions state `P`, a dangling exit epsilon `E`, and the
    /// pending exits patched to `E`. The final transitions are exactly
    /// the given ones with their sentinel targets rewritten to the exit.
    fn finish_possessive(
        &mut self,
        transitions: Vec<TwoCharTransition>,
        Ghost(rgsv): Ghost<Seq<CharRange>>,
    ) -> (f: Fragment)
        requires
            transitions@.len() >= 2,
            (transitions@[1])@.target == UNPATCHED,
            forall|m: int|
                0 <= m < transitions@.len() ==> poss_trans_ok(
                    (#[trigger] transitions@[m])@,
                    rgsv,
                    old(self)@.states.len() as StateId,
                ),
        ensures
            frag_ok(old(self)@, final(self)@, f),
            f.start == old(self)@.states.len(),
            f.start != f.end,
            final(self)@.states[f.end as int] == StateV::Epsilon(UNPATCHED),
            final(self)@.states[f.start as int] matches StateV::Transitions(ts) && ts
                == transitions@.map_values(|t: TwoCharTransition| t@).map_values(
                |t: TransV| crate::nfa::patch_transition(t, f.end),
            ) && possessive_shape(ts, rgsv, f.start, f.end),
    {
        let ghost pre = self@;
        let ghost main_ghost = pre.states.len() as StateId;
        let ghost tsrc = transitions@.map_values(|t: TwoCharTransition| t@);
        let main = self.nfa.transitions_state(transitions);
        proof {
            assert(main == main_ghost);
            assert(self@.states[main as int] == StateV::Transitions(tsrc));
            assert(tsrc[1].target == UNPATCHED);
        }
        let ghost mid = self@;
        let end = self.nfa.epsilon(UNPATCHED);
        let ghost mid2 = self@;
        self.nfa.connect(main, end);
        proof {
            let post = self@;
            assert(mid2.states[main as int] == StateV::Transitions(tsrc));
            lemma_connect_end(mid2, post, main, end);
            post.lemma_edge_reaches(main, end);
            let ts2 = tsrc.map_values(|t: TransV| crate::nfa::patch_transition(t, end));
            assert(post.states[main as int] == StateV::Transitions(ts2));
            assert forall|m: int| 0 <= m < ts2.len() implies possessive_trans_shape(
                #[trigger] ts2[m],
                rgsv,
                main,
                end,
            ) by {
                assert(ts2[m] == crate::nfa::patch_transition(tsrc[m], end));
                assert(poss_trans_ok(tsrc[m], rgsv, main_ghost));
            }
            assert(possessive_shape(ts2, rgsv, main, end));
            assert(dangling_state(post.states[end as int]));
            let lo = pre.states.len() as int;
            let hi = post.states.len() as int;
            assert forall|i2: int| lo <= i2 < hi implies state_in_region(
                #[trigger] post.states[i2],
                lo,
                hi,
            ) by {
                if i2 == main {
                    assert forall|m: int|
                        0 <= m < post.states[main as int].out_targets().len() implies (lo <= (
                        #[trigger] post.states[main as int].out_targets()[m]) < hi
                        || post.states[main as int].out_targets()[m] == UNPATCHED) by {
                        assert(post.states[main as int].out_targets()[m] == ts2[m].target);
                        assert(possessive_trans_shape(ts2[m], rgsv, main, end));
                    }
                } else if i2 == end {
                    assert(post.states[end as int] == StateV::Epsilon(UNPATCHED));
                    assert(post.states[end as int].out_targets() =~= seq![UNPATCHED]);
                }
            }
            assert forall|i2: int| lo <= i2 < hi && i2 != end implies state_patched(
                #[trigger] post.states[i2],
            ) by {}
            assert forall|i2: int| lo <= i2 < hi implies !((#[trigger] post.states[i2])
                is Match) by {}
            assert forall|i2: int| 0 <= i2 < pre.states.len() implies post.states[i2]
                == pre.states[i2] by {
                assert(post.states[i2] == mid2.states[i2]);
                assert(mid2.states[i2] == mid.states[i2]);
                assert(mid.states[i2] == pre.states[i2]);
            }
            assert(builder_extends(pre, post));
            assert(post.reaches(main, end));
            assert(pre.states.len() <= main < post.states.len());
            assert(pre.states.len() <= end < post.states.len());
            assert(frag_ok(pre, post, Fragment { start: main, end }));
        }
        Fragment { start: main, end }
    }

    /// Compile `?`: a split choosing between the sub-expression and an
    /// exit epsilon. The ordering of the split's targets is semantic: the
    /// exit comes last for greedy, first for reluctant. A possessive `?`
    /// uses the same structure.
    fn compile_question(&mut self, expr: &Hir, possessive: bool, reluctant: bool) -> (r:
        CompileResult<Fragment>)
        ensures
            compile_result_ok(old(self)@, final(self)@, r, hir_outcome(*expr)),
            r matches Ok(f) ==> (final(self)@.states[f.start as int] matches StateV::Split(ts)
                && ts.len() == 2 && (if reluctant {
                ts[0] == f.end
            } else {
                ts[1] == f.end
            })),
        decreases *expr, 2int, 0int,
    {
        let ghost pre = self@;
        let expr_fragment = self.compile_hir(expr)?;
        let ghost mid = self@;
        let end_state = self.nfa.epsilon(UNPATCHED);
        let ghost mid2 = self@;
        let mut targets: Vec<StateId> = Vec::new();
        if reluctant {
            targets.push(end_state);
            targets.push(expr_fragment.start);
        } else {
            targets.push(expr_fragment.start);
            targets.push(end_state);
        }
        let ghost tseq = targets@;
        proof {
            assert(tseq.len() == 2);
            assert(tseq.contains(end_state)) by {
                if reluctant {
                    assert(tseq[0] == end_state);
                } else {
                    assert(tseq[1] == end_state);
                }
            }
        }
        let split_state = self.nfa.split(targets);
        let ghost mid3 = self@;
        self.nfa.connect(expr_fragment.end, end_state);
        proof {
            lemma_two_state_wrap(
                pre,
                mid,
                mid2,
                mid3,
                self@,
                expr_fragment,
                end_state,
                split_state,
                tseq,
                end_state,
                Fragment { start: split_state, end: end_state },
            );
        }
        Ok(Fragment { start: split_state, end: end_state })
    }

    /// Compile `*`: as `?`, but the sub-expression's end also loops back
    /// to the split, so it can match any number of times. The exit comes
    /// last in the split for greedy, first for reluctant. Possessive `*`
    /// uses the structural possessive encoding instead.
    fn compile_star(&mut self, expr: &Hir, possessive: bool, reluctant: bool) -> (r: CompileResult<
        Fragment,
    >)
        ensures
            compile_result_ok(
                old(self)@,
                final(self)@,
                r,
                if possessive {
                    poss_outcome(*expr)
                } else {
                    hir_outcome(*expr)
                },
            ),
            !possessive ==> (r matches Ok(f) ==> (final(self)@.states[f.start as int] matches
                StateV::Split(ts) && ts.len() == 2 && (if reluctant {
                ts[0] == f.end
            } else {
                ts[1] == f.end
            }))),
            possessive ==> (r matches Ok(f) ==> possessive_star_at(final(self)@, f, *expr)),
        decreases *expr, 2int, 0int,
    {
        if possessive {
            return self.compile_possessive_star(expr);
        }
        let ghost pre = self@;
        let expr_fragment = self.compile_hir(expr)?;
        let ghost mid = self@;
        let end_state = self.nfa.epsilon(UNPATCHED);
        let ghost mid2 = self@;
        let mut targets: Vec<StateId> = Vec::new();
        if reluctant {
            targets.push(end_state);
            targets.push(expr_fragment.start);
        } else {
            targets.push(expr_fragment.start);
            targets.push(end_state);
        }
        let ghost tseq = targets@;
        proof {
            assert(tseq.len() == 2);
            assert(tseq.contains(end_state)) by {
                if reluctant {
                    assert(tseq[0] == end_state);
                } else {
                    assert(tseq[1] == end_state);
                }
            }
        }
        let start_state = self.nfa.split(targets);
        let ghost mid3 = self@;
        self.nfa.connect(expr_fragment.end, start_state);
        proof {
            lemma_two_state_wrap(
                pre,
                mid,
                mid2,
                mid3,
                self@,
                expr_fragment,
                end_state,
                start_state,
                tseq,
                start_state,
                Fragment { start: start_state, end: end_state },
            );
        }
        Ok(Fragment { start: start_state, end: end_state })
    }

    /// Compile `+`: the sub-expression runs once, then a split offers the
    /// loop again or the exit; loop first for greedy, exit first for
    /// reluctant. Possessive `+` uses the structural possessive encoding.
    fn compile_plus(&mut self, expr: &Hir, possessive: bool, reluctant: bool) -> (r: CompileResult<
        Fragment,
    >)
        ensures
            compile_result_ok(
                old(self)@,
                final(self)@,
                r,
                if possessive {
                    poss_outcome(*expr)
                } else {
                    hir_outcome(*expr)
                },
            ),
            possessive ==> (r matches Ok(f) ==> possessive_node_at(
                final(self)@,
                f.start,
                f.end,
                *expr,
            )),
        decreases *expr, 2int, 0int,
    {
        if possessive {
            return self.compile_possessive_plus(expr);
        }
        let ghost pre = self@;
        let expr_fragment = self.compile_hir(expr)?;
        let ghost mid = self@;
        let end_state = self.nfa.epsilon(UNPATCHED);
        let ghost mid2 = self@;
        let mut targets: Vec<StateId> = Vec::new();
        if reluctant {
            targets.push(end_state);
            targets.push(expr_fragment.start);
        } else {
            targets.push(expr_fragment.start);
            targets.push(end_state);
        }
        let ghost tseq = targets@;
        proof {
            assert(tseq.len() == 2);
            assert(tseq.contains(end_state)) by {
                if reluctant {
                    assert(tseq[0] == end_state);
                } else {
                    assert(tseq[1] == end_state);
                }
            }
        }
        let loop_state = self.nfa.split(targets);
        let ghost mid3 = self@;
        self.nfa.connect(expr_fragment.end, loop_state);
        proof {
            lemma_two_state_wrap(
                pre,
                mid,
                mid2,
                mid3,
                self@,
                expr_fragment,
                end_state,
                loop_state,
                tseq,
                loop_state,
                Fragment { start: expr_fragment.start, end: end_state },
            );
        }
        Ok(Fragment { start: expr_fragment.start, end: end_state })
    }

    /// Compile possessive `*`: the possessive `+` loop wrapped in a split
    /// that enters the loop first and also offers a direct exit, so the
    /// whole loop may be skipped.
    #[verifier::rlimit(60)]
    fn compile_possessive_star(&mut self, expr: &Hir) -> (r: CompileResult<Fragment>)
        ensures
            compile_result_ok(old(self)@, final(self)@, r, poss_outcome(*expr)),
            r matches Ok(f) ==> possessive_star_at(final(self)@, f, *expr),
        decreases *expr, 1int, 0int,
    {
        let ghost pre = self@;
        let possessive_plus = self.compile_possessive_plus(expr)?;
        let ghost mid = self@;
        let end_state = self.nfa.epsilon(UNPATCHED);
        let ghost mid2 = self@;
        let mut targets: Vec<StateId> = Vec::new();
        targets.push(possessive_plus.start);
        targets.push(end_state);
        let ghost tseq = targets@;
        proof {
            assert(tseq.len() == 2);
            assert(tseq[1] == end_state);
            assert(tseq.contains(end_state));
        }
        let start_state = self.nfa.split(targets);
        let ghost mid3 = self@;
        self.nfa.connect(possessive_plus.end, end_state);
        proof {
            lemma_two_state_wrap(
                pre,
                mid,
                mid2,
                mid3,
                self@,
                possessive_plus,
                end_state,
                start_state,
                tseq,
                end_state,
                Fragment { start: start_state, end: end_state },
            );
            let post = self@;
            assert(post.states[possessive_plus.start as int] == mid.states[possessive_plus.start
                as int]);
            lemma_possessive_node_persists(
                mid,
                post,
                possessive_plus.start,
                possessive_plus.end,
                *expr,
            );
            assert(post.states[start_state as int] == StateV::Split(tseq));
            assert(tseq[0] == possessive_plus.start && tseq[1] == end_state);
            assert(post.states[possessive_plus.end as int] == StateV::Epsilon(end_state));
            assert(possessive_plus.start != end_state && possessive_plus.end != end_state);
            assert(possessive_star_at(post, Fragment { start: start_state, end: end_state },
                *expr));
        }
        Ok(Fragment { start: start_state, end: end_state })
    }

    /// Compile a repetition, dispatching on its bounds.
    fn compile_repetition(&mut self, rep: &Repetition) -> (r: CompileResult<Fragment>)
        ensures
            compile_result_ok(old(self)@, final(self)@, r, rep_outcome(*rep)),
            (*rep).kind is Possessive ==> (r matches Ok(f) ==> (((*rep).min == 1 && (*rep).max
                is None ==> possessive_node_at(final(self)@, f.start, f.end, *(*rep).sub)) && ((
            *rep).min == 0 && (*rep).max is None ==> possessive_star_at(
                final(self)@,
                f,
                *(*rep).sub,
            )))),
        decreases *rep, 0int, 0int,
    {
        let min = rep.min;
        let max = rep.max;
        let possessive = match rep.kind {
            RepKind::Possessive => true,
            _ => false,
        };
        let reluctant = match rep.kind {
            RepKind::Reluctant => true,
            _ => false,
        };
        match (min, max) {
            (0u32, Some(1u32)) => self.compile_question(&rep.sub, possessive, reluctant),
            (0u32, None) => self.compile_star(&rep.sub, possessive, reluctant),
            (1u32, None) => self.compile_plus(&rep.sub, possessive, reluctant),
            (_, _) => self.compile_counted(&rep.sub, min, max, possessive),
        }
    }

    /// Whether the element is a possessive repetition.
    fn is_possessive(&self, hir: &Hir) -> (r: bool)
        ensures
            r == hir_is_possessive(*hir),
    {
        match hir {
            Hir::Repetition(rep) => match rep.kind {
                RepKind::Possessive => true,
                _ => false,
            },
            _ => false,
        }
    }

    /// Whether the element is an anchor assertion, the only `Look`s the
    /// pairwise rules treat as lookahead.
    fn is_lookahead(&self, hir: &Hir) -> (r: bool)
        ensures
            r == hir_is_anchor(*hir),
    {
        match hir {
            Hir::Look(look) => match look {
                LookKind::Start => true,
                LookKind::End => true,
                LookKind::StartLF => true,
                LookKind::EndLF => true,
                LookKind::StartCRLF => true,
                LookKind::EndCRLF => true,
                _ => false,
            },
            _ => false,
        }
    }

    /// Compile an alternation by right-folded binary Thompson splits: each
    /// split offers the earlier branch first, and both branches share an
    /// exit epsilon.
    fn compile_alternation(&mut self, alternation: &Vec<Hir>) -> (r: CompileResult<Fragment>)
        ensures
            compile_result_ok(old(self)@, final(self)@, r, alt_outcome_from(alternation@, 0)),
            alternation@.len() >= 2 ==> (r matches Ok(f) ==> (final(self)@.states[f.start as int]
                matches StateV::Split(ts) && ts.len() == 2)),
        decreases *alternation, 1int, 0int,
    {
        let ghost pre = self@;
        if alternation.len() == 0 {
            return Ok(self.compile_empty());
        }
        let mut fragments: Vec<Fragment> = Vec::new();
        let mut i: usize = 0;
        while i < alternation.len()
            invariant
                0 <= i <= alternation@.len(),
                pre == old(self)@,
                fragments@.len() == i,
                frags_ok(pre, self@, fragments@),
                alt_outcome_from(alternation@, 0) == alt_outcome_from(alternation@, i as int),
            decreases alternation@.len() - i,
        {
            let ghost cur = self@;
            let f = match self.compile_hir(&alternation[i]) {
                Ok(f) => f,
                Err(e) => {
                    proof {
                        assert(alt_outcome_from(alternation@, i as int) == Some(err_kind(e)));
                    }
                    return Err(e);
                },
            };
            proof {
                lemma_frags_push(pre, cur, self@, fragments@, f);
                assert(alt_outcome_from(alternation@, i as int) == alt_outcome_from(
                    alternation@,
                    i as int + 1,
                ));
            }
            fragments.push(f);
            i += 1;
        }
        let ghost all_frags = fragments@;
        let mut result = fragments.pop().unwrap();
        proof {
            assert(fragments@.push(result) =~= all_frags);
        }
        while fragments.len() > 0
            invariant
                pre == old(self)@,
                frags_ok(pre, self@, fragments@.push(result)),
                fragments@.len() + 1 <= alternation@.len(),
                fragments@.len() + 1 < alternation@.len() ==> (self@.states[result.start as int]
                    matches StateV::Split(ts) && ts.len() == 2),
            decreases fragments@.len(),
        {
            let ghost rest_all = fragments@;
            let fragment = fragments.pop().unwrap();
            let ghost rest = fragments@;
            let ghost cur = self@;
            proof {
                assert(rest_all =~= rest.push(fragment));
                assert(rest.push(fragment).push(result) =~= rest_all.push(result));
                assert(frags_ok(pre, cur, rest.push(fragment).push(result)));
                let fs0 = rest.push(fragment).push(result);
                assert(fs0[rest.len() as int] == fragment);
                assert(fs0[rest.len() as int + 1] == result);
                assert(frag_in(pre, cur, fragment));
                assert(frag_in(pre, cur, result));
            }
            let end_state = self.nfa.epsilon(UNPATCHED);
            let ghost mid2 = self@;
            let mut targets: Vec<StateId> = Vec::new();
            targets.push(fragment.start);
            targets.push(result.start);
            let ghost tseq = targets@;
            proof {
                assert(tseq.len() == 2 && tseq[0] == fragment.start && tseq[1] == result.start);
            }
            let split_state = self.nfa.split(targets);
            let ghost mid3 = self@;
            self.nfa.connect(fragment.end, end_state);
            let ghost mid4 = self@;
            self.nfa.connect(result.end, end_state);
            proof {
                lemma_alt_fold(
                    pre,
                    cur,
                    mid2,
                    mid3,
                    mid4,
                    self@,
                    rest,
                    fragment,
                    result,
                    end_state,
                    split_state,
                    tseq,
                );
            }
            proof {
                assert(fragments@.push(Fragment { start: split_state, end: end_state }) =~= rest.push(
                    Fragment { start: split_state, end: end_state },
                ));
                assert(self@.states[split_state as int] == StateV::Split(tseq));
                assert(tseq.len() == 2);
            }
            result = Fragment { start: split_state, end: end_state };
        }
        proof {
            assert(fragments@.push(result)[0] == result);
            assert(frag_in(pre, self@, result));
            assert forall|i2: int|
                pre.states.len() <= i2 < self@.states.len() && i2 != result.end implies
                state_patched(#[trigger] self@.states[i2]) by {
                assert(!frag_end_in(fragments@.push(result), i2) ==> state_patched(
                    self@.states[i2],
                ));
                if frag_end_in(fragments@.push(result), i2) {
                    let k = choose|k: int|
                        0 <= k < fragments@.push(result).len() && (#[trigger] fragments@.push(
                            result,
                        )[k]).end == i2;
                    assert(fragments@.push(result)[k] == result);
                }
            }
        }
        Ok(result)
    }

    /// Compile a counted repetition: `min` mandatory copies chained end to
    /// start; with a bounded maximum each optional copy sits behind a
    /// split offering it or the shared exit; with an unbounded maximum a
    /// single split loops one more copy back to itself. A possessive
    /// counted repetition deliberately falls back to this non-possessive
    /// lowering.
    fn compile_counted(&mut self, expr: &Hir, min: u32, max: Option<u32>, possessive: bool) -> (r:
        CompileResult<Fragment>)
        ensures
            compile_result_ok(old(self)@, final(self)@, r, counted_outcome(*expr, min, max)),
        decreases *expr, 3int, 0int,
    {
        let ghost pre = self@;
        let zero_copies = min == 0 && (match max {
            Some(m) => m == 0,
            None => false,
        });
        if zero_copies {
            return Ok(self.compile_empty());
        }
        let mut cur: Option<Fragment> = None;
        let mut i: u32 = 0;
        while i < min
            invariant
                0 <= i <= min,
                pre == old(self)@,
                match cur {
                    Some(p) => frag_ok(pre, self@, p) && hir_outcome(*expr) is None,
                    None => self@ == pre && i == 0,
                },
            decreases min - i,
        {
            let ghost curnfa = self@;
            let f = match self.compile_hir(expr) {
                Ok(f) => f,
                Err(e) => {
                    return Err(e);
                },
            };
            match cur {
                None => {
                    cur = Some(f);
                },
                Some(p) => {
                    let ghost mid2v = self@;
                    self.nfa.connect(p.end, f.start);
                    proof {
                        lemma_chain_frags(pre, curnfa, mid2v, self@, p, f);
                    }
                    cur = Some(Fragment { start: p.start, end: f.end });
                },
            }
            i += 1;
        }
        match max {
            Some(m) => {
                let ghost before_exit = self@;
                let e = self.nfa.epsilon(UNPATCHED);
                proof {
                    match cur {
                        Some(p) => {
                            lemma_make_exit(pre, before_exit, self@, p, e);
                        },
                        None => {
                            assert(self@.states[e as int] == StateV::Epsilon(UNPATCHED));
                            assert(self@.states[e as int].out_targets() =~= seq![UNPATCHED]);
                            assert(exit_only(pre, self@, e));
                        },
                    }
                }
                let mut i2: u32 = min;
                while i2 < m
                    invariant
                        min <= i2,
                        i2 <= m || i2 == min,
                        max == Some(m),
                        !(min == 0 && m == 0),
                        pre == old(self)@,
                        pre.states.len() <= e < self@.states.len(),
                        e != UNPATCHED,
                        match cur {
                            Some(p) => frag_with_exit(pre, self@, p, e) && hir_outcome(*expr)
                                is None,
                            None => exit_only(pre, self@, e) && i2 == min && min == 0,
                        },
                    decreases m - i2,
                {
                    let ghost curnfa = self@;
                    let ghost running = cur;
                    let cf = match self.compile_hir(expr) {
                        Ok(f) => f,
                        Err(e2) => {
                            return Err(e2);
                        },
                    };
                    let ghost mid2v = self@;
                    let mut targets: Vec<StateId> = Vec::new();
                    targets.push(cf.start);
                    targets.push(e);
                    let ghost tseq = targets@;
                    proof {
                        assert(tseq.len() == 2 && tseq[0] == cf.start && tseq[1] == e);
                    }
                    let sp = self.nfa.split(targets);
                    let ghost mid3v = self@;
                    let ret: Fragment;
                    match cur {
                        Some(p) => {
                            self.nfa.connect(p.end, sp);
                            ret = Fragment { start: p.start, end: cf.end };
                        },
                        None => {
                            ret = Fragment { start: sp, end: cf.end };
                        },
                    }
                    proof {
                        lemma_split_attach(
                            pre,
                            curnfa,
                            mid2v,
                            mid3v,
                            self@,
                            running,
                            cf,
                            e,
                            sp,
                            tseq,
                            ret,
                        );
                    }
                    cur = Some(ret);
                    i2 += 1;
                }
                match cur {
                    Some(p) => {
                        let ghost curnfa = self@;
                        self.nfa.connect(p.end, e);
                        proof {
                            lemma_close_exit(pre, curnfa, self@, p, e);
                        }
                        Ok(Fragment { start: p.start, end: e })
                    },
                    None => {
                        proof {
                            assert(false);
                        }
                        Err(CompileError::Internal("missing repetition body".to_owned()))
                    },
                }
            },
            None => {
                match cur {
                    Some(p) => {
                        let ghost before_exit = self@;
                        let e = self.nfa.epsilon(UNPATCHED);
                        proof {
                            lemma_make_exit(pre, before_exit, self@, p, e);
                        }
                        let ghost curnfa = self@;
                        let loop_expr = match self.compile_hir(expr) {
                            Ok(f) => f,
                            Err(e2) => {
                                return Err(e2);
                            },
                        };
                        let ghost mid2v = self@;
                        let mut targets: Vec<StateId> = Vec::new();
                        targets.push(loop_expr.start);
                        targets.push(e);
                        let ghost tseq = targets@;
                        proof {
                            assert(tseq.len() == 2 && tseq[0] == loop_expr.start && tseq[1] == e);
                        }
                        let sp = self.nfa.split(targets);
                        let ghost mid3v = self@;
                        self.nfa.connect(p.end, sp);
                        let ghost post1v = self@;
                        self.nfa.connect(loop_expr.end, sp);
                        proof {
                            lemma_unbounded_tail(
                                pre,
                                curnfa,
                                mid2v,
                                mid3v,
                                post1v,
                                self@,
                                p,
                                loop_expr,
                                e,
                                sp,
                                tseq,
                            );
                        }
                        Ok(Fragment { start: p.start, end: e })
                    },
                    None => {
                        // unbounded counted repetitions always carry at
                        // least one mandatory copy: smaller bounds lower
                        // through the dedicated star and plus shapes
                        proof {
                            assert(min == 0);
                        }
                        let f = match self.compile_hir(expr) {
                            Ok(f) => f,
                            Err(e2) => {
                                return Err(e2);
                            },
                        };
                        Ok(f)
                    },
                }
            },
        }
    }

    /// Whether a possessive element and a following lookahead element are
    /// disjoint: assertions carry no symbols, so they are always disjoint
    /// from a character pattern; anything else is assumed to overlap.
    fn is_disjoint_lookahead(&self, possessive: &Hir, lookahead: &Hir) -> (r: CompileResult<bool>)
        ensures
            r matches Ok(b) && b == *lookahead is Look,
    {
        match lookahead {
            Hir::Look(_) => Ok(true),
            _ => Ok(false),
        }
    }

    /// Compile a possessive element followed by a disjoint assertion: the
    /// possessive is lowered as usual and an end anchor is fused into the
    /// exit transitions as an end-of-input lookahead; start anchors after
    /// a possessive are not supported.
    fn compile_possessive_with_disjoint_lookahead(&mut self, possessive: &Hir, lookahead: &Hir) -> (
        r: CompileResult<Fragment>)
        ensures
            compile_result_ok(old(self)@, final(self)@, r, pwdl_outcome(*possessive, *lookahead)),
            *possessive matches Hir::Repetition(rp) ==> (rp.kind is Possessive && rp.min == 1
                && rp.max is None ==> (r matches Ok(f) ==> anchored_possessive_node_at(
                final(self)@,
                f.start,
                f.end,
                *rp.sub,
            ))),
        decreases *possessive, 2int, 0int,
    {
        let is_end = match lookahead {
            Hir::Look(k) => match k {
                LookKind::End => true,
                LookKind::EndLF => true,
                LookKind::EndCRLF => true,
                _ => false,
            },
            _ => {
                return Err(CompileError::Internal("expected lookahead assertion".to_owned()));
            },
        };
        if !is_end {
            return Err(
                CompileError::UnsupportedFeature(
                    "start anchors after possessive not supported".to_owned(),
                ),
            );
        }
        let ghost pre = self@;
        let possessive_fragment = match self.compile_hir(possessive) {
            Ok(f) => f,
            Err(e) => {
                return Err(e);
            },
        };
        let ghost mid = self@;
        match self.add_end_anchor_constraint_to_exits(
            possessive_fragment.start,
            possessive_fragment.end,
        ) {
            Ok(()) => {},
            Err(e) => {
                return Err(e);
            },
        }
        proof {
            assert forall|i: int| 0 <= i < self@.states.len() implies ((
            #[trigger] self@.states[i]).out_targets() == mid.states[i].out_targets() && (
            self@.states[i] is Transitions <==> mid.states[i] is Transitions) && (self@.states[i]
                is Match <==> mid.states[i] is Match) && (!(mid.states[i] is Transitions)
                ==> self@.states[i] == mid.states[i])) by {
                if possessive_fragment.start <= i {
                    lemma_end_anchored_targets(
                        mid.states[i],
                        self@.states[i],
                        possessive_fragment.end,
                    );
                }
            }
            lemma_lookahead_rewrite_frame(pre, mid, self@, possessive_fragment);
            match possessive {
                Hir::Repetition(rp) => {
                    if rp.kind is Possessive && rp.min == 1 && rp.max is None {
                        assert(*possessive == Hir::Repetition(*rp));
                        assert(possessive_node_at(mid, possessive_fragment.start,
                            possessive_fragment.end, *rp.sub));
                        let rgs = choose|rgs: Seq<CharRange>|
                            #[trigger] poss_ranges_of(*rp.sub, rgs) && possessive_node_shape(
                                mid.states[possessive_fragment.start as int],
                                rgs,
                                possessive_fragment.start,
                                possessive_fragment.end,
                            );
                        match mid.states[possessive_fragment.start as int] {
                            StateV::Transitions(ts) => {
                                assert(end_anchored_state(
                                    mid.states[possessive_fragment.start as int],
                                    self@.states[possessive_fragment.start as int],
                                    possessive_fragment.end,
                                ));
                                match self@.states[possessive_fragment.start as int] {
                                    StateV::Transitions(ts2) => {
                                        assert forall|m: int|
                                            0 <= m < ts2.len() implies anchored_poss_trans(
                                            #[trigger] ts2[m],
                                            rgs,
                                            possessive_fragment.start,
                                            possessive_fragment.end,
                                        ) by {
                                            assert(end_anchored_trans(ts[m], ts2[m],
                                                possessive_fragment.end));
                                            assert(possessive_trans_shape(ts[m], rgs,
                                                possessive_fragment.start,
                                                possessive_fragment.end));
                                        }
                                        assert(anchored_possessive_node_at(
                                            self@,
                                            possessive_fragment.start,
                                            possessive_fragment.end,
                                            *rp.sub,
                                        ));
                                    },
                                    _ => {
                                        assert(false);
                                    },
                                }
                            },
                            _ => {
                                assert(false);
                            },
                        }
                    }
                },
                _ => {},
            }
        }
        Ok(possessive_fragment)
    }

    /// Fuse an end anchor into the exits of a lowered possessive pattern:
    /// every transition from `start` on that leaves for `end` gains a
    /// lookahead that no symbol satisfies, so it can only fire at the end
    /// of the input. Non-consuming paths to the exit are left as they
    /// are: an empty possessive match before an end anchor stays
    /// unconstrained.
    pub fn add_end_anchor_constraint_to_exits(&mut self, start: StateId, end: StateId) -> (r:
        CompileResult<()>)
        ensures
            r is Ok,
            final(self)@.states.len() == old(self)@.states.len(),
            final(self)@.start == old(self)@.start,
            final(self)@.accepting == old(self)@.accepting,
            forall|i: int|
                0 <= i < final(self)@.states.len() ==> if start <= i {
                    end_anchored_state(old(self)@.states[i], final(self)@.states[i], end)
                } else {
                    final(self)@.states[i] == old(self)@.states[i]
                },
    {
        let ghost orig = self@;
        let n = self.nfa.states.len();
        proof {
            assert(self@.states.len() == n);
        }
        let mut s = start;
        while s < n
            invariant
                start <= s,
                n == self@.states.len(),
                n == orig.states.len(),
                self@.start == orig.start,
                self@.accepting == orig.accepting,
                forall|i: int|
                    0 <= i < n ==> if start <= i < s {
                        end_anchored_state(orig.states[i], self@.states[i], end)
                    } else {
                        self@.states[i] == orig.states[i]
                    },
            decreases n - s,
        {
            let ghost statev = self@.states[s as int];
            let is_trans = match &self.nfa.states[s] {
                State::Transitions { .. } => true,
                _ => false,
            };
            if is_trans {
                let mut st = self.nfa.states.remove(s);
                let ghost removed = self@.states;
                match &mut st {
                    State::Transitions { transitions } => {
                        set_end_anchor_lookaheads(transitions, end);
                    },
                    _ => {},
                }
                self.nfa.states.insert(s, st);
                proof {
                    assert(end_anchored_state(statev, self@.states[s as int], end));
                }
            }
            s += 1;
            proof {
                assert forall|i: int| 0 <= i < n implies if start <= i < s {
                    end_anchored_state(orig.states[i], self@.states[i], end)
                } else {
                    self@.states[i] == orig.states[i]
                } by {
                    if i == s - 1 && statev is Transitions {
                    } else if i == s - 1 {
                        assert(self@.states[i] == orig.states[i]);
                        assert(end_anchored_state(orig.states[i], self@.states[i], end));
                    }
                }
            }
        }
        Ok(())
    }

    /// Compile an element with the lookahead symbols of the following
    /// element fused into every transition.
    fn compile_with_lookahead(&mut self, first: &Hir, second: &Hir) -> (r: CompileResult<Fragment>)
        ensures
            compile_result_ok(old(self)@, final(self)@, r, cwl_outcome(*first, *second)),
        decreases *first, 2int, 0int,
    {
        let lookahead_chars = match self.extract_lookahead_chars(second) {
            Ok(cs) => cs,
            Err(e) => {
                return Err(e);
            },
        };
        let ghost pre = self@;
        let base_fragment = match self.compile_single(first) {
            Ok(f) => f,
            Err(e) => {
                return Err(e);
            },
        };
        let ghost mid = self@;
        match self.augment_with_lookahead(base_fragment.start, &lookahead_chars) {
            Ok(()) => {},
            Err(e) => {
                return Err(e);
            },
        }
        proof {
            assert forall|i: int| 0 <= i < self@.states.len() implies ((
            #[trigger] self@.states[i]).out_targets() == mid.states[i].out_targets() && (
            self@.states[i] is Transitions <==> mid.states[i] is Transitions) && (self@.states[i]
                is Match <==> mid.states[i] is Match) && (!(mid.states[i] is Transitions)
                ==> self@.states[i] == mid.states[i])) by {
                if mid.reaches(base_fragment.start, i as StateId) {
                    lemma_augmented_targets(mid.states[i], self@.states[i], lookahead_chars@);
                } else {
                    assert(self@.states[i] == mid.states[i]);
                }
            }
            assert forall|i: int| 0 <= i < pre.states.len() implies self@.states[i]
                == pre.states[i] by {
                if mid.reaches(base_fragment.start, i as StateId) {
                    let p = choose|p: Seq<StateId>|
                        mid.is_path(p) && p.first() == base_fragment.start && p.last()
                            == i as StateId;
                    lemma_region_path(mid, pre.states.len() as int, p);
                }
                assert(self@.states[i] == mid.states[i]);
                assert(mid.states[i] == pre.states[i]);
            }
            lemma_lookahead_rewrite_frame(pre, mid, self@, base_fragment);
        }
        Ok(base_fragment)
    }

    /// Fuse a lookahead symbol set into every transition of every state
    /// reachable from `start_state`, traversing transition, epsilon and
    /// split edges: each such transition's lookahead slot is set to a
    /// predicate for the set. States not reachable from `start_state` are
    /// untouched, and an empty set leaves everything alone.
    #[verifier::rlimit(60)]
    pub fn augment_with_lookahead(&mut self, start_state: StateId, lookahead_chars: &Vec<char>) -> (
        r: CompileResult<()>)
        ensures
            r is Ok,
            final(self)@.states.len() == old(self)@.states.len(),
            final(self)@.start == old(self)@.start,
            final(self)@.accepting == old(self)@.accepting,
            forall|i: int|
                0 <= i < final(self)@.states.len() ==> if old(self)@.reaches(
                    start_state,
                    i as StateId,
                ) {
                    augmented_state(
                        old(self)@.states[i],
                        final(self)@.states[i],
                        lookahead_chars@,
                    )
                } else {
                    final(self)@.states[i] == old(self)@.states[i]
                },
    {
        let ghost orig = self@;
        let ghost cs = lookahead_chars@;
        if lookahead_chars.len() == 0 {
            proof {
                assert forall|i: int| 0 <= i < self@.states.len() implies augmented_state(
                    orig.states[i],
                    self@.states[i],
                    cs,
                ) by {
                    match orig.states[i] {
                        StateV::Transitions(ts) => {
                            assert(self@.states[i] == orig.states[i]);
                            assert forall|j: int| 0 <= j < ts.len() implies augmented_trans(
                                ts[j],
                                ts[j],
                                cs,
                            ) by {}
                        },
                        _ => {},
                    }
                }
            }
            return Ok(());
        }
        let mut rgs: Vec<CharRange> = Vec::new();
        let mut ri: usize = 0;
        while ri < lookahead_chars.len()
            invariant
                0 <= ri <= lookahead_chars@.len(),
                rgs@.len() == ri,
                forall|m: int|
                    0 <= m < ri ==> ((#[trigger] rgs@[m]).lo == lookahead_chars@[m] && rgs@[m].hi
                        == lookahead_chars@[m]),
            decreases lookahead_chars@.len() - ri,
        {
            let c = lookahead_chars[ri];
            rgs.push(CharRange::new(c, c));
            ri += 1;
        }
        proof {
            assert(ranges_single(rgs@, cs));
        }
        let n = self.nfa.states.len();
        proof {
            assert(self@.states.len() == n);
        }
        let mut visited: Vec<bool> = Vec::new();
        let mut k: usize = 0;
        while k < n
            invariant
                0 <= k <= n,
                visited@.len() == k,
                forall|j: int| 0 <= j < k ==> !visited@[j],
            decreases n - k,
        {
            visited.push(false);
            k += 1;
        }
        let mut stack: Vec<StateId> = Vec::new();
        stack.push(start_state);
        proof {
            orig.lemma_reaches_refl(start_state);
            assert(stack@ =~= seq![start_state]);
        }
        while stack.len() > 0
            invariant
                n == self@.states.len(),
                n == orig.states.len(),
                visited@.len() == n,
                cs == lookahead_chars@,
                cs.len() > 0,
                ranges_single(rgs@, cs),
                self@.start == orig.start,
                self@.accepting == orig.accepting,
                forall|i: int|
                    0 <= i < n ==> if visited@[i] {
                        augmented_state(orig.states[i], self@.states[i], cs)
                    } else {
                        self@.states[i] == orig.states[i]
                    },
                forall|i: int|
                    0 <= i < n && visited@[i] ==> orig.reaches(start_state, i as StateId),
                forall|j: int|
                    0 <= j < stack@.len() ==> orig.reaches(start_state, #[trigger] stack@[j]),
                forall|i: int, j: int|
                    #![trigger visited@[i], orig.states[i].out_targets()[j]]
                    0 <= i < n && visited@[i] && 0 <= j < orig.states[i].out_targets().len()
                        && orig.states[i].out_targets()[j] < n ==> (visited@[orig.states[
                        i].out_targets()[j] as int] || stack@.contains(
                        orig.states[i].out_targets()[j],
                    )),
                (start_state < n && !visited@[start_state as int]) ==> stack@.contains(
                    start_state,
                ),
            decreases crate::nfa::num_false(visited@), stack@.len(),
        {
            let ghost stack_pre = stack@;
            let s = stack.pop().unwrap();
            proof {
                assert(stack_pre[stack_pre.len() - 1] == s);
                assert(orig.reaches(start_state, s));
            }
            if s < n {
                if !visited[s] {
                    let ghost visited_pre = visited@;
                    visited.set(s, true);
                    proof {
                        crate::nfa::lemma_num_false_update(visited_pre, s as int);
                    }
                    let tgts = crate::nfa::out_targets_of(&self.nfa, s);
                    proof {
                        assert(self@.states[s as int] == orig.states[s as int]);
                        assert(tgts@ == orig.states[s as int].out_targets());
                    }
                    let ghost statev = self@.states[s as int];
                    let is_trans = match &self.nfa.states[s] {
                        State::Transitions { .. } => true,
                        _ => false,
                    };
                    if is_trans {
                        let mut st = self.nfa.states.remove(s);
                        match &mut st {
                            State::Transitions { transitions } => {
                                set_lookaheads(transitions, &rgs);
                            },
                            _ => {},
                        }
                        self.nfa.states.insert(s, st);
                        proof {
                            assert(augmented_state(statev, self@.states[s as int], cs));
                        }
                    } else {
                        proof {
                            assert(augmented_state(statev, self@.states[s as int], cs));
                        }
                    }
                    let mut q: usize = 0;
                    while q < tgts.len()
                        invariant
                            0 <= q <= tgts@.len(),
                            n == self@.states.len(),
                            n == orig.states.len(),
                            visited@.len() == n,
                            s < n,
                            visited@[s as int],
                            tgts@ == orig.states[s as int].out_targets(),
                            orig.reaches(start_state, s),
                            forall|j2: int|
                                0 <= j2 < stack@.len() ==> orig.reaches(
                                    start_state,
                                    #[trigger] stack@[j2],
                                ),
                            forall|j2: int|
                                0 <= j2 < q && (#[trigger] tgts@[j2]) < n ==> (visited@[tgts@[
                                j2] as int] || stack@.contains(tgts@[j2])),
                            forall|i: int, j2: int|
                                #![trigger visited@[i], orig.states[i].out_targets()[j2]]
                                0 <= i < n && visited@[i] && i != s && 0 <= j2 < orig.states[
                                    i].out_targets().len() && orig.states[i].out_targets()[j2]
                                    < n ==> (visited@[orig.states[i].out_targets()[j2] as int]
                                    || stack@.contains(orig.states[i].out_targets()[j2])),
                            (start_state < n && !visited@[start_state as int])
                                ==> stack@.contains(start_state),
                        decreases tgts@.len() - q,
                    {
                        let t = tgts[q];
                        if t < n {
                            proof {
                                assert(orig.states[s as int].out_targets().contains(tgts@[
                                    q as int]));
                                assert(orig.edge(s, t));
                                orig.lemma_edge_reaches(s, t);
                                orig.lemma_reaches_trans(start_state, s, t);
                            }
                            stack.push(t);
                        }
                        q += 1;
                    }
                }
            }
        }
        proof {
            assert forall|i: int| 0 <= i < n implies if orig.reaches(start_state, i as StateId) {
                augmented_state(orig.states[i], self@.states[i], cs)
            } else {
                self@.states[i] == orig.states[i]
            } by {
                if orig.reaches(start_state, i as StateId) {
                    let p = choose|p: Seq<StateId>|
                        orig.is_path(p) && p.first() == start_state && p.last() == i as StateId;
                    crate::nfa::lemma_path_in_marking(orig, visited@, p);
                    assert(visited@[i]);
                } else {
                    assert(!visited@[i]);
                }
            }
        }
        Ok(())
    }

    /// Compile a single element on its own.
    fn compile_single(&mut self, hir: &Hir) -> (r: CompileResult<Fragment>)
        ensures
            compile_result_ok(old(self)@, final(self)@, r, hir_outcome(*hir)),
        decreases *hir, 1int, 0int,
    {
        self.compile_hir(hir)
    }

    /// Compile a pair of adjacent elements according to the pairwise
    /// rules; returns the fragment and how many elements were consumed.
    fn compile_pair(&mut self, first: &Hir, second: &Hir) -> (r: CompileResult<(Fragment, usize)>)
        ensures
            match r {
                Ok(p) => frag_ok(old(self)@, final(self)@, p.0) && pair_outcome(*first, *second)
                    is None && (p.1 == 2 <==> hir_is_anchor(*second)) && (p.1 == 1 || p.1 == 2),
                Err(e) => pair_outcome(*first, *second) == Some(err_kind(e)),
            },
            hir_is_anchor(*second) ==> (*first matches Hir::Repetition(rp) ==> (rp.kind
                is Possessive && rp.min == 1 && rp.max is None ==> (r matches Ok(p)
                ==> anchored_possessive_node_at(final(self)@, p.0.start, p.0.end, *rp.sub)))),
        decreases *first, 3int, 0int,
    {
        let first_is_possessive = self.is_possessive(first);
        let first_is_lookahead = self.is_lookahead(first);
        let second_is_lookahead = self.is_lookahead(second);
        if first_is_lookahead {
            return Err(
                CompileError::UnsupportedFeature("first element cannot be lookahead".to_owned()),
            );
        }
        if second_is_lookahead {
            if first_is_possessive {
                let disjoint = match self.is_disjoint_lookahead(first, second) {
                    Ok(b) => b,
                    Err(e) => {
                        return Err(e);
                    },
                };
                if disjoint {
                    let fragment = match self.compile_possessive_with_disjoint_lookahead(
                        first,
                        second,
                    ) {
                        Ok(f) => f,
                        Err(e) => {
                            return Err(e);
                        },
                    };
                    Ok((fragment, 2))
                } else {
                    Err(
                        CompileError::UnsupportedFeature(
                            "possessive with overlapping lookahead not supported".to_owned(),
                        ),
                    )
                }
            } else {
                let fragment = match self.compile_with_lookahead(first, second) {
                    Ok(f) => f,
                    Err(e) => {
                        return Err(e);
                    },
                };
                Ok((fragment, 2))
            }
        } else {
            let fragment = match self.compile_single(first) {
                Ok(f) => f,
                Err(e) => {
                    return Err(e);
                },
            };
            Ok((fragment, 1))
        }
    }

    /// Compile a concatenation with the pairwise strategy: the scan looks
    /// at two adjacent elements at a time and consumes one or two of
    /// them; the lowered fragments are chained end to start as the scan
    /// proceeds.
    fn compile_concat(&mut self, concat: &Vec<Hir>) -> (r: CompileResult<Fragment>)
        ensures
            compile_result_ok(old(self)@, final(self)@, r, concat_outcome_from(concat@, 0)),
        decreases *concat, 4int, 0int,
    {
        let ghost pre = self@;
        if concat.len() == 0 {
            return Ok(self.compile_empty());
        }
        if concat.len() == 1 {
            let r = self.compile_hir(&concat[0]);
            return r;
        }
        let mut cur: Option<Fragment> = None;
        let mut i: usize = 0;
        while i < concat.len()
            invariant
                0 <= i <= concat@.len(),
                pre == old(self)@,
                match cur {
                    Some(p) => frag_ok(pre, self@, p),
                    None => self@ == pre && i == 0,
                },
                i > 0 ==> cur is Some,
                concat_outcome_from(concat@, 0) == concat_outcome_from(concat@, i as int),
            decreases concat@.len() - i,
        {
            let ghost curnfa = self@;
            let ghost i0 = i as int;
            let f: Fragment;
            let consumed: usize;
            if i + 1 < concat.len() {
                match self.compile_pair(&concat[i], &concat[i + 1]) {
                    Ok(p) => {
                        f = p.0;
                        consumed = p.1;
                        proof {
                            assert(concat_outcome_from(concat@, i0) == concat_outcome_from(
                                concat@,
                                i0 + (consumed as int),
                            ));
                        }
                    },
                    Err(e) => {
                        proof {
                            assert(concat_outcome_from(concat@, i0) == Some(err_kind(e)));
                        }
                        return Err(e);
                    },
                }
            } else {
                match self.compile_single(&concat[i]) {
                    Ok(fr) => {
                        f = fr;
                        consumed = 1;
                        proof {
                            assert(concat_outcome_from(concat@, i0) == hir_outcome(concat@[i0]));
                            assert(concat_outcome_from(concat@, i0 + 1) == Option::<
                                ErrKind,
                            >::None);
                        }
                    },
                    Err(e) => {
                        proof {
                            assert(concat_outcome_from(concat@, i0) == hir_outcome(concat@[i0]));
                        }
                        return Err(e);
                    },
                }
            }
            match cur {
                None => {
                    cur = Some(f);
                },
                Some(p) => {
                    let ghost mid2v = self@;
                    self.nfa.connect(p.end, f.start);
                    proof {
                        lemma_chain_frags(pre, curnfa, mid2v, self@, p, f);
                    }
                    cur = Some(Fragment { start: p.start, end: f.end });
                },
            }
            i += consumed;
        }
        match cur {
            Some(p) => Ok(p),
            None => {
                proof {
                    assert(false);
                }
                Err(CompileError::Internal("missing concatenation body".to_owned()))
            },
        }
    }

    /// Compile one tree node to an NFA fragment, dispatching on its kind.
    fn compile_hir(&mut self, hir: &Hir) -> (r: CompileResult<Fragment>)
        ensures
            compile_result_ok(old(self)@, final(self)@, r, hir_outcome(*hir)),
            *hir matches Hir::Repetition(rp) ==> (rp.kind is Possessive ==> (r matches Ok(f) ==> ((
            rp.min == 1 && rp.max is None ==> possessive_node_at(
                final(self)@,
                f.start,
                f.end,
                *rp.sub,
            )) && (rp.min == 0 && rp.max is None ==> possessive_star_at(
                final(self)@,
                f,
                *rp.sub,
            ))))),
            *hir is Empty ==> (r matches Ok(f) ==> (f.start == old(self)@.states.len() && f.start
                == f.end && final(self)@.states =~= old(self)@.states.push(
                StateV::Epsilon(UNPATCHED),
            ))),
            *hir matches Hir::Literal(l) ==> (l@.len() > 0 ==> (r matches Ok(f) ==> {
                &&& f.start == old(self)@.states.len()
                &&& f.end == f.start + l@.len() - 1
                &&& final(self)@.states.len() == old(self)@.states.len() + l@.len()
                &&& forall|k: int|
                    0 <= k < l@.len() ==> #[trigger] lit_ok_at(
                        final(self)@,
                        f.start as int,
                        l@,
                        k,
                    )
            })),
        decreases *hir, 0int, 0int,
    {
        match hir {
            Hir::Empty => Ok(self.compile_empty()),
            Hir::Literal(literal) => self.compile_literal(literal),
            Hir::Class(class) => self.compile_class(class),
            Hir::Look(_) => Err(
                CompileError::UnsupportedFeature("lookarounds not yet implemented".to_owned()),
            ),
            Hir::Repetition(rep) => self.compile_repetition(rep),
            Hir::Capture(capture) => self.compile_hir(capture),
            Hir::Concat(concat) => self.compile_concat(concat),
            Hir::Alternation(alternation) => self.compile_alternation(alternation),
        }
    }

    /// Compile a tree to a complete NFA: the lowered fragment's start
    /// becomes the start state, and its end is connected to a fresh match
    /// state, the only one in the graph. The compiler owns its NFA for one
    /// compilation: it starts empty, as `Compiler::new` creates it, and is
    /// consumed here.
    ///
    /// On success the returned graph is structurally sound: every
    /// transition target is a real state (no sentinel survives), the
    /// accepting set holds exactly the one match state, and that state is
    /// reachable from the start state.
    #[verifier::rlimit(80)]
    pub fn compile(self, hir: &Hir) -> (r: CompileResult<NFA>)
        requires
            self@.states.len() == 0,
            self@.accepting.len() == 0,
        ensures
            match r {
                Ok(nfa) => hir_outcome(*hir) is None && compiled_ok(nfa@),
                Err(e) => hir_outcome(*hir) == Some(err_kind(e)),
            },
            r matches Ok(nfa) ==> compile_possessive_boundary(*hir, nfa@),
            r matches Ok(nfa) ==> compile_literal_boundary(*hir, nfa@),
            r matches Ok(nfa) ==> compile_empty_boundary(*hir, nfa@),
    {
        let mut this = self;
        let ghost pre = this@;
        let fragment = match this.compile_hir(hir) {
            Ok(f) => f,
            Err(e) => {
                return Err(e);
            },
        };
        let ghost post_hir = this@;
        this.nfa.start = fragment.start;
        let ghost mid = this@;
        let match_state = this.nfa.match_state();
        let ghost mid2 = this@;
        this.nfa.connect(fragment.end, match_state);
        proof {
            let post = this@;
            assert(mid2.states[fragment.end as int] == mid.states[fragment.end as int]);
            lemma_connect_end(mid2, post, fragment.end, match_state);
            lemma_edges_preserved_extend(mid, mid2);
            lemma_reaches_preserved(mid, mid2, fragment.start, fragment.end);
            lemma_reaches_preserved(mid2, post, fragment.start, fragment.end);
            post.lemma_edge_reaches(fragment.end, match_state);
            post.lemma_reaches_trans(fragment.start, fragment.end, match_state);
            let hi = post.states.len() as int;
            assert forall|s: int| 0 <= s < hi implies state_targets_valid(
                #[trigger] post.states[s],
                hi,
            ) by {
                if s == fragment.end {
                    let tp = post.states[fragment.end as int].out_targets();
                    let tm = mid2.states[fragment.end as int].out_targets();
                    assert forall|j: int| 0 <= j < tp.len() implies (#[trigger] tp[j]) < hi by {
                        if tp[j] == match_state {
                        } else {
                            assert(tp[j] == tm[j]);
                            assert(state_in_region(mid.states[fragment.end as int], 0,
                                mid.states.len() as int));
                            assert(state_patched(post.states[fragment.end as int]));
                        }
                    }
                } else if s == match_state {
                    assert(post.states[s].out_targets() =~= Seq::<StateId>::empty());
                } else {
                    assert(post.states[s] == mid.states[s]);
                    assert(state_in_region(mid.states[s], 0, mid.states.len() as int));
                    assert(state_patched(mid.states[s]));
                    assert forall|j: int|
                        0 <= j < post.states[s].out_targets().len() implies (
                    #[trigger] post.states[s].out_targets()[j]) < hi by {
                        assert(post.states[s].out_targets()[j] != UNPATCHED);
                    }
                }
            }
            assert(post.accepting =~= seq![match_state]);
            assert forall|s: int|
                0 <= s < hi && (#[trigger] post.states[s]) is Match implies post.accepting.contains(
                s as StateId,
            ) by {
                if s != match_state {
                    if s == fragment.end {
                        assert(!(post.states[s] is Match));
                    } else {
                        assert(post.states[s] == mid.states[s]);
                        assert(!(mid.states[s] is Match));
                    }
                    assert(false);
                } else {
                    assert(post.accepting[0] == match_state);
                }
            }
            assert(post.accepting[0] == match_state);
            assert(post.states[match_state as int] is Match);
            assert forall|s: int|
                0 <= s < hi && (#[trigger] post.states[s]) is Match implies s
                == match_state by {
                if s != match_state {
                    if s == fragment.end {
                    } else {
                        assert(post.states[s] == mid.states[s]);
                    }
                }
            }
            assert(compiled_ok(post)) by {
                assert(post.states[match_state as int] is Match && post.reaches(
                    post.start,
                    match_state,
                ));
            }
            match hir {
                Hir::Repetition(rp) => {
                    if rp.kind is Possessive {
                        if rp.min == 1 && rp.max is None {
                            assert(possessive_node_at(post_hir, fragment.start, fragment.end,
                                *rp.sub));
                            assert(post.states[fragment.start as int] == post_hir.states[
                                fragment.start as int]);
                            lemma_possessive_node_persists(
                                post_hir,
                                post,
                                fragment.start,
                                fragment.end,
                                *rp.sub,
                            );
                            assert(post.start == fragment.start);
                            assert(possessive_node_at(post, post.start, fragment.end, *rp.sub));
                            assert(exists|ex: StateId|
                                #[trigger] possessive_node_at(post, post.start, ex, *rp.sub));
                        }
                        if rp.min == 0 && rp.max is None {
                            assert(possessive_star_at(post_hir, fragment, *rp.sub));
                            match post_hir.states[fragment.start as int] {
                                StateV::Split(ts) => {
                                    let ex = choose|ex: StateId|
                                        #[trigger] possessive_node_at(
                                            post_hir,
                                            ts[0],
                                            ex,
                                            *rp.sub,
                                        ) && ex != fragment.end && ex < post_hir.states.len()
                                            && post_hir.states[ex as int] == StateV::Epsilon(
                                            fragment.end,
                                        );
                                    assert(ts[0] != fragment.end);
                                    assert(post.states[ts[0] as int] == post_hir.states[ts[
                                        0] as int]);
                                    lemma_possessive_node_persists(
                                        post_hir,
                                        post,
                                        ts[0],
                                        ex,
                                        *rp.sub,
                                    );
                                    assert(post.states[ex as int] == post_hir.states[ex as int]);
                                    assert(post.states[fragment.start as int] == post_hir.states[
                                        fragment.start as int]);
                                    assert(possessive_star_at(
                                        post,
                                        Fragment { start: post.start, end: fragment.end },
                                        *rp.sub,
                                    ));
                                    assert(exists|e2: StateId|
                                        #[trigger] possessive_star_at(
                                            post,
                                            Fragment { start: post.start, end: e2 },
                                            *rp.sub,
                                        ));
                                },
                                _ => {
                                    assert(false);
                                },
                            }
                        }
                    }
                },
                _ => {},
            }
        }
        let nfa_out = this.nfa;
        proof {
            assert(nfa_out@ == this@);
            match hir {
                Hir::Repetition(rp) => {
                    assert(*hir == Hir::Repetition(*rp));
                    if rp.kind is Possessive && rp.min == 1 && rp.max is None {
                        assert(possessive_node_at(nfa_out@, nfa_out@.start, fragment.end,
                            *rp.sub));
                        assert(exists|ex: StateId|
                            #[trigger] possessive_node_at(nfa_out@, nfa_out@.start, ex, *rp.sub));
                    }
                    if rp.kind is Possessive && rp.min == 0 && rp.max is None {
                        assert(possessive_star_at(
                            nfa_out@,
                            Fragment { start: nfa_out@.start, end: fragment.end },
                            *rp.sub,
                        ));
                        assert(exists|e2: StateId|
                            #[trigger] possessive_star_at(
                                nfa_out@,
                                Fragment { start: nfa_out@.start, end: e2 },
                                *rp.sub,
                            ));
                    }
                    assert(compile_possessive_boundary(*hir, nfa_out@));
                    assert(compile_literal_boundary(*hir, nfa_out@));
                    assert(compile_empty_boundary(*hir, nfa_out@));
                },
                Hir::Literal(l) => {
                    assert(*hir == Hir::Literal(*l));
                    if l@.len() > 0 {
                        let v = nfa_out@;
                        assert(v.states.len() == l@.len() + 1);
                        assert(v.start == 0 && fragment.start == 0);
                        assert(v.states[l@.len() as int] is Match);
                        assert forall|k: int|
                            0 <= k < l@.len() implies ((#[trigger] v.states[k]) matches
                            StateV::Transitions(ts) && ts.len() == 1 && ts[0].current
                            == PredV::Char(l@[k]) && ts[0].lookahead is None && ts[0].target == (
                        k + 1) as StateId) by {
                            assert(lit_ok_at(post_hir, 0, l@, k));
                            if k < l@.len() - 1 {
                                assert(v.states[k] == post_hir.states[k]);
                            } else {
                                assert(k == fragment.end);
                                match post_hir.states[k] {
                                    StateV::Transitions(ts) => {
                                        match v.states[k] {
                                            StateV::Transitions(ts2) => {
                                                assert(ts2 == ts.map_values(
                                                    |t: TransV| crate::nfa::patch_transition(
                                                        t,
                                                        match_state,
                                                    ),
                                                ));
                                                assert(ts2.len() == 1);
                                                assert(ts2[0] == crate::nfa::patch_transition(
                                                    ts[0],
                                                    match_state,
                                                ));
                                                assert(ts[0].target == UNPATCHED);
                                                assert(ts2[0].current == ts[0].current);
                                                assert(ts2[0].lookahead == ts[0].lookahead);
                                                assert(ts2[0].target == match_state);
                                                assert(match_state == l@.len());
                                            },
                                            _ => {
                                                assert(false);
                                            },
                                        }
                                    },
                                    _ => {
                                        assert(false);
                                    },
                                }
                            }
                        }
                        assert(literal_nfa_ok(v, l@));
                        lemma_literal_matches_itself(v, l@);
                    }
                    assert(compile_literal_boundary(*hir, nfa_out@));
                    assert(compile_possessive_boundary(*hir, nfa_out@));
                    assert(compile_empty_boundary(*hir, nfa_out@));
                },
                Hir::Empty => {
                    assert(*hir == Hir::Empty);
                    let v = nfa_out@;
                    assert(post_hir.states =~= pre.states.push(StateV::Epsilon(UNPATCHED)));
                    assert(post_hir.states.len() == 1);
                    assert(v.states.len() == 2);
                    assert(v.start == 0 && fragment.start == 0 && fragment.end == 0);
                    assert(v.states[1] is Match);
                    assert(mid2.states[0] == StateV::Epsilon(UNPATCHED));
                    assert(connect_effect(mid2.states[0], v.states[0], match_state));
                    assert(match_state == 1);
                    assert(v.states[0] == StateV::Epsilon(1));
                    assert(empty_nfa_ok(v));
                    assert forall|chars: Seq<char>|
                        #[trigger] v.match_at_spec(chars, 0) == Some(0int) && v.find_spec(chars)
                            == Some((0int, 0int)) by {
                        lemma_empty_matches_everywhere(v, chars);
                    }
                    assert(compile_empty_boundary(*hir, nfa_out@));
                    assert(compile_possessive_boundary(*hir, nfa_out@));
                    assert(compile_literal_boundary(*hir, nfa_out@));
                },
                _ => {
                    assert(compile_possessive_boundary(*hir, nfa_out@));
                    assert(compile_literal_boundary(*hir, nfa_out@));
                    assert(compile_empty_boundary(*hir, nfa_out@));
                },
            }
        }
        Ok(nfa_out)
    }

}

/// `rgs` holds one degenerate range per character of `cs`, in order:
/// together they cover exactly the characters of `cs`.
pub open spec fn ranges_single(rgs: Seq<CharRange>, cs: Seq<char>) -> bool {
    &&& rgs.len() == cs.len()
    &&& forall|m: int|
        0 <= m < rgs.len() ==> ((#[trigger] rgs[m]).lo == cs[m] && rgs[m].hi == cs[m])
}

/// A symbol lies in the degenerate ranges of `cs` exactly when `cs` holds it.
pub proof fn lemma_singleton_ranges(rgs: Seq<CharRange>, cs: Seq<char>, x: char)
    requires
        ranges_single(rgs, cs),
    ensures
        crate::nfa::char_in_ranges(rgs, x) <==> cs.contains(x),
{
    if crate::nfa::char_in_ranges(rgs, x) {
        let i = choose|i: int|
            0 <= i < rgs.len() && (#[trigger] rgs[i]).lo as u32 <= x as u32 && x as u32
                <= rgs[i].hi as u32;
        assert(rgs[i].lo == cs[i]);
        vstd::utf8::char_u32_cast(cs[i], cs[i] as u32);
        vstd::utf8::char_u32_cast(x, x as u32);
        assert(cs[i] == x);
    }
    if cs.contains(x) {
        let i = choose|i: int| 0 <= i < cs.len() && cs[i] == x;
        assert(rgs[i].lo == x && rgs[i].hi == x);
        assert(rgs[i].lo as u32 <= x as u32 && x as u32 <= rgs[i].hi as u32);
        assert(crate::nfa::char_in_ranges(rgs, x));
    }
}

/// The guard ranges of a possessive atom: a literal contributes one
/// degenerate range per symbol, a Unicode class its own ranges, a byte
/// class its ranges as code-point ranges. Anything else contributes none.
pub open spec fn poss_ranges_of(sub: Hir, rgs: Seq<CharRange>) -> bool {
    match sub {
        Hir::Literal(cs) => ranges_single(rgs, cs@),
        Hir::Class(k) => match k {
            ClassKind::Unicode(rs) => rgs == rs@,
            ClassKind::Bytes(brs) => byte_ranges_single(rgs, brs@),
        },
        _ => false,
    }
}

/// `rgs` holds the byte ranges of `brs` as code-point ranges, in order.
pub open spec fn byte_ranges_single(rgs: Seq<CharRange>, brs: Seq<ByteRange>) -> bool {
    &&& rgs.len() == brs.len()
    &&& forall|m: int|
        0 <= m < rgs.len() ==> ((#[trigger] rgs[m]).lo as u32 == brs[m].lo as u32 && rgs[m].hi
            as u32 == brs[m].hi as u32)
}

/// The symbol slot of a possessive transition: a single symbol of the
/// guard set, or the whole set as one predicate.
pub open spec fn possessive_current_ok(p: PredV, rgs: Seq<CharRange>) -> bool {
    match p {
        PredV::Char(c) => crate::nfa::char_in_ranges(rgs, c),
        PredV::CharSet(rs2) => rs2 == rgs,
        _ => false,
    }
}

/// One transition of the possessive node before patching: a loop entry
/// back to `main` guarded by the set, or a pending exit guarded by the
/// negated set.
pub open spec fn poss_trans_ok(t: TransV, rgs: Seq<CharRange>, main: StateId) -> bool {
    &&& possessive_current_ok(t.current, rgs)
    &&& ((t.lookahead == Some(PredV::CharSet(rgs)) && t.target == main) || (t.lookahead == Some(
        PredV::NotCharSet(rgs),
    ) && t.target == UNPATCHED))
}

/// One transition of the finished possessive node: a loop entry back to
/// `main` guarded by the set, or an exit to `exit` guarded by the negated
/// set.
pub open spec fn possessive_trans_shape(
    t: TransV,
    rgs: Seq<CharRange>,
    main: StateId,
    exit: StateId,
) -> bool {
    &&& possessive_current_ok(t.current, rgs)
    &&& ((t.lookahead == Some(PredV::CharSet(rgs)) && t.target == main) || (t.lookahead == Some(
        PredV::NotCharSet(rgs),
    ) && t.target == exit))
}

/// The possessive-loop shape over the guard ranges: every transition is a
/// loop entry or an exit, guarded by the set and its negation.
pub open spec fn possessive_shape(
    ts: Seq<TransV>,
    rgs: Seq<CharRange>,
    main: StateId,
    exit: StateId,
) -> bool {
    &&& ts.len() > 0
    &&& forall|m: int|
        0 <= m < ts.len() ==> possessive_trans_shape(#[trigger] ts[m], rgs, main, exit)
}

/// Every symbol of the guard set can both continue the loop and leave it:
/// some loop entry and some exit consume it.
pub open spec fn possessive_covers(
    ts: Seq<TransV>,
    rgs: Seq<CharRange>,
    main: StateId,
    exit: StateId,
) -> bool {
    forall|c: char|
        #[trigger] crate::nfa::char_in_ranges(rgs, c) ==> ((exists|m: int|
            0 <= m < ts.len() && (#[trigger] ts[m]).target == main && crate::nfa::pred_matches(
                ts[m].current,
                c,
            )) && (exists|m: int|
            0 <= m < ts.len() && (#[trigger] ts[m]).target == exit && crate::nfa::pred_matches(
                ts[m].current,
                c,
            )))
}

/// One transition of a literal atom's possessive node before patching:
/// the transitions come in pairs, a loop entry then a pending exit, both
/// consuming the pair's symbol.
pub open spec fn poss_pair_ok(
    t: TransV,
    cs: Seq<char>,
    rgs: Seq<CharRange>,
    main: StateId,
    m: int,
) -> bool {
    &&& t.current == PredV::Char(cs[m / 2])
    &&& (m % 2 == 0 ==> t.lookahead == Some(PredV::CharSet(rgs)) && t.target == main)
    &&& (m % 2 != 0 ==> t.lookahead == Some(PredV::NotCharSet(rgs)) && t.target == UNPATCHED)
}

/// A possessive node stands at `node`: its state is a transitions node of
/// the possessive loop/exit shape over the guard ranges of `atom`, every
/// guarded symbol can both continue and leave, and the loop is distinct
/// from its exit.
pub open spec fn possessive_node_at(nfa: NfaV, node: StateId, exit: StateId, atom: Hir) -> bool {
    &&& node < nfa.states.len()
    &&& node != exit
    &&& exists|rgs: Seq<CharRange>|
        #[trigger] poss_ranges_of(atom, rgs) && possessive_node_shape(
            nfa.states[node as int],
            rgs,
            node,
            exit,
        )
}

/// The state of a possessive node: transitions of the loop/exit shape
/// that together cover the whole guard set.
pub open spec fn possessive_node_shape(
    sv: StateV,
    rgs: Seq<CharRange>,
    node: StateId,
    exit: StateId,
) -> bool {
    sv matches StateV::Transitions(ts) && possessive_shape(ts, rgs, node, exit)
        && possessive_covers(ts, rgs, node, exit)
}

/// A possessive star stands at `f`: a split that enters the possessive
/// loop first and bypasses it second, the loop's own exit epsilon leading
/// to the shared exit.
pub open spec fn possessive_star_at(nfa: NfaV, f: Fragment, atom: Hir) -> bool {
    &&& f.start < nfa.states.len()
    &&& f.start != f.end
    &&& (nfa.states[f.start as int] matches StateV::Split(ts) && ts.len() == 2 && ts[1] == f.end
        && ts[0] != f.end && exists|ex: StateId|
        #[trigger] possessive_node_at(nfa, ts[0], ex, atom) && ex != f.end && ex
            < nfa.states.len() && nfa.states[ex as int] == StateV::Epsilon(f.end))
}

/// A possessive node whose exits were fused with an end anchor: loop
/// entries are unchanged, while every exit's lookahead is a negated set
/// covering every symbol, so an exit can only fire at the end of the
/// input.
pub open spec fn anchored_possessive_node_at(
    nfa: NfaV,
    node: StateId,
    exit: StateId,
    atom: Hir,
) -> bool {
    &&& node < nfa.states.len()
    &&& node != exit
    &&& (nfa.states[node as int] matches StateV::Transitions(ts) && ts.len() > 0 && exists|
        rgs: Seq<CharRange>,
    |
        #[trigger] poss_ranges_of(atom, rgs) && forall|m: int|
            0 <= m < ts.len() ==> anchored_poss_trans(#[trigger] ts[m], rgs, node, exit))
}

/// One transition of an anchored possessive node: a loop entry guarded by
/// the set, or an exit that only fires at the end of the input.
pub open spec fn anchored_poss_trans(
    t: TransV,
    rgs: Seq<CharRange>,
    node: StateId,
    exit: StateId,
) -> bool {
    &&& possessive_current_ok(t.current, rgs)
    &&& ((t.lookahead == Some(PredV::CharSet(rgs)) && t.target == node) || (t.target == exit && (
    t.lookahead matches Some(p) && (p matches PredV::NotCharSet(rs2) && covers_all(rs2)))))
}

/// A possessive node survives any change that leaves its state alone.
pub proof fn lemma_possessive_node_persists(
    a: NfaV,
    b: NfaV,
    node: StateId,
    exit: StateId,
    atom: Hir,
)
    requires
        possessive_node_at(a, node, exit, atom),
        node < b.states.len(),
        b.states[node as int] == a.states[node as int],
    ensures
        possessive_node_at(b, node, exit, atom),
{
    let rgs = choose|rgs: Seq<CharRange>|
        #[trigger] poss_ranges_of(atom, rgs) && possessive_node_shape(
            a.states[node as int],
            rgs,
            node,
            exit,
        );
    assert(possessive_node_shape(b.states[node as int], rgs, node, exit));
}

/// The possessive guards are mutually exclusive: at any one position,
/// two transitions of a possessive node that both fire agree on where
/// they go, so the simulator can never take a loop entry and an exit at
/// the same position — once the loop matched a symbol, it cannot give it
/// back.
pub proof fn lemma_possessive_guards_disjoint(
    ts: Seq<TransV>,
    rgs: Seq<CharRange>,
    main: StateId,
    exit: StateId,
    c: char,
    next: Option<char>,
    j: int,
    k: int,
)
    requires
        possessive_shape(ts, rgs, main, exit),
        main != exit,
        0 <= j < ts.len(),
        0 <= k < ts.len(),
        crate::nfa::trans_matches(ts[j], c, next),
        crate::nfa::trans_matches(ts[k], c, next),
    ensures
        ts[j].target == ts[k].target,
{
    assert(possessive_trans_shape(ts[j], rgs, main, exit));
    assert(possessive_trans_shape(ts[k], rgs, main, exit));
}

/// Copies a vector of characters element by element.
fn clone_chars(cs: &Vec<char>) -> (out: Vec<char>)
    ensures
        out@ == cs@,
{
    let mut out: Vec<char> = Vec::new();
    let mut i: usize = 0;
    while i < cs.len()
        invariant
            0 <= i <= cs@.len(),
            out@ == cs@.subrange(0, i as int),
        decreases cs@.len() - i,
    {
        out.push(cs[i]);
        i += 1;
        proof {
            assert(out@ =~= cs@.subrange(0, i as int));
        }
    }
    proof {
        assert(out@ =~= cs@);
    }
    out
}

/// A freshly created single-transition state: dangling, region-local,
/// not a `Match`.
proof fn lemma_fresh_transition_state(
    pre: NfaV,
    post: NfaV,
    id: StateId,
    cur: PredV,
    la: Option<PredV>,
)
    requires
        id == pre.states.len(),
        post.states =~= pre.states.push(
            StateV::Transitions(seq![TransV { current: cur, lookahead: la, target: UNPATCHED }]),
        ),
    ensures
        dangling_state(post.states[id as int]),
        state_in_region(post.states[id as int], pre.states.len() as int, post.states.len() as int),
        !(post.states[id as int] is Match),
{
    let ts = seq![TransV { current: cur, lookahead: la, target: UNPATCHED }];
    assert(post.states[id as int] == StateV::Transitions(ts));
    assert(ts[0].target == UNPATCHED);
    assert(post.states[id as int].out_targets() =~= seq![UNPATCHED]);
}

/// One step of chaining: a finished fragment `{start, prev}` was extended
/// with a fresh dangling state `s` (the only unpatched newcomer), and
/// `prev` was then connected to `s`. The result is the finished fragment
/// `{start, s}`.
///
/// `pre` is the arena before the whole fragment, `mid` before `s` was
/// added, `mid2` after `s` was added, `post` after the connect.
proof fn lemma_chain_step(
    pre: NfaV,
    mid: NfaV,
    mid2: NfaV,
    post: NfaV,
    start: StateId,
    prev: StateId,
    s: StateId,
)
    requires
        frag_ok(pre, mid, Fragment { start, end: prev }),
        s == mid.states.len(),
        s != UNPATCHED,
        mid2.states.len() == mid.states.len() + 1,
        forall|i: int| 0 <= i < mid.states.len() ==> mid2.states[i] == mid.states[i],
        mid2.start == mid.start,
        mid2.accepting == mid.accepting,
        dangling_state(mid2.states[s as int]),
        state_in_region(mid2.states[s as int], pre.states.len() as int, mid2.states.len() as int),
        !(mid2.states[s as int] is Match),
        post.states.len() == mid2.states.len(),
        forall|i: int| 0 <= i < post.states.len() && i != prev ==> post.states[i] == mid2.states[i],
        connect_effect(mid2.states[prev as int], post.states[prev as int], s),
        post.start == mid2.start,
        post.accepting == mid2.accepting,
    ensures
        frag_ok(pre, post, Fragment { start, end: s }),
{
    lemma_connect_end(mid2, post, prev, s);
    // reaches(start, prev) persists through the extension and the connect
    lemma_edges_preserved_extend(mid, mid2);
    lemma_reaches_preserved(mid, mid2, start, prev);
    lemma_reaches_preserved(mid2, post, start, prev);
    post.lemma_edge_reaches(prev, s);
    post.lemma_reaches_trans(start, prev, s);
    let lo = pre.states.len() as int;
    let hi = post.states.len() as int;
    assert(post.states[s as int] == mid2.states[s as int]);
    assert forall|i: int| lo <= i < hi implies state_in_region(
        #[trigger] post.states[i],
        lo,
        hi,
    ) by {
        if i == prev {
            let tp = post.states[prev as int].out_targets();
            let tm = mid2.states[prev as int].out_targets();
            assert forall|j: int| 0 <= j < tp.len() implies (lo <= (#[trigger] tp[j]) < hi || tp[j]
                == UNPATCHED) by {
                if tp[j] == s {
                    assert(lo <= s < hi);
                } else {
                    assert(tp[j] == tm[j]);
                    assert(state_in_region(mid.states[prev as int], lo, mid.states.len() as int));
                }
            }
        } else if i == s {
            assert(state_in_region(mid2.states[s as int], lo, mid2.states.len() as int));
        } else if i < mid.states.len() {
            assert(post.states[i] == mid.states[i]);
            assert(state_in_region(mid.states[i], lo, mid.states.len() as int));
        }
    }
    assert forall|i: int| lo <= i < hi && i != s implies state_patched(
        #[trigger] post.states[i],
    ) by {
        if i == prev {
        } else if i < mid.states.len() {
            assert(post.states[i] == mid.states[i]);
            assert(state_patched(mid.states[i]));
        }
    }
    assert forall|i: int| lo <= i < hi implies !((#[trigger] post.states[i]) is Match) by {
        if i == prev {
        } else if i == s {
        } else if i < mid.states.len() {
            assert(post.states[i] == mid.states[i]);
        }
    }
}

} // verus!
