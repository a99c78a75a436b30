//! Small ambient facts about sequence membership that the worklist
//! algorithms in this crate lean on.

use vstd::prelude::*;

verus! {

/// An element stays in a sequence that is pushed onto.
pub broadcast proof fn lemma_push_contains_old<T>(s: Seq<T>, t: T, x: T)
    requires
        s.contains(x),
    ensures
        #[trigger] s.push(t).contains(x),
{
    let i = choose|i: int| 0 <= i < s.len() && s[i] == x;
    assert(s.push(t)[i] == x);
}

/// A pushed element is in the result.
pub broadcast proof fn lemma_push_contains_new<T>(s: Seq<T>, t: T)
    ensures
        #[trigger] s.push(t).contains(t),
{
    assert(s.push(t)[s.len() as int] == t);
}

/// An element of a pushed sequence is an old element or the pushed one.
pub broadcast proof fn lemma_push_contains_inv<T>(s: Seq<T>, t: T, x: T)
    requires
        #[trigger] s.push(t).contains(x),
    ensures
        s.contains(x) || x == t,
{
    let i = choose|i: int| 0 <= i < s.push(t).len() && s.push(t)[i] == x;
    if i < s.len() {
        assert(s[i] == x);
    }
}

/// An element other than the last stays when the last is dropped.
pub broadcast proof fn lemma_pop_contains<T>(s: Seq<T>, x: T)
    requires
        s.len() > 0,
        s.contains(x),
        x != s[s.len() - 1],
    ensures
        #[trigger] s.subrange(0, s.len() - 1).contains(x),
{
    let i = choose|i: int| 0 <= i < s.len() && s[i] == x;
    assert(s.subrange(0, s.len() - 1)[i] == x);
}

/// A sequence's set holds exactly the sequence's elements.
pub broadcast proof fn lemma_to_set_contains<T>(s: Seq<T>, x: T)
    ensures
        #[trigger] s.to_set().contains(x) <==> s.contains(x),
{
}

/// Every indexed element is contained.
pub broadcast proof fn lemma_index_contains<T>(s: Seq<T>, i: int)
    requires
        0 <= i < s.len(),
    ensures
        s.contains(#[trigger] s[i]),
{
    let x = s[i];
    assert(s[i] == x);
}

pub broadcast group group_seq_facts {
    lemma_push_contains_old,
    lemma_push_contains_new,
    lemma_push_contains_inv,
    lemma_pop_contains,
    lemma_to_set_contains,
    lemma_index_contains,
}

} // verus!
