//! General laws of the hitting-set problem, stated over the same spec
//! functions as the solver's contracts and proved once and for all.

use vstd::prelude::*;
use crate::elem_set::ElemSet;
use crate::solver::{covers, hits, is_cover, is_minimum_cover};

verus! {

/// Whatever an instance's sets, a cover of one instance covers any instance
/// whose sets all appear among them.
proof fn lemma_covers_same_members(c: Set<char>, sets1: Seq<Set<char>>, sets2: Seq<Set<char>>)
    requires
        forall|i: int| 0 <= i < sets2.len() ==> sets1.contains(#[trigger] sets2[i]),
        covers(c, sets1),
    ensures
        covers(c, sets2),
{
    assert forall|i: int| 0 <= i < sets2.len() implies hits(c, sets2[i]) by {
        let j = choose|j: int| 0 <= j < sets1.len() && sets1[j] == sets2[i];
        assert(hits(c, sets1[j]));
    }
}

/// Order independence: permuting the instance changes neither what counts as
/// a cover of it nor, below, the minimum cardinality.
pub proof fn lemma_covers_permutation(c: Set<char>, sets1: Seq<Set<char>>, sets2: Seq<Set<char>>)
    requires
        sets1.to_multiset() == sets2.to_multiset(),
    ensures
        covers(c, sets1) <==> covers(c, sets2),
{
    broadcast use vstd::seq_lib::group_to_multiset_ensures;

    assert forall|i: int| 0 <= i < sets2.len() implies sets1.contains(#[trigger] sets2[i]) by {
        assert(sets2.contains(sets2[i]));
        assert(sets2.to_multiset().count(sets2[i]) > 0);
    }
    assert forall|i: int| 0 <= i < sets1.len() implies sets2.contains(#[trigger] sets1[i]) by {
        assert(sets1.contains(sets1[i]));
        assert(sets1.to_multiset().count(sets1[i]) > 0);
    }
    if covers(c, sets1) {
        lemma_covers_same_members(c, sets1, sets2);
    }
    if covers(c, sets2) {
        lemma_covers_same_members(c, sets2, sets1);
    }
}

/// Order independence for results: minimum covers of an instance and of a
/// permutation of it have the same cardinality.
pub proof fn lemma_minimum_cover_permutation(
    c1: Set<char>,
    c2: Set<char>,
    sets1: Seq<Set<char>>,
    sets2: Seq<Set<char>>,
)
    requires
        sets1.to_multiset() == sets2.to_multiset(),
        is_minimum_cover(c1, sets1),
        is_minimum_cover(c2, sets2),
    ensures
        c1.len() == c2.len(),
{
    lemma_covers_permutation(c1, sets1, sets2);
    lemma_covers_permutation(c2, sets1, sets2);
    assert(is_cover(c1, sets2));
    assert(is_cover(c2, sets1));
}

/// Order independence within a set: two values holding the same elements in
/// any orders stand for the same set, so instances built from either are
/// the same instance.
pub proof fn lemma_elem_order_irrelevant(s1: ElemSet, s2: ElemSet)
    requires
        s1.elems@.to_multiset() == s2.elems@.to_multiset(),
    ensures
        s1@ == s2@,
{
    broadcast use vstd::seq_lib::group_to_multiset_ensures;

    assert forall|x: char| s1@.contains(x) == s2@.contains(x) by {
        assert(s1.elems@.contains(x) <==> s1.elems@.to_multiset().count(x) > 0);
        assert(s2.elems@.contains(x) <==> s2.elems@.to_multiset().count(x) > 0);
    }
    assert(s1@ =~= s2@);
}

/// Duplicate invariance: repeating a set of the instance changes neither
/// what counts as a cover nor, below, the minimum cardinality.
pub proof fn lemma_covers_duplicate(c: Set<char>, sets: Seq<Set<char>>, j: int)
    requires
        0 <= j < sets.len(),
    ensures
        covers(c, sets.push(sets[j])) <==> covers(c, sets),
{
    let dup = sets.push(sets[j]);
    if covers(c, dup) {
        assert forall|i: int| 0 <= i < sets.len() implies hits(c, #[trigger] sets[i]) by {
            assert(hits(c, dup[i]));
        }
    }
    if covers(c, sets) {
        assert forall|i: int| 0 <= i < dup.len() implies hits(c, #[trigger] dup[i]) by {
            if i < sets.len() {
                assert(dup[i] == sets[i]);
            } else {
                assert(dup[i] == sets[j]);
            }
            assert(hits(c, sets[if i < sets.len() { i } else { j }]));
        }
    }
}

/// Duplicate invariance for results: minimum covers before and after
/// repeating one of the instance's sets have the same cardinality.
pub proof fn lemma_minimum_cover_duplicate(
    c1: Set<char>,
    c2: Set<char>,
    sets: Seq<Set<char>>,
    j: int,
)
    requires
        0 <= j < sets.len(),
        is_minimum_cover(c1, sets),
        is_minimum_cover(c2, sets.push(sets[j])),
    ensures
        c1.len() == c2.len(),
{
    lemma_covers_duplicate(c1, sets, j);
    lemma_covers_duplicate(c2, sets, j);
    assert(is_cover(c1, sets.push(sets[j])));
    assert(is_cover(c2, sets));
}

/// Monotonicity under set enlargement: a cover still covers after any of
/// the instance's sets grow, so enlarging sets cannot increase the minimum
/// cardinality.
pub proof fn lemma_covers_enlarge(c: Set<char>, sets1: Seq<Set<char>>, sets2: Seq<Set<char>>)
    requires
        sets1.len() == sets2.len(),
        forall|i: int| 0 <= i < sets1.len() ==> (#[trigger] sets1[i]).subset_of(sets2[i]),
        covers(c, sets1),
    ensures
        covers(c, sets2),
{
    assert forall|i: int| 0 <= i < sets2.len() implies hits(c, #[trigger] sets2[i]) by {
        assert(hits(c, sets1[i]));
        let x = choose|x: char| c.contains(x) && sets1[i].contains(x);
        assert(c.contains(x) && sets2[i].contains(x));
    }
}

/// Monotonicity for results: after pointwise enlargement, the minimum cover
/// is no larger than before.
pub proof fn lemma_minimum_cover_enlarge(
    c1: Set<char>,
    c2: Set<char>,
    sets1: Seq<Set<char>>,
    sets2: Seq<Set<char>>,
)
    requires
        sets1.len() == sets2.len(),
        forall|i: int| 0 <= i < sets1.len() ==> (#[trigger] sets1[i]).subset_of(sets2[i]),
        is_minimum_cover(c1, sets1),
        is_minimum_cover(c2, sets2),
    ensures
        c2.len() <= c1.len(),
{
    lemma_covers_enlarge(c1, sets1, sets2);
    assert(is_cover(c1, sets2));
}

/// The empty-instance law: the only minimum cover of the empty instance is
/// the empty set.
pub proof fn lemma_empty_instance_cover(c: Set<char>)
    requires
        is_minimum_cover(c, Seq::<Set<char>>::empty()),
    ensures
        c == Set::<char>::empty(),
{
    assert(is_cover(Set::<char>::empty(), Seq::<Set<char>>::empty()));
    assert(c.len() <= 0);
    c.lemma_len0_is_empty();
}

} // verus!
