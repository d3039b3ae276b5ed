//! The hitting-set solver: a branch-and-bound recursion over element choices,
//! pruned by the cardinality of the best complete cover found so far.

use vstd::prelude::*;
use crate::elem_set::ElemSet;

verus! {

/// The failure value of the solver: at least one input set is empty, so no
/// hitting set exists.
#[derive(Clone, Copy, Debug, PartialEq, Eq)]
pub enum SolveError {
    UncoverableInput,
}

/// The mathematical instance an input vector stands for: the sequence of the
/// sets its entries hold.
pub open spec fn views(sets: Seq<ElemSet>) -> Seq<Set<char>> {
    sets.map_values(|s: ElemSet| s@)
}

/// Whether the chosen elements `c` intersect the set `s`.
pub open spec fn hits(c: Set<char>, s: Set<char>) -> bool {
    exists|x: char| c.contains(x) && s.contains(x)
}

/// Whether `c` is a hitting set for the instance: it intersects every set.
pub open spec fn covers(c: Set<char>, sets: Seq<Set<char>>) -> bool {
    forall|i: int| 0 <= i < sets.len() ==> hits(c, #[trigger] sets[i])
}

/// The domain of the instance: the union of all its sets.
pub open spec fn union_all(sets: Seq<Set<char>>) -> Set<char>
    decreases sets.len(),
{
    if sets.len() == 0 {
        Set::empty()
    } else {
        sets[0].union(union_all(sets.drop_first()))
    }
}

/// A finite hitting set for the instance.
pub open spec fn is_cover(c: Set<char>, sets: Seq<Set<char>>) -> bool {
    c.finite() && covers(c, sets)
}

/// A hitting set of minimum cardinality: no cover of the instance is
/// strictly smaller.
pub open spec fn is_minimum_cover(c: Set<char>, sets: Seq<Set<char>>) -> bool {
    is_cover(c, sets) && forall|c2: Set<char>| #[trigger] is_cover(c2, sets) ==> c.len() <= c2.len()
}

/// Whether a cardinality lies strictly below the best-known bound. `None`
/// stands for "no complete cover found yet": every cardinality lies below
/// that.
spec fn below_bound(n: nat, bound: Option<usize>) -> bool {
    match bound {
        Option::None => true,
        Option::Some(b) => n < b,
    }
}

/// Membership in the union of an instance is membership in one of its sets.
pub proof fn lemma_union_all_contains(sets: Seq<Set<char>>, x: char)
    ensures
        union_all(sets).contains(x) <==> exists|i: int| 0 <= i < sets.len() && (#[trigger] sets[i]).contains(x),
    decreases sets.len(),
{
    if sets.len() == 0 {
    } else {
        lemma_union_all_contains(sets.drop_first(), x);
        if union_all(sets).contains(x) {
            if sets[0].contains(x) {
                assert(sets[0].contains(x));
            } else {
                let i = choose|i: int|
                    0 <= i < sets.drop_first().len() && sets.drop_first()[i].contains(x);
                assert(sets[i + 1].contains(x));
            }
        }
        if exists|i: int| 0 <= i < sets.len() && (#[trigger] sets[i]).contains(x) {
            let i = choose|i: int| 0 <= i < sets.len() && sets[i].contains(x);
            if i == 0 {
            } else {
                assert(sets.drop_first()[i - 1].contains(x));
            }
        }
    }
}

/// A set that is not empty holds an element.
pub proof fn lemma_nonempty_has_elem(s: Set<char>)
    requires
        !s.is_empty(),
    ensures
        exists|x: char| s.contains(x),
{
    assert(!(s =~= Set::<char>::empty()));
    if !(exists|x: char| s.contains(x)) {
        assert(forall|x: char| !s.contains(x));
        assert(s =~= Set::<char>::empty());
    }
}

/// An instance of nonempty sets always has a finite cover: one element out
/// of each set.
proof fn lemma_cover_exists(sets: Seq<Set<char>>)
    requires
        forall|i: int| 0 <= i < sets.len() ==> !(#[trigger] sets[i]).is_empty(),
    ensures
        exists|c: Set<char>| #[trigger] is_cover(c, sets),
    decreases sets.len(),
{
    if sets.len() == 0 {
        assert(is_cover(Set::<char>::empty(), sets));
    } else {
        let tail = sets.drop_first();
        assert forall|i: int| 0 <= i < tail.len() implies !(#[trigger] tail[i]).is_empty() by {
            assert(tail[i] == sets[i + 1]);
        }
        lemma_cover_exists(tail);
        let c0 = choose|c: Set<char>| is_cover(c, tail);
        lemma_nonempty_has_elem(sets[0]);
        let x = choose|x: char| sets[0].contains(x);
        let c = c0.insert(x);
        assert forall|i: int| 0 <= i < sets.len() implies hits(c, #[trigger] sets[i]) by {
            if i == 0 {
                assert(c.contains(x) && sets[0].contains(x));
            } else {
                assert(hits(c0, tail[i - 1]));
                let y = choose|y: char| c0.contains(y) && tail[i - 1].contains(y);
                assert(c.contains(y) && sets[i].contains(y));
            }
        }
        assert(is_cover(c, sets));
    }
}

/// A cover of an instance covers any selection of its sets.
proof fn lemma_covers_restrict(c: Set<char>, all: Seq<ElemSet>, kept: Seq<ElemSet>)
    requires
        covers(c, views(all)),
        forall|m: int| 0 <= m < kept.len() ==> exists|j: int|
            0 <= j < all.len() && (#[trigger] kept[m])@ == all[j]@,
    ensures
        covers(c, views(kept)),
{
    assert forall|m: int| 0 <= m < views(kept).len() implies hits(c, #[trigger] views(kept)[m]) by {
        let j = choose|j: int| 0 <= j < all.len() && kept[m]@ == all[j]@;
        assert(hits(c, views(all)[j]));
        assert(views(all)[j] == all[j]@);
        assert(views(kept)[m] == kept[m]@);
    }
}

/// The union over a selection of an instance's sets stays inside the union
/// over the whole instance.
proof fn lemma_union_restrict(all: Seq<ElemSet>, kept: Seq<ElemSet>)
    requires
        forall|m: int| 0 <= m < kept.len() ==> exists|j: int|
            0 <= j < all.len() && (#[trigger] kept[m])@ == all[j]@,
    ensures
        union_all(views(kept)).subset_of(union_all(views(all))),
{
    assert forall|x: char| union_all(views(kept)).contains(x) implies union_all(
        views(all),
    ).contains(x) by {
        lemma_union_all_contains(views(kept), x);
        let m = choose|m: int| 0 <= m < views(kept).len() && views(kept)[m].contains(x);
        let j = choose|j: int| 0 <= j < all.len() && kept[m]@ == all[j]@;
        lemma_union_all_contains(views(all), x);
        assert(views(all)[j].contains(x));
    }
}

/// Choosing an element of the first still-uncovered set, together with a
/// cover of the sets that choice leaves unhit, covers the whole node.
proof fn lemma_covers_choice(sol: Set<char>, all: Seq<ElemSet>, kept: Seq<ElemSet>, e: char)
    requires
        all.len() >= 1,
        sol.contains(e),
        all[0]@.contains(e),
        covers(sol, views(kept)),
        forall|j: int| 1 <= j < all.len() && !(#[trigger] all[j])@.contains(e) ==> exists|m: int|
            0 <= m < kept.len() && (#[trigger] kept[m])@ == all[j]@,
    ensures
        covers(sol, views(all)),
{
    assert forall|j: int| 0 <= j < views(all).len() implies hits(sol, #[trigger] views(all)[j]) by {
        assert(views(all)[j] == all[j]@);
        if j == 0 {
            assert(sol.contains(e) && all[0]@.contains(e));
        } else if all[j]@.contains(e) {
            assert(sol.contains(e) && all[j]@.contains(e));
        } else {
            let m = choose|m: int| 0 <= m < kept.len() && kept[m]@ == all[j]@;
            assert(hits(sol, views(kept)[m]));
            assert(views(kept)[m] == kept[m]@);
        }
    }
}

/// What the incumbent admits of a further candidate's cardinality `n`: with
/// an incumbent, `n` no smaller than it; without one, `n` no smaller than
/// the inherited bound.
spec fn best_allows(best: Option<ElemSet>, bound: Option<usize>, n: nat) -> bool {
    match best {
        Option::Some(b) => n >= b@.len(),
        Option::None => !below_bound(n, bound),
    }
}

/// One node of the branch-and-bound search.
///
/// `found` is the partial cover chosen so far, `uncovered` holds exactly the
/// input sets it does not yet hit, and `bound` is the cardinality of the
/// best complete cover known so far — `None` while none is. The node
/// returns a complete cover that extends `found`, lies strictly below the
/// bound and is smallest among all covers extending `found`; or `None` when
/// no cover extending `found` lies below the bound.
#[verifier::loop_isolation(false)]
#[verifier::rlimit(100)]
fn search(bound: Option<usize>, found: &ElemSet, uncovered: &Vec<ElemSet>) -> (r: Option<
    ElemSet,
>)
    requires
        found.wf(),
        forall|i: int| 0 <= i < uncovered@.len() ==> !(#[trigger] uncovered@[i])@.is_empty(),
        forall|i: int| 0 <= i < uncovered@.len() ==> found@.disjoint((#[trigger] uncovered@[i])@),
    ensures
        match r {
            Option::Some(sol) => {
                &&& sol.wf()
                &&& found@.subset_of(sol@)
                &&& covers(sol@, views(uncovered@))
                &&& sol@.subset_of(found@.union(union_all(views(uncovered@))))
                &&& below_bound(sol@.len(), bound)
                &&& forall|c2: Set<char>|
                    c2.finite() && found@.subset_of(c2) && #[trigger] covers(
                        c2,
                        views(uncovered@),
                    ) ==> sol@.len() <= c2.len()
            },
            Option::None => forall|c2: Set<char>|
                c2.finite() && found@.subset_of(c2) && #[trigger] covers(c2, views(uncovered@))
                    ==> !below_bound(c2.len(), bound),
        },
    decreases uncovered@.len(),
{
    // Prune: a node whose partial cover already reaches the bound cannot
    // improve on it, since extending a set never shrinks it.
    let flen = found.len();
    if let Option::Some(b) = bound {
        if flen >= b {
            proof {
                assert forall|c2: Set<char>|
                    c2.finite() && found@.subset_of(c2) && #[trigger] covers(
                        c2,
                        views(uncovered@),
                    ) implies !below_bound(c2.len(), bound) by {
                    vstd::set_lib::lemma_len_subset(found@, c2);
                }
            }
            return Option::None;
        }
    }
    // Terminate: every set is hit, so the partial cover is complete, and no
    // extension of it can be smaller.
    if uncovered.len() == 0 {
        let sol = found.duplicate();
        proof {
            assert(views(uncovered@).len() == 0);
            assert forall|c2: Set<char>|
                c2.finite() && found@.subset_of(c2) && #[trigger] covers(
                    c2,
                    views(uncovered@),
                ) implies sol@.len() <= c2.len() by {
                vstd::set_lib::lemma_len_subset(found@, c2);
            }
        }
        return Option::Some(sol);
    }
    // Branch: any cover must hit the first uncovered set, so trying each of
    // its elements in turn is exhaustive.
    let head: &ElemSet = &uncovered[0];
    let mut best: Option<ElemSet> = Option::None;
    let mut i: usize = 0;
    while i < head.elems.len()
        invariant
            i <= head.elems@.len(),
            match best {
                Option::Some(b) => {
                    &&& b.wf()
                    &&& found@.subset_of(b@)
                    &&& covers(b@, views(uncovered@))
                    &&& b@.subset_of(found@.union(union_all(views(uncovered@))))
                    &&& below_bound(b@.len(), bound)
                },
                Option::None => true,
            },
            forall|c2: Set<char>|
                c2.finite() && found@.subset_of(c2) && #[trigger] covers(c2, views(uncovered@))
                    && (exists|j: int| 0 <= j < i && c2.contains(#[trigger] head.elems@[j]))
                    ==> best_allows(best, bound, c2.len()),
        decreases head.elems@.len() - i,
    {
        let e: char = head.elems[i];
        proof {
            assert(head.elems@.contains(e));
            assert(found@.disjoint(uncovered@[0]@));
            assert(!found@.contains(e));
        }
        // The tightest bound known at this point in the loop.
        let cur_bound: Option<usize> = match &best {
            Option::Some(b) => Option::Some(b.len()),
            Option::None => bound,
        };
        proof {
            assert forall|n: nat| !below_bound(n, cur_bound) == best_allows(best, bound, n) by {}
        }
        let mut found2 = found.duplicate();
        found2.insert(e);
        // The sets a choice of `e` leaves unhit: those of the tail that do
        // not contain `e`.
        let mut rest: Vec<ElemSet> = Vec::new();
        let mut k: usize = 1;
        while k < uncovered.len()
            invariant
                1 <= k <= uncovered@.len(),
                rest@.len() < k,
                forall|m: int| 0 <= m < rest@.len() ==> exists|j: int|
                    1 <= j < k && (#[trigger] rest@[m])@ == uncovered@[j]@,
                forall|m: int| 0 <= m < rest@.len() ==> !(#[trigger] rest@[m])@.contains(e),
                forall|j: int|
                    1 <= j < k && !(#[trigger] uncovered@[j])@.contains(e) ==> exists|m: int|
                        0 <= m < rest@.len() && (#[trigger] rest@[m])@ == uncovered@[j]@,
            decreases uncovered@.len() - k,
        {
            let s = &uncovered[k];
            if !s.contains(e) {
                let d = s.duplicate();
                let ghost old_rest = rest@;
                rest.push(d);
                proof {
                    assert forall|m: int| 0 <= m < rest@.len() implies exists|j: int|
                        1 <= j < k + 1 && (#[trigger] rest@[m])@ == uncovered@[j]@ by {
                        if m < old_rest.len() {
                            assert(rest@[m] == old_rest[m]);
                            let j = choose|j: int| 1 <= j < k && old_rest[m]@ == uncovered@[j]@;
                            assert(1 <= j < k + 1 && rest@[m]@ == uncovered@[j]@);
                        } else {
                            assert(rest@[m] == d);
                            assert(1 <= k < k + 1 && rest@[m]@ == uncovered@[k as int]@);
                        }
                    }
                    assert forall|j: int|
                        1 <= j < k + 1 && !(#[trigger] uncovered@[j])@.contains(e) implies exists|
                        m: int,
                    |
                        0 <= m < rest@.len() && (#[trigger] rest@[m])@ == uncovered@[j]@ by {
                        if j < k {
                            let m = choose|m: int|
                                0 <= m < old_rest.len() && old_rest[m]@ == uncovered@[j]@;
                            assert(rest@[m] == old_rest[m]);
                            assert(0 <= m < rest@.len() && rest@[m]@ == uncovered@[j]@);
                        } else {
                            let m = rest@.len() - 1;
                            assert(rest@[m] == d);
                            assert(0 <= m < rest@.len() && rest@[m]@ == uncovered@[j]@);
                        }
                    }
                }
            } else {
                proof {
                    assert forall|j: int|
                        1 <= j < k + 1 && !(#[trigger] uncovered@[j])@.contains(e) implies exists|
                        m: int,
                    |
                        0 <= m < rest@.len() && (#[trigger] rest@[m])@ == uncovered@[j]@ by {
                        assert(uncovered@[k as int]@.contains(e));
                        assert(j != k);
                    }
                }
            }
            k += 1;
        }
        proof {
            assert forall|m: int| 0 <= m < rest@.len() implies exists|j: int|
                0 <= j < uncovered@.len() && (#[trigger] rest@[m])@ == uncovered@[j]@ by {
                let j = choose|j: int| 1 <= j < uncovered@.len() && rest@[m]@ == uncovered@[j]@;
                assert(0 <= j < uncovered@.len() && rest@[m]@ == uncovered@[j]@);
            }
            assert forall|m: int| 0 <= m < rest@.len() implies !(#[trigger] rest@[m])@.is_empty() by {
                let j = choose|j: int| 1 <= j < uncovered@.len() && rest@[m]@ == uncovered@[j]@;
                assert(!uncovered@[j]@.is_empty());
            }
            assert forall|m: int| 0 <= m < rest@.len() implies found2@.disjoint(
                (#[trigger] rest@[m])@,
            ) by {
                let j = choose|j: int| 1 <= j < uncovered@.len() && rest@[m]@ == uncovered@[j]@;
                assert(found@.disjoint(uncovered@[j]@));
                assert forall|x: char| found2@.contains(x) implies !rest@[m]@.contains(x) by {
                    if x == e {
                        assert(!rest@[m]@.contains(e));
                    } else {
                        assert(found@.contains(x));
                    }
                }
            }
        }
        let rec = search(cur_bound, &found2, &rest);
        match rec {
            Option::Some(sol) => {
                proof {
                    assert(found2@ == found@.insert(e));
                    // The candidate covers this node's sets and stays in
                    // its domain.
                    lemma_covers_choice(sol@, uncovered@, rest@, e);
                    lemma_union_restrict(uncovered@, rest@);
                    lemma_union_all_contains(views(uncovered@), e);
                    assert(views(uncovered@)[0] == uncovered@[0]@);
                    assert(uncovered@[0]@.contains(e));
                    assert forall|x: char| sol@.contains(x) implies found@.union(
                        union_all(views(uncovered@)),
                    ).contains(x) by {
                        if found2@.contains(x) {
                            if x == e {
                                assert(union_all(views(uncovered@)).contains(e));
                            } else {
                                assert(found@.contains(x));
                            }
                        } else {
                            assert(found2@.union(union_all(views(rest@))).contains(x));
                            assert(union_all(views(rest@)).contains(x));
                        }
                    }
                    assert(below_bound(sol@.len(), bound)) by {
                        match &best {
                            Option::Some(b) => {
                                assert(!below_bound(b@.len(), cur_bound));
                                assert(below_bound(b@.len(), bound));
                            },
                            Option::None => {},
                        }
                    }
                    // The candidate is no larger than any extension of the
                    // partial cover that picks one of the elements tried so
                    // far.
                    assert forall|c2: Set<char>|
                        c2.finite() && found@.subset_of(c2) && #[trigger] covers(
                            c2,
                            views(uncovered@),
                        ) && (exists|j: int|
                            0 <= j < i + 1 && c2.contains(#[trigger] head.elems@[j]))
                        implies c2.len() >= sol@.len() by {
                        let j = choose|j: int| 0 <= j < i + 1 && c2.contains(head.elems@[j]);
                        if j == i {
                            assert(c2.contains(e));
                            assert(found2@.subset_of(c2));
                            lemma_covers_restrict(c2, uncovered@, rest@);
                            assert(covers(c2, views(rest@)));
                            assert(sol@.len() <= c2.len());
                        } else {
                            assert(0 <= j < i && c2.contains(head.elems@[j]));
                            assert(best_allows(best, bound, c2.len()));
                            assert(!below_bound(c2.len(), cur_bound));
                        }
                    }
                }
                // The recursive call improved on the bound it was handed,
                // so it strictly improves on the incumbent.
                let better: bool = match &best {
                    Option::None => true,
                    Option::Some(b) => sol.len() < b.len(),
                };
                assert(better);
                if better {
                    best = Option::Some(sol);
                }
            },
            Option::None => {
                proof {
                    // No extension through the elements tried so far beats
                    // the incumbent.
                    assert forall|c2: Set<char>|
                        c2.finite() && found@.subset_of(c2) && #[trigger] covers(
                            c2,
                            views(uncovered@),
                        ) && (exists|j: int|
                            0 <= j < i + 1 && c2.contains(#[trigger] head.elems@[j]))
                        implies best_allows(best, bound, c2.len()) by {
                        let j = choose|j: int| 0 <= j < i + 1 && c2.contains(head.elems@[j]);
                        if j == i {
                            assert(c2.contains(e));
                            assert(found2@ == found@.insert(e));
                            assert(found2@.subset_of(c2));
                            lemma_covers_restrict(c2, uncovered@, rest@);
                            assert(covers(c2, views(rest@)));
                            assert(!below_bound(c2.len(), cur_bound));
                        } else {
                            assert(0 <= j < i && c2.contains(head.elems@[j]));
                        }
                    }
                }
            },
        }
        i += 1;
    }
    proof {
        // Every cover extending `found` hits the branching set, so it picks
        // one of the elements the loop went through.
        assert forall|c2: Set<char>|
            c2.finite() && found@.subset_of(c2) && #[trigger] covers(
                c2,
                views(uncovered@),
            ) implies best_allows(best, bound, c2.len()) by {
            assert(views(uncovered@)[0] == uncovered@[0]@);
            assert(hits(c2, views(uncovered@)[0]));
            let x = choose|x: char| c2.contains(x) && uncovered@[0]@.contains(x);
            assert(head.elems@.contains(x));
            let j = choose|j: int| 0 <= j < head.elems@.len() && head.elems@[j] == x;
            assert(c2.contains(head.elems@[j]));
        }
    }
    best
}

/// Computes a minimum hitting set for `sets`: a smallest set of elements
/// that intersects every set of the instance. The empty instance yields the
/// empty set; an instance holding an empty set has no hitting set, and the
/// solver signals that instead of searching.
pub fn backtrack(sets: &Vec<ElemSet>) -> (r: Result<ElemSet, SolveError>)
    ensures
        match r {
            Ok(sol) => {
                &&& forall|i: int| 0 <= i < sets@.len() ==> !(#[trigger] sets@[i])@.is_empty()
                &&& sol.wf()
                &&& is_minimum_cover(sol@, views(sets@))
                &&& sol@.subset_of(union_all(views(sets@)))
            },
            Err(e) => {
                &&& e == SolveError::UncoverableInput
                &&& exists|i: int| 0 <= i < sets@.len() && (#[trigger] sets@[i])@.is_empty()
            },
        },
{
    // An empty input set cannot be hit; the search never sees one.
    let mut i: usize = 0;
    while i < sets.len()
        invariant
            i <= sets@.len(),
            forall|j: int| 0 <= j < i ==> !(#[trigger] sets@[j])@.is_empty(),
        decreases sets@.len() - i,
    {
        let s = &sets[i];
        if s.is_empty() {
            return Err(SolveError::UncoverableInput);
        }
        i += 1;
    }
    let start = ElemSet::new();
    let r = search(Option::None, &start, sets);
    match r {
        Option::Some(sol) => {
            proof {
                assert(is_cover(sol@, views(sets@)));
                assert forall|c2: Set<char>| #[trigger]
                    is_cover(c2, views(sets@)) implies sol@.len() <= c2.len() by {
                    assert(start@.subset_of(c2));
                    assert(covers(c2, views(sets@)));
                }
                assert forall|x: char| sol@.contains(x) implies union_all(
                    views(sets@),
                ).contains(x) by {
                    assert(start@.union(union_all(views(sets@))).contains(x));
                }
            }
            Ok(sol)
        },
        Option::None => {
            // Unreachable: a cover always exists once every set is
            // nonempty, and without a bound the search returns one.
            proof {
                assert forall|j: int| 0 <= j < views(sets@).len() implies !(#[trigger] views(
                    sets@,
                )[j]).is_empty() by {
                    assert(views(sets@)[j] == sets@[j]@);
                }
                lemma_cover_exists(views(sets@));
                let c = choose|c: Set<char>| is_cover(c, views(sets@));
                assert(start@.subset_of(c));
                assert(covers(c, views(sets@)));
                assert(!below_bound(c.len(), Option::<usize>::None));
            }
            assert(false);
            Err(SolveError::UncoverableInput)
        },
    }
}

} // verus!
