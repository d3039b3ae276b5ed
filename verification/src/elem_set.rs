//! An unordered, duplicate-free collection of elements, stored in a vector.
//! Its mathematical view is the `Set<char>` of the elements it holds.

use vstd::prelude::*;

verus! {

/// A finite set of elements. The elements are kept in a vector; a well-formed
/// value mentions each element at most once, so the vector's length is the
/// cardinality of the set.
#[derive(Debug)]
pub struct ElemSet {
    pub elems: Vec<char>,
}

impl View for ElemSet {
    type V = Set<char>;

    open spec fn view(&self) -> Set<char> {
        self.elems@.to_set()
    }
}

impl ElemSet {
    /// The stored vector holds no element twice.
    pub open spec fn wf(self) -> bool {
        self.elems@.no_duplicates()
    }

    /// The empty set.
    pub fn new() -> (r: ElemSet)
        ensures
            r@ == Set::<char>::empty(),
            r.wf(),
            r.elems@ == Seq::<char>::empty(),
    {
        let r = ElemSet { elems: Vec::new() };
        proof {
            assert(r@ =~= Set::<char>::empty());
        }
        r
    }

    /// Whether `e` is one of the elements.
    pub fn contains(&self, e: char) -> (r: bool)
        ensures
            r == self@.contains(e),
    {
        let mut i: usize = 0;
        while i < self.elems.len()
            invariant
                i <= self.elems@.len(),
                forall|j: int| 0 <= j < i ==> self.elems@[j] != e,
            decreases self.elems@.len() - i,
        {
            if self.elems[i] == e {
                assert(self.elems@.contains(e));
                return true;
            }
            i += 1;
        }
        assert(!self.elems@.contains(e));
        false
    }

    /// Adds `e`; the set absorbs an element it already holds.
    pub fn insert(&mut self, e: char)
        ensures
            final(self)@ == old(self)@.insert(e),
            old(self).wf() ==> final(self).wf(),
            old(self)@.contains(e) ==> final(self).elems@ == old(self).elems@,
            !old(self)@.contains(e) ==> final(self).elems@ == old(self).elems@.push(e),
    {
        if !self.contains(e) {
            let ghost pre = self.elems@;
            self.elems.push(e);
            proof {
                pre.lemma_push_to_set_commute(e);
                assert(self@ =~= old(self)@.insert(e));
            }
        } else {
            proof {
                assert(self@ =~= old(self)@.insert(e));
            }
        }
    }

    /// The number of elements; on a well-formed value this is the
    /// cardinality of the set.
    pub fn len(&self) -> (n: usize)
        ensures
            n == self.elems@.len(),
            self.wf() ==> n == self@.len(),
    {
        proof {
            if self.wf() {
                self.elems@.unique_seq_to_set();
            }
        }
        self.elems.len()
    }

    /// Whether the set holds no element.
    pub fn is_empty(&self) -> (r: bool)
        ensures
            r == self@.is_empty(),
    {
        if self.elems.len() == 0 {
            proof {
                assert(self@ =~= Set::<char>::empty());
            }
            true
        } else {
            proof {
                assert(self.elems@.contains(self.elems@[0]));
                assert(self@.contains(self.elems@[0]));
            }
            false
        }
    }

    /// A fresh value holding the same elements in the same order.
    pub fn duplicate(&self) -> (r: ElemSet)
        ensures
            r.elems@ == self.elems@,
            r@ == self@,
            r.wf() == self.wf(),
    {
        let mut v: Vec<char> = Vec::new();
        let mut i: usize = 0;
        while i < self.elems.len()
            invariant
                i <= self.elems@.len(),
                v@ == self.elems@.take(i as int),
            decreases self.elems@.len() - i,
        {
            v.push(self.elems[i]);
            proof {
                assert(v@ =~= self.elems@.take(i + 1));
            }
            i += 1;
        }
        proof {
            assert(v@ =~= self.elems@);
        }
        ElemSet { elems: v }
    }

    /// Whether every element of `self` also stands in `other`.
    pub fn is_subset_of(&self, other: &ElemSet) -> (r: bool)
        ensures
            r == self@.subset_of(other@),
    {
        let mut i: usize = 0;
        while i < self.elems.len()
            invariant
                i <= self.elems@.len(),
                forall|j: int| 0 <= j < i ==> other@.contains(#[trigger] self.elems@[j]),
            decreases self.elems@.len() - i,
        {
            if !other.contains(self.elems[i]) {
                assert(self@.contains(self.elems@[i as int]));
                return false;
            }
            i += 1;
        }
        proof {
            assert forall|x: char| self@.contains(x) implies other@.contains(x) by {
                assert(self.elems@.contains(x));
                let j = choose|j: int| 0 <= j < self.elems@.len() && self.elems@[j] == x;
                assert(other@.contains(self.elems@[j]));
            }
        }
        true
    }

    /// Whether the two values hold the same elements, in any order.
    pub fn same_set(&self, other: &ElemSet) -> (r: bool)
        ensures
            r == (self@ == other@),
    {
        let fwd = self.is_subset_of(other);
        let bwd = other.is_subset_of(self);
        proof {
            if fwd && bwd {
                assert(self@ =~= other@);
            }
        }
        fwd && bwd
    }
}

} // verus!
