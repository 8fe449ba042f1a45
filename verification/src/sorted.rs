//! The plainest representation: the elements in a sorted vector.

use crate::model::increasing;
use crate::model::lemma_rank_of_element;
use crate::model::lemma_rank_of_sorted;
use crate::model::lemma_select_exists;
use crate::model::lemma_select_unique;
use crate::model::rank_of;
use crate::model::seq_members;
use crate::rank::Rank;
use crate::select::Select;
use crate::select::Select0;
use crate::set::ImpliedSet;
use vstd::prelude::*;
use vstd::slice::slice_to_vec;

verus! {

/// A set held as the vector of its elements in increasing order. Rank is a
/// binary search, select an index.
pub struct Sorted {
    elements: Vec<u64>,
}

impl Sorted {
    /// The elements, as given.
    pub closed spec fn spec_elements(&self) -> Seq<u64> {
        self.elements@
    }

    /// Keep a copy of the elements. The structure is valid where they are
    /// in strictly increasing order and the last of them is not the largest
    /// `u64`, which would leave no room for the size of the domain.
    pub fn new(elements: &[u64]) -> (r: Sorted)
        ensures
            r.spec_elements() == elements@,
    {
        Sorted { elements: slice_to_vec(elements) }
    }

    /// All the elements are below the size of the domain.
    pub proof fn lemma_count(&self)
        requires
            self.wf(),
        ensures
            rank_of(self.members(), self.domain_size() as int) == self.spec_elements().len(),
    {
        let xs = self.spec_elements();
        assert forall|j: int| 0 <= j < xs.len() implies xs[j] < self.domain_size() by {
            if j < xs.len() - 1 {
                assert(xs[j] < xs[xs.len() - 1]);
            }
        }
        lemma_rank_of_sorted(xs, self.domain_size() as int, xs.len() as int);
    }
}

impl ImpliedSet for Sorted {
    open spec fn wf(&self) -> bool {
        &&& increasing(self.spec_elements())
        &&& self.spec_elements().len() > 0 ==> self.spec_elements().last() < u64::MAX
    }

    open spec fn members(&self) -> Set<int> {
        seq_members(self.spec_elements())
    }

    /// One more than the largest element; 0 for the empty set.
    open spec fn domain_size(&self) -> nat {
        if self.spec_elements().len() == 0 {
            0
        } else {
            (self.spec_elements().last() + 1) as nat
        }
    }

    proof fn lemma_members_in_domain(&self) {
        let xs = self.spec_elements();
        assert forall|v: int| self.members().contains(v) implies 0 <= v < self.domain_size() by {
            let i = choose|i: int| 0 <= i < xs.len() && xs[i] == v;
            if i < xs.len() - 1 {
                assert(xs[i] < xs[xs.len() - 1]);
            }
        }
    }

    fn count(&self) -> (r: usize) {
        proof {
            self.lemma_count();
        }
        self.elements.len()
    }

    fn size(&self) -> (r: u64) {
        let n = self.elements.len();
        if n == 0 {
            0
        } else {
            self.elements[n - 1] + 1
        }
    }
}

impl Rank for Sorted {
    fn rank(&self, value: u64) -> (r: usize) {
        if value >= self.size() {
            proof {
                self.lemma_count();
                let xs = self.spec_elements();
                assert forall|j: int| 0 <= j < xs.len() implies xs[j] < value by {
                    if j < xs.len() - 1 {
                        assert(xs[j] < xs[xs.len() - 1]);
                    }
                }
                lemma_rank_of_sorted(xs, value as int, xs.len() as int);
            }
            return self.count();
        }
        let mut first: usize = 0;
        let mut count: usize = self.count();
        proof {
            self.lemma_count();
        }
        while count > 0
            invariant
                increasing(self.spec_elements()),
                first + count <= self.spec_elements().len() <= usize::MAX,
                forall|j: int| 0 <= j < first ==> self.spec_elements()[j] < value,
                forall|j: int|
                    first + count <= j < self.spec_elements().len() ==> self.spec_elements()[j]
                        >= value,
            decreases count,
        {
            let step = count / 2;
            let i = first + step;
            if self.elements[i] < value {
                proof {
                    let xs = self.spec_elements();
                    assert forall|j: int| 0 <= j < i + 1 implies xs[j] < value by {
                        if j < i {
                            assert(xs[j] < xs[i as int]);
                        }
                    }
                }
                first = i + 1;
                count -= step + 1;
            } else {
                proof {
                    let xs = self.spec_elements();
                    assert forall|j: int| i <= j < xs.len() implies xs[j] >= value by {
                        if i < j {
                            assert(xs[i as int] < xs[j]);
                        }
                    }
                }
                count = step;
            }
        }
        proof {
            lemma_rank_of_sorted(self.spec_elements(), value as int, first as int);
        }
        first
    }
}

impl Select for Sorted {
    fn select(&self, index: usize) -> (r: u64) {
        proof {
            self.lemma_count();
        }
        let r = self.elements[index];
        proof {
            let xs = self.spec_elements();
            lemma_rank_of_element(xs, index as int);
            self.lemma_members_in_domain();
            let q = lemma_select_exists(self.members(), self.domain_size() as int, index as nat);
            lemma_select_unique(self.members(), r as int, q);
        }
        r
    }
}

impl Select0 for Sorted {

}

} // verus!
