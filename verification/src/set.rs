//! The capability shared by every structure: a set of integers in a finite
//! domain.

use crate::model::rank_of;
use vstd::prelude::*;

verus! {

/// A data structure that stands for a set of non-negative integers drawn
/// from the domain `[0, size())`, without holding the set as such.
pub trait ImpliedSet {
    /// Whether the structure's internal invariant holds.
    spec fn wf(&self) -> bool;

    /// The set that the structure stands for.
    spec fn members(&self) -> Set<int>;

    /// The size of the domain.
    spec fn domain_size(&self) -> nat;

    /// Every member lies in the domain.
    proof fn lemma_members_in_domain(&self)
        requires
            self.wf(),
        ensures
            forall|v: int| self.members().contains(v) ==> 0 <= v < self.domain_size(),
    ;

    /// The number of elements in the set.
    fn count(&self) -> (r: usize)
        requires
            self.wf(),
        ensures
            r == rank_of(self.members(), self.domain_size() as int),
    ;

    /// The size of the domain of the set, which is above every element.
    fn size(&self) -> (r: u64)
        requires
            self.wf(),
        ensures
            r == self.domain_size(),
    ;
}

} // verus!
