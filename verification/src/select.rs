//! The select capability, and select over the complement of the set.

use crate::model::lemma_rank_of_bound;
use crate::model::lemma_rank_of_step;
use crate::model::lemma_select0_exists;
use crate::model::lemma_select0_unique;
use crate::model::rank0_of;
use crate::model::rank_of;
use crate::model::select0_of;
use crate::model::select_of;
use crate::rank::Rank;
use crate::set::ImpliedSet;
use vstd::prelude::*;

verus! {

/// Sets that can find their `index`-th smallest element.
pub trait Select: ImpliedSet {
    /// The `index`-th smallest element of the set, counting from 0.
    fn select(&self, index: usize) -> (r: u64)
        requires
            self.wf(),
            index < rank_of(self.members(), self.domain_size() as int),
        ensures
            r == select_of(self.members(), index as nat),
            r < self.domain_size(),
            self.members().contains(r as int),
            rank_of(self.members(), r as int) == index,
    ;
}

/// Select over the integers of the domain that are not in the set, by
/// binary search over the ranks. It is rarely needed, so the search serves
/// every structure that can rank.
pub trait Select0: ImpliedSet + Rank {
    /// The `index`-th smallest integer of the domain that is not in the set,
    /// counting from 0.
    fn select_0(&self, index: usize) -> (r: u64)
        requires
            self.wf(),
            index < rank0_of(self.members(), self.domain_size() as int),
        ensures
            r == select0_of(self.members(), index as nat),
            r < self.domain_size(),
            !self.members().contains(r as int),
            rank0_of(self.members(), r as int) == index,
    {
        let ghost s = self.members();
        let size = self.size();
        let mut first: u64 = 0;
        let mut count: u64 = size;
        while count > 0
            invariant
                self.wf(),
                s == self.members(),
                size == self.domain_size(),
                first + count <= size,
                first > 0 ==> rank0_of(s, first - 1) <= index,
                first + count < size ==> rank0_of(s, first + count) > index,
                index < rank0_of(s, size as int),
            decreases count,
        {
            let step = count / 2;
            let x = first + step;
            proof {
                lemma_rank_of_bound(s, x as int);
            }
            let r = x - self.rank(x) as u64;
            if r <= index as u64 {
                first = x + 1;
                count -= step + 1;
            } else {
                count = step;
            }
        }
        proof {
            lemma_rank_of_step(s, first as int, size as int);
            if first == 0 {
                assert(rank0_of(s, 0) == 0);
            }
            assert(rank0_of(s, first as int) > index);
            assert(first > 0);
            let p = first - 1;
            lemma_rank_of_step(s, p, p + 1);
            let q = lemma_select0_exists(s, size as int, index as nat);
            lemma_select0_unique(s, p, q);
        }
        first - 1
    }
}

} // verus!
