//! The rank capability and the queries that follow from it.

use crate::model::lemma_rank_of_bound;
use crate::model::rank0_of;
use crate::model::rank_of;
use crate::set::ImpliedSet;
use vstd::prelude::*;

verus! {

/// Sets that can count their elements below a value.
///
/// `rank` is the one query that an implementation has to supply. The others
/// are derived from it, and an implementation replaces one where it has a
/// faster way.
pub trait Rank: ImpliedSet {
    /// The number of elements strictly less than `value`.
    fn rank(&self, value: u64) -> (r: usize)
        requires
            self.wf(),
        ensures
            r == rank_of(self.members(), value as int),
    ;

    /// Another name for `rank`, for use beside `rank_0`.
    fn rank_1(&self, value: u64) -> (r: usize)
        requires
            self.wf(),
        ensures
            r == rank_of(self.members(), value as int),
    {
        self.rank(value)
    }

    /// The number of integers below `value` that are not in the set.
    fn rank_0(&self, value: u64) -> (r: usize)
        requires
            self.wf(),
            rank0_of(self.members(), value as int) <= usize::MAX,
        ensures
            r == rank0_of(self.members(), value as int),
    {
        proof {
            lemma_rank_of_bound(self.members(), value as int);
        }
        (value - self.rank_1(value) as u64) as usize
    }

    /// The ranks of two values, the first below the second.
    fn rank_2(&self, value_1: u64, value_2: u64) -> (r: (usize, usize))
        requires
            self.wf(),
            value_1 < value_2,
        ensures
            r.0 == rank_of(self.members(), value_1 as int),
            r.1 == rank_of(self.members(), value_2 as int),
    {
        (self.rank(value_1), self.rank(value_2))
    }

    /// Whether `value` is in the set.
    fn contains(&self, value: u64) -> (r: bool)
        requires
            self.wf(),
            value < u64::MAX,
        ensures
            r == self.members().contains(value as int),
    {
        let (r1, r2) = self.rank_2(value, value + 1);
        r1 < r2
    }

    /// The rank of `value`, and whether it is in the set.
    fn access_and_rank(&self, value: u64) -> (r: (usize, bool))
        requires
            self.wf(),
            value < u64::MAX,
        ensures
            r.0 == rank_of(self.members(), value as int),
            r.1 == self.members().contains(value as int),
    {
        let (rank_1, rank_2) = self.rank_2(value, value + 1);
        (rank_1, rank_1 < rank_2)
    }
}

} // verus!
