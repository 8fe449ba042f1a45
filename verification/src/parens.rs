//! Balanced parentheses over a set with rank: a member stands for an opening
//! parenthesis, a non-member for a closing one.

use crate::dense64::Dense64;
use crate::model::lemma_rank_of_bound;
use crate::model::rank_of;
use crate::naive_dense::NaiveDense;
use crate::rank::Rank;
use vstd::prelude::*;

verus! {

/// The excess at `v`: the opening parentheses before position `v` less the
/// closing ones before it.
pub open spec fn excess_of(s: Set<int>, v: int) -> int {
    2 * rank_of(s, v) - v
}

/// Whether the `n` parentheses are balanced: as many opening as closing
/// ones, and never more closing than opening ones in a prefix.
pub open spec fn balanced(s: Set<int>, n: int) -> bool {
    &&& 2 * rank_of(s, n) == n
    &&& forall|v: int| 0 <= v < n ==> #[trigger] excess_of(s, v) >= 0
}

/// Whether `j` is the first position behind `i` and before `n` at which the
/// excess is that at `i` plus `d`; `None` says that there is none.
pub open spec fn first_behind(s: Set<int>, n: int, i: int, d: int, found: Option<u64>) -> bool {
    match found {
        Some(j) => {
            &&& i < j < n
            &&& excess_of(s, j as int) == excess_of(s, i) + d
            &&& forall|t: int| i < t < j ==> #[trigger] excess_of(s, t) != excess_of(s, i) + d
        },
        None => forall|t: int| i < t < n ==> #[trigger] excess_of(s, t) != excess_of(s, i) + d,
    }
}

/// Whether `j` is the last position before `i` at which the excess is that
/// at `i` plus `d`; `None` says that there is none.
pub open spec fn last_before(s: Set<int>, i: int, d: int, found: Option<u64>) -> bool {
    match found {
        Some(j) => {
            &&& 0 <= j < i
            &&& excess_of(s, j as int) == excess_of(s, i) + d
            &&& forall|t: int| j < t < i ==> #[trigger] excess_of(s, t) != excess_of(s, i) + d
        },
        None => forall|t: int| 0 <= t < i ==> #[trigger] excess_of(s, t) != excess_of(s, i) + d,
    }
}

/// The position before the one given, where one is given.
pub open spec fn step_back(at: Option<u64>) -> Option<u64> {
    match at {
        Some(p) => Some((p - 1) as u64),
        None => None,
    }
}

/// Navigation in a sequence of balanced parentheses, as in the succinct
/// representation of a tree. The searches walk the positions one by one.
pub trait BalencedPArens: Rank {
    /// Scan the bits to check they are properly balanced.
    fn valid(&self) -> (r: bool)
        requires
            self.wf(),
        ensures
            r == balanced(self.members(), self.domain_size() as int),
    {
        let size = self.size();
        if size % 2 != 0 || self.count() as u64 != size / 2 {
            return false;
        }
        let mut i: u64 = 0;
        while i < size
            invariant
                self.wf(),
                i <= size == self.domain_size(),
                forall|v: int| 0 <= v < i ==> #[trigger] excess_of(self.members(), v) >= 0,
            decreases size - i,
        {
            let (r, _p) = self.access_and_rank(i);
            proof {
                lemma_rank_of_bound(self.members(), i as int);
            }
            if (r as u64) < i - r as u64 {
                assert(excess_of(self.members(), i as int) < 0);
                return false;
            }
            assert(excess_of(self.members(), i as int) >= 0);
            i += 1;
        }
        true
    }

    /// The opening parenthesis that encloses the one at `value`.
    fn parent(&self, value: u64) -> (r: Option<u64>)
        requires
            self.wf(),
            balanced(self.members(), self.domain_size() as int),
            value <= self.domain_size() <= i64::MAX,
        ensures
            r matches Some(p) ==> p >= 1,
            last_before(self.members(), value as int, -2, step_back(r)),
    {
        self.enclose(value)
    }

    /// The position behind `value`: that of its first child, where `value`
    /// is an opening parenthesis followed by another.
    fn first_child(&self, value: u64) -> (r: Option<u64>)
        requires
            value < u64::MAX,
        ensures
            r == Some((value + 1) as u64),
    {
        Some(value + 1)
    }

    /// The first position behind `i` at which the excess is one less than
    /// at `i`.
    fn close(&self, i: u64) -> (r: Option<u64>)
        requires
            self.wf(),
            balanced(self.members(), self.domain_size() as int),
            i <= self.domain_size() <= i64::MAX,
        ensures
            first_behind(self.members(), self.domain_size() as int, i as int, -1, r),
    {
        proof {
            lemma_rank_of_bound(self.members(), i as int);
        }
        self.fwd_search(i, -1)
    }

    /// The position behind the last one before `i` at which the excess is
    /// the same as at `i`.
    fn open(&self, i: u64) -> (r: Option<u64>)
        requires
            self.wf(),
            balanced(self.members(), self.domain_size() as int),
            i <= self.domain_size() <= i64::MAX,
        ensures
            r matches Some(p) ==> p >= 1,
            last_before(self.members(), i as int, 0, step_back(r)),
    {
        proof {
            lemma_rank_of_bound(self.members(), i as int);
        }
        match self.bwd_search(i, 0) {
            Some(j) => Some(j + 1),
            None => None,
        }
    }

    /// The position behind the last one before `i` at which the excess is
    /// two less than at `i`.
    fn enclose(&self, i: u64) -> (r: Option<u64>)
        requires
            self.wf(),
            balanced(self.members(), self.domain_size() as int),
            i <= self.domain_size() <= i64::MAX,
        ensures
            r matches Some(p) ==> p >= 1,
            last_before(self.members(), i as int, -2, step_back(r)),
    {
        proof {
            lemma_rank_of_bound(self.members(), i as int);
        }
        match self.bwd_search(i, -2) {
            Some(j) => Some(j + 1),
            None => None,
        }
    }

    /// The opening parentheses before `value` less the closing ones.
    fn excess(&self, value: u64) -> (r: u64)
        requires
            self.wf(),
            excess_of(self.members(), value as int) >= 0,
            2 * rank_of(self.members(), value as int) <= u64::MAX,
        ensures
            r == excess_of(self.members(), value as int),
    {
        2 * self.rank(value) as u64 - value
    }

    /// The first position behind `i` at which the excess is that at `i`
    /// plus `d`.
    fn fwd_search(&self, i: u64, d: i64) -> (r: Option<u64>)
        requires
            self.wf(),
            balanced(self.members(), self.domain_size() as int),
            i <= self.domain_size() <= i64::MAX,
            excess_of(self.members(), i as int) + d <= i64::MAX,
        ensures
            first_behind(self.members(), self.domain_size() as int, i as int, d as int, r),
    {
        let ghost s = self.members();
        let size = self.size();
        proof {
            lemma_rank_of_bound(s, i as int);
        }
        let excess_i = self.excess(i);
        let target = excess_i as i64 + d;
        if target < 0 {
            return None;
        }
        let mut j = i + 1;
        while j < size
            invariant
                self.wf(),
                s == self.members(),
                size == self.domain_size() <= i64::MAX,
                balanced(s, size as int),
                i < j,
                0 <= target == excess_of(s, i as int) + d,
                forall|t: int| i < t < j ==> #[trigger] excess_of(s, t) != target,
            decreases size - j,
        {
            proof {
                lemma_rank_of_bound(s, j as int);
            }
            let excess_j = self.excess(j);
            if excess_j == target as u64 {
                return Some(j);
            }
            j += 1;
        }
        None
    }

    /// The last position before `i` at which the excess is that at `i` plus
    /// `d`.
    fn bwd_search(&self, i: u64, d: i64) -> (r: Option<u64>)
        requires
            self.wf(),
            balanced(self.members(), self.domain_size() as int),
            i <= self.domain_size() <= i64::MAX,
            excess_of(self.members(), i as int) + d <= i64::MAX,
        ensures
            last_before(self.members(), i as int, d as int, r),
    {
        let ghost s = self.members();
        proof {
            lemma_rank_of_bound(s, i as int);
        }
        let excess_i = self.excess(i);
        let target = excess_i as i64 + d;
        if target < 0 {
            return None;
        }
        let mut j = i;
        while j > 0
            invariant
                self.wf(),
                s == self.members(),
                balanced(s, self.domain_size() as int),
                j <= i <= self.domain_size() <= i64::MAX,
                0 <= target == excess_of(s, i as int) + d,
                forall|t: int| j <= t < i ==> #[trigger] excess_of(s, t) != target,
            decreases j,
        {
            j -= 1;
            proof {
                lemma_rank_of_bound(s, j as int);
            }
            let excess_j = self.excess(j);
            if excess_j == target as u64 {
                return Some(j);
            }
        }
        None
    }
}

impl BalencedPArens for Dense64 {

}

impl BalencedPArens for NaiveDense {

}

} // verus!
