//! The mathematical model behind every structure of the library: a set of
//! integers, the number of its members below a value, and the lemmas that
//! relate the two.

use vstd::prelude::*;

verus! {

/// The number of members of `s` that are non-negative and strictly below `v`.
pub open spec fn rank_of(s: Set<int>, v: int) -> nat
    decreases v,
{
    if v <= 0 {
        0
    } else {
        rank_of(s, v - 1) + if s.contains(v - 1) { 1nat } else { 0nat }
    }
}

/// The number of non-negative integers strictly below `v` that are not
/// members of `s`.
pub open spec fn rank0_of(s: Set<int>, v: int) -> int {
    v - rank_of(s, v)
}

/// The member of `s` that has exactly `i` members below it.
pub open spec fn select_of(s: Set<int>, i: nat) -> int {
    choose|p: int| 0 <= p && s.contains(p) && rank_of(s, p) == i
}

/// The non-member of `s` that has exactly `i` non-members below it.
pub open spec fn select0_of(s: Set<int>, i: nat) -> int {
    choose|p: int| 0 <= p && !s.contains(p) && rank0_of(s, p) == i
}

/// Whether every member of `s` lies in `[0, n)`.
pub open spec fn within(s: Set<int>, n: int) -> bool {
    forall|v: int| s.contains(v) ==> 0 <= v < n
}

/// The set of the values that occur in `xs`.
pub open spec fn seq_members(xs: Seq<u64>) -> Set<int> {
    Set::new(|v: int| exists|i: int| 0 <= i < xs.len() && xs[i] == v)
}

/// Whether `xs` is strictly increasing: sorted, with no value twice.
pub open spec fn increasing(xs: Seq<u64>) -> bool {
    forall|i: int, j: int| 0 <= i < j < xs.len() ==> xs[i] < xs[j]
}

/// Between two values the rank grows, and by no more than their distance.
pub proof fn lemma_rank_of_step(s: Set<int>, a: int, b: int)
    requires
        0 <= a <= b,
    ensures
        rank_of(s, a) <= rank_of(s, b),
        rank_of(s, b) - rank_of(s, a) <= b - a,
    decreases b,
{
    if a < b {
        lemma_rank_of_step(s, a, b - 1);
    }
}

/// No more members lie below `v` than there are integers in `[0, v)`.
pub proof fn lemma_rank_of_bound(s: Set<int>, v: int)
    requires
        0 <= v,
    ensures
        rank_of(s, v) <= v,
{
    lemma_rank_of_step(s, 0, v);
}

/// Two sets with the same members below `v` have the same rank at `v`.
pub proof fn lemma_rank_of_agree(s: Set<int>, t: Set<int>, v: int)
    requires
        forall|x: int| 0 <= x < v ==> s.contains(x) == t.contains(x),
    ensures
        rank_of(s, v) == rank_of(t, v),
    decreases v,
{
    if v > 0 {
        lemma_rank_of_agree(s, t, v - 1);
    }
}

/// Above the bound of a set the rank no longer grows.
pub proof fn lemma_rank_of_above(s: Set<int>, n: int, v: int)
    requires
        within(s, n),
        n <= v,
    ensures
        rank_of(s, v) == rank_of(s, n),
    decreases v - n,
{
    if n < v {
        lemma_rank_of_above(s, n, v - 1);
    }
}

/// A set within `[0, n)` is finite, and has as many members as its rank at
/// `n` says.
pub proof fn lemma_rank_of_is_len(s: Set<int>, n: int)
    requires
        within(s, n),
    ensures
        s.finite(),
        s.len() == rank_of(s, n),
    decreases n,
{
    if n <= 0 {
        assert(s =~= Set::<int>::empty());
    } else {
        let t = s.remove(n - 1);
        lemma_rank_of_is_len(t, n - 1);
        lemma_rank_of_agree(s, t, n - 1);
        if s.contains(n - 1) {
            assert(s =~= t.insert(n - 1));
        } else {
            assert(s =~= t);
        }
    }
}

/// A set with more than `i` members below `n` has a member below `n` with
/// exactly `i` members below it.
pub proof fn lemma_select_exists(s: Set<int>, n: int, i: nat) -> (p: int)
    requires
        i < rank_of(s, n),
    ensures
        0 <= p < n,
        s.contains(p),
        rank_of(s, p) == i,
        select_of(s, i) == p,
    decreases n,
{
    let p = if rank_of(s, n - 1) > i {
        lemma_select_exists(s, n - 1, i)
    } else {
        n - 1
    };
    lemma_select_unique(s, p, select_of(s, i));
    p
}

/// Two members with the same number of members below them are equal.
pub proof fn lemma_select_unique(s: Set<int>, p: int, q: int)
    requires
        0 <= p,
        0 <= q,
        s.contains(p),
        s.contains(q),
        rank_of(s, p) == rank_of(s, q),
    ensures
        p == q,
{
    if p < q {
        lemma_rank_of_step(s, p + 1, q);
    } else if q < p {
        lemma_rank_of_step(s, q + 1, p);
    }
}

/// A set with more than `i` non-members below `n` has a non-member below `n`
/// with exactly `i` non-members below it.
pub proof fn lemma_select0_exists(s: Set<int>, n: int, i: nat) -> (p: int)
    requires
        0 <= n,
        i < rank0_of(s, n),
    ensures
        0 <= p < n,
        !s.contains(p),
        rank0_of(s, p) == i,
        select0_of(s, i) == p,
    decreases n,
{
    let p = if rank0_of(s, n - 1) > i {
        lemma_select0_exists(s, n - 1, i)
    } else {
        n - 1
    };
    lemma_select0_unique(s, p, select0_of(s, i));
    p
}

/// Two non-members with the same number of non-members below them are equal.
pub proof fn lemma_select0_unique(s: Set<int>, p: int, q: int)
    requires
        0 <= p,
        0 <= q,
        !s.contains(p),
        !s.contains(q),
        rank0_of(s, p) == rank0_of(s, q),
    ensures
        p == q,
{
    if p < q {
        lemma_rank_of_step(s, p + 1, q);
    } else if q < p {
        lemma_rank_of_step(s, q + 1, p);
    }
}

/// In a strictly increasing sequence the rank of `v` is the index that parts
/// the values below `v` from the others.
pub proof fn lemma_rank_of_sorted(xs: Seq<u64>, v: int, r: int)
    requires
        increasing(xs),
        0 <= r <= xs.len(),
        forall|j: int| 0 <= j < r ==> xs[j] < v,
        forall|j: int| r <= j < xs.len() ==> xs[j] >= v,
    ensures
        rank_of(seq_members(xs), v) == r,
    decreases v,
{
    let s = seq_members(xs);
    if v <= 0 {
        if r > 0 {
            assert(xs[0] < v);
        }
    } else {
        let hit = r > 0 && xs[r - 1] == v - 1;
        let before = if hit { r - 1 } else { r };
        assert forall|j: int| 0 <= j < before implies xs[j] < v - 1 by {
            if hit {
                assert(xs[j] < xs[r - 1]);
            } else if j < r - 1 {
                assert(xs[j] < xs[r - 1]);
            }
        }
        lemma_rank_of_sorted(xs, v - 1, before);
        if hit {
            assert(s.contains(v - 1));
        } else if s.contains(v - 1) {
            let i = choose|i: int| 0 <= i < xs.len() && xs[i] == v - 1;
            if i < r - 1 {
                assert(xs[i] < xs[r - 1]);
            }
        }
    }
}

/// Every value of a strictly increasing sequence has as many members below
/// it as its index.
pub proof fn lemma_rank_of_element(xs: Seq<u64>, i: int)
    requires
        increasing(xs),
        0 <= i < xs.len(),
    ensures
        seq_members(xs).contains(xs[i] as int),
        rank_of(seq_members(xs), xs[i] as int) == i,
{
    lemma_rank_of_sorted(xs, xs[i] as int, i);
}

/// Whether `xs` is strictly increasing.
pub fn is_increasing(xs: &[u64]) -> (r: bool)
    ensures
        r == increasing(xs@),
{
    let n = xs.len();
    if n < 2 {
        return true;
    }
    let mut i: usize = 1;
    while i < n
        invariant
            1 <= i <= n,
            n == xs@.len(),
            forall|j: int| 0 < j < i ==> xs@[j - 1] < #[trigger] xs@[j],
        decreases n - i,
    {
        if xs[i - 1] >= xs[i] {
            return false;
        }
        i += 1;
    }
    proof {
        lemma_increasing_from_steps(xs@);
    }
    true
}

/// A sequence that grows at every step is strictly increasing.
pub proof fn lemma_increasing_from_steps(xs: Seq<u64>)
    requires
        forall|j: int| 0 < j < xs.len() ==> xs[j - 1] < #[trigger] xs[j],
    ensures
        increasing(xs),
{
    assert forall|i: int, j: int| 0 <= i < j < xs.len() implies xs[i] < xs[j] by {
        lemma_steps_between(xs, i, j);
    }
}

/// In a sequence that grows at every step, a later value is above an
/// earlier one.
proof fn lemma_steps_between(xs: Seq<u64>, i: int, j: int)
    requires
        forall|j: int| 0 < j < xs.len() ==> xs[j - 1] < #[trigger] xs[j],
        0 <= i < j < xs.len(),
    ensures
        xs[i] < xs[j],
    decreases j - i,
{
    if i + 1 < j {
        lemma_steps_between(xs, i, j - 1);
    }
}

} // verus!
