//! What holds of every structure that answers rank and select, and of the
//! structures of this library among each other.
//!
//! Every structure states its answers over the set of its members, so the
//! laws are stated over that set, for any structure that is valid.

use crate::dense64::Dense64;
use crate::error::LoadError;
use crate::intvec::IntVec;
use crate::model::lemma_rank_of_above;
use crate::model::lemma_rank_of_is_len;
use crate::model::lemma_rank_of_step;
use crate::model::lemma_select0_exists;
use crate::model::lemma_select_exists;
use crate::model::lemma_select_unique;
use crate::model::rank0_of;
use crate::model::rank_of;
use crate::model::select0_of;
use crate::model::select_of;
use crate::naive_sparse::NaiveSparse;
use crate::persist::loaded;
use crate::persist::Persistent;
use crate::set::ImpliedSet;
use crate::sorted::Sorted;
use crate::sparse::Sparse;
use vstd::arithmetic::power2::lemma2_to64;
use vstd::arithmetic::power2::lemma_pow2_strictly_increases;
use vstd::prelude::*;

verus! {

/// The set of a structure is finite, and the count is the number of its
/// members.
pub proof fn law_count_is_cardinality<S: ImpliedSet>(set: &S)
    requires
        set.wf(),
    ensures
        set.members().finite(),
        set.members().len() == rank_of(set.members(), set.domain_size() as int),
{
    set.lemma_members_in_domain();
    lemma_rank_of_is_len(set.members(), set.domain_size() as int);
}

/// Select answers with a member of the domain, and rank undoes select: the
/// `i`-th smallest element has rank `i`, and the value behind it has rank
/// `i + 1`.
pub proof fn law_rank_of_select<S: ImpliedSet>(set: &S, i: nat)
    requires
        set.wf(),
        i < rank_of(set.members(), set.domain_size() as int),
    ensures
        0 <= select_of(set.members(), i) < set.domain_size(),
        set.members().contains(select_of(set.members(), i)),
        rank_of(set.members(), select_of(set.members(), i)) == i,
        rank_of(set.members(), select_of(set.members(), i) + 1) == i + 1,
{
    lemma_select_exists(set.members(), set.domain_size() as int, i);
}

/// Select undoes rank on the elements: the element whose rank is that of
/// the element `v` is `v`.
pub proof fn law_select_of_rank<S: ImpliedSet>(set: &S, v: nat)
    requires
        set.wf(),
        v < set.domain_size(),
        set.members().contains(v as int),
    ensures
        rank_of(set.members(), v as int) < rank_of(set.members(), set.domain_size() as int),
        select_of(set.members(), rank_of(set.members(), v as int)) == v,
{
    let s = set.members();
    lemma_rank_of_step(s, v as int + 1, set.domain_size() as int);
    let p = lemma_select_exists(s, set.domain_size() as int, rank_of(s, v as int));
    lemma_select_unique(s, p, v as int);
}

/// Rank grows with the value, starts at 0, and ends at the count: no
/// element is below 0, and all of them are below the size of the domain
/// and below anything above it.
pub proof fn law_rank_monotonic<S: ImpliedSet>(set: &S, v1: nat, v2: nat)
    requires
        set.wf(),
        v1 <= v2,
    ensures
        rank_of(set.members(), v1 as int) <= rank_of(set.members(), v2 as int),
        rank_of(set.members(), 0) == 0,
        v2 >= set.domain_size() ==> rank_of(set.members(), v2 as int) == rank_of(
            set.members(),
            set.domain_size() as int,
        ),
{
    lemma_rank_of_step(set.members(), v1 as int, v2 as int);
    if v2 >= set.domain_size() {
        set.lemma_members_in_domain();
        lemma_rank_of_above(set.members(), set.domain_size() as int, v2 as int);
    }
}

/// The elements below a value and the other integers below it are all the
/// integers below it. Neither count is above the value, so that both, which
/// `rank_1` and `rank_0` return as `usize`, fit wherever the value does.
pub proof fn law_rank_complement<S: ImpliedSet>(set: &S, v: nat)
    requires
        set.wf(),
        v <= set.domain_size(),
    ensures
        rank0_of(set.members(), v as int) + rank_of(set.members(), v as int) == v,
        0 <= rank0_of(set.members(), v as int) <= v,
        rank_of(set.members(), v as int) <= v,
        v <= usize::MAX ==> rank0_of(set.members(), v as int) <= usize::MAX,
{
    lemma_rank_of_step(set.members(), 0, v as int);
}

/// A value is an element exactly if the rank grows by one across it.
pub proof fn law_access<S: ImpliedSet>(set: &S, v: nat)
    requires
        set.wf(),
    ensures
        set.members().contains(v as int) <==> rank_of(set.members(), v as int + 1) == rank_of(
            set.members(),
            v as int,
        ) + 1,
{
}

/// Select over the complement answers with an integer of the domain that
/// is not an element, and the rank over the complement undoes it.
pub proof fn law_rank_0_of_select_0<S: ImpliedSet>(set: &S, j: nat)
    requires
        set.wf(),
        j < set.domain_size() - rank_of(set.members(), set.domain_size() as int),
    ensures
        0 <= select0_of(set.members(), j) < set.domain_size(),
        !set.members().contains(select0_of(set.members(), j)),
        rank0_of(set.members(), select0_of(set.members(), j)) == j,
{
    lemma_select0_exists(set.members(), set.domain_size() as int, j);
}

/// The sparse set and the sorted vector of the same elements stand for the
/// same set: they agree on every rank and on every select.
pub proof fn law_oracle_equivalence(sparse: &Sparse, sorted: &Sorted, xs: Seq<u64>)
    requires
        sparse.wf(),
        sparse.elements() == xs,
        sorted.spec_elements() == xs,
    ensures
        sorted.wf(),
        sparse.members() == sorted.members(),
        forall|v: int| rank_of(sparse.members(), v) == rank_of(sorted.members(), v),
        forall|i: nat| select_of(sparse.members(), i) == select_of(sorted.members(), i),
        rank_of(sparse.members(), sparse.domain_size() as int) == rank_of(
            sorted.members(),
            sorted.domain_size() as int,
        ),
{
    if xs.len() > 0 {
        sparse.lemma_element_bounds(xs.len() - 1);
        lemma2_to64();
        lemma_pow2_strictly_increases(sparse.spec_b(), 64);
    }
    sparse.lemma_rank_at_end(sparse.domain_size() as int);
    sorted.lemma_count();
}

/// A bitmap that is read from the bytes of a valid bitmap is read without
/// error, stands for the same set over the same domain, and leaves what
/// followed the bytes.
pub proof fn law_round_trip_dense64(
    x: &Dense64,
    tail: Seq<u8>,
    r: Result<Box<Dense64>, LoadError>,
    rest: Seq<u8>,
)
    requires
        x.wf(),
        loaded(x.stored() + tail, r, rest),
    ensures
        r is Ok,
        rest == tail,
        r->Ok_0.wf(),
        r->Ok_0.members() == x.members(),
        r->Ok_0.domain_size() == x.domain_size(),
{
    x.lemma_round_trip(tail, x, tail);
    x.lemma_round_trip(tail, &*r->Ok_0, rest);
}

/// A vector that is read from the bytes of a valid vector is read without
/// error, holds the same values in the same width, and leaves what followed
/// the bytes.
pub proof fn law_round_trip_intvec(
    x: &IntVec,
    tail: Seq<u8>,
    r: Result<Box<IntVec>, LoadError>,
    rest: Seq<u8>,
)
    requires
        x.wf(),
        loaded(x.stored() + tail, r, rest),
    ensures
        r is Ok,
        rest == tail,
        r->Ok_0.wf(),
        r->Ok_0@ == x@,
        r->Ok_0.width() == x.width(),
{
    x.lemma_round_trip(tail, x, tail);
    x.lemma_round_trip(tail, &*r->Ok_0, rest);
}

/// A sparse set that is read from the bytes of a valid sparse set is read
/// without error, stands for the same set over the same domain, and leaves
/// what followed the bytes.
pub proof fn law_round_trip_sparse(
    x: &Sparse,
    tail: Seq<u8>,
    r: Result<Box<Sparse>, LoadError>,
    rest: Seq<u8>,
)
    requires
        x.wf(),
        loaded(x.stored() + tail, r, rest),
    ensures
        r is Ok,
        rest == tail,
        r->Ok_0.wf(),
        r->Ok_0.members() == x.members(),
        r->Ok_0.domain_size() == x.domain_size(),
{
    x.lemma_round_trip(tail, x, tail);
    x.lemma_round_trip(tail, &*r->Ok_0, rest);
}

/// A naive sparse set that is read from the bytes of a valid one is read
/// without error, stands for the same set over the same domain, and leaves
/// what followed the bytes.
pub proof fn law_round_trip_naive_sparse(
    x: &NaiveSparse,
    tail: Seq<u8>,
    r: Result<Box<NaiveSparse>, LoadError>,
    rest: Seq<u8>,
)
    requires
        x.wf(),
        loaded(x.stored() + tail, r, rest),
    ensures
        r is Ok,
        rest == tail,
        r->Ok_0.wf(),
        r->Ok_0.members() == x.members(),
        r->Ok_0.domain_size() == x.domain_size(),
{
    x.lemma_round_trip(tail, x, tail);
    x.lemma_round_trip(tail, &*r->Ok_0, rest);
}

} // verus!
