//! A simple sparse set based on an indexed sorted vector.

use crate::error::LoadError;
use crate::model::increasing;
use crate::model::is_increasing;
use crate::persist::as_u64s;
use crate::persist::le_bytes;
use crate::persist::le_value;
use crate::persist::lemma_as_u64s;
use crate::persist::lemma_joined;
use crate::persist::lemma_number_first;
use crate::persist::lemma_number_parsed;
use crate::persist::lemma_spans;
use crate::persist::lemma_vec_parsed;
use crate::persist::lemma_vec_round_trip;
use crate::persist::load_u64;
use crate::persist::load_vec_u64;
use crate::persist::save_vec;
use crate::persist::values_of;
use crate::persist::vec_bytes;
use crate::persist::vec_rest;
use crate::persist::vec_values;
use crate::persist::Persistent;
use crate::persist::Scalar;
use crate::persist::Source;
use crate::model::lemma_rank_of_element;
use crate::model::lemma_rank_of_sorted;
use crate::model::lemma_select_exists;
use crate::model::lemma_select_unique;
use crate::model::rank_of;
use crate::model::seq_members;
use crate::rank::Rank;
use crate::select::Select;
use crate::select::Select0;
use crate::set::ImpliedSet;
use vstd::arithmetic::div_mod::lemma_div_is_ordered;
use vstd::arithmetic::div_mod::lemma_multiply_divide_lt;
use vstd::arithmetic::power2::lemma2_to64;
use vstd::arithmetic::power2::lemma_pow2_adds;
use vstd::arithmetic::power2::lemma_pow2_pos;
use vstd::arithmetic::power2::lemma_pow2_strictly_increases;
use vstd::arithmetic::power2::pow2;
use vstd::bits::lemma_u64_shl_is_mul;
use vstd::bits::lemma_u64_shr_is_div;
use vstd::prelude::*;
use vstd::slice::slice_to_vec;

verus! {

/// The table of contents is keyed by the 10 leading bits of a value.
pub const B: usize = 10;

/// The leading bits of `x`: what is left of it above its `s` low bits.
pub open spec fn top_of(x: u64, s: nat) -> int {
    x as int / pow2(s) as int
}

/// The number of the first `k` values whose leading bits are `v`.
pub open spec fn count_top(xs: Seq<u64>, s: nat, v: int, k: int) -> nat
    decreases k,
{
    if k <= 0 {
        0
    } else {
        count_top(xs, s, v, k - 1) + if top_of(xs[k - 1], s) == v { 1nat } else { 0nat }
    }
}

/// The number of the first `k` values whose leading bits are below `v`.
pub open spec fn count_below_top(xs: Seq<u64>, s: nat, v: int, k: int) -> nat
    decreases k,
{
    if k <= 0 {
        0
    } else {
        count_below_top(xs, s, v, k - 1) + if top_of(xs[k - 1], s) < v { 1nat } else { 0nat }
    }
}

/// Whether `toc` is the table of contents of `xs`: entry `v` is the number
/// of values whose leading bits are below `v`, for `v` from 0 to 2^10.
pub open spec fn is_toc(xs: Seq<u64>, s: nat, toc: Seq<usize>) -> bool {
    &&& toc.len() == 1025
    &&& forall|v: int|
        0 <= v <= 1024 ==> #[trigger] toc[v] == count_below_top(xs, s, v, xs.len() as int)
}

/// The values with leading bits below `v + 1` are those with leading bits
/// below `v` and those with leading bits `v`.
proof fn lemma_count_split(xs: Seq<u64>, s: nat, v: int, k: int)
    ensures
        count_below_top(xs, s, v + 1, k) == count_below_top(xs, s, v, k) + count_top(xs, s, v, k),
        count_below_top(xs, s, v, k) <= k || k < 0,
        count_top(xs, s, v, k) <= k || k < 0,
    decreases k,
{
    if k > 0 {
        lemma_count_split(xs, s, v, k - 1);
    }
}

/// Leading bits are never negative, so none are below 0.
proof fn lemma_count_below_zero(xs: Seq<u64>, s: nat, k: int)
    ensures
        count_below_top(xs, s, 0, k) == 0,
    decreases k,
{
    if k > 0 {
        lemma_count_below_zero(xs, s, k - 1);
        lemma_pow2_pos(s);
        lemma_div_is_ordered(0, xs[k - 1] as int, pow2(s) as int);
    }
}

/// In a sorted sequence the values with leading bits below `v` are the
/// first ones, as many as the table of contents says.
proof fn lemma_count_is_prefix(xs: Seq<u64>, s: nat, v: int, k: int)
    requires
        increasing(xs),
        0 <= k <= xs.len(),
    ensures
        count_below_top(xs, s, v, k) <= k,
        forall|j: int| 0 <= j < k ==> (j < count_below_top(xs, s, v, k) <==> top_of(xs[j], s) < v),
    decreases k,
{
    if k > 0 {
        lemma_count_is_prefix(xs, s, v, k - 1);
        lemma_pow2_pos(s);
        if top_of(xs[k - 1], s) < v {
            assert forall|j: int| 0 <= j < k - 1 implies top_of(xs[j], s) < v by {
                assert(xs[j] < xs[k - 1]);
                lemma_div_is_ordered(xs[j] as int, xs[k - 1] as int, pow2(s) as int);
            }
            if k - 1 > 0 {
                assert(top_of(xs[k - 2], s) < v);
            }
        }
    }
}

/// A simple index sparse set representation.
///
/// This representation is not succinct - it stores the elements of the set
/// in a sorted vector, and computes a table-of-contents to accelerate the
/// binary search based implementation of `rank`.
///
/// It uses a 1024 entry table of contents.
pub struct NaiveSparse {
    b: usize,
    elements: Vec<u64>,
    toc: Vec<usize>,
}

impl NaiveSparse {
    /// The width of the domain in bits.
    pub closed spec fn spec_b(&self) -> nat {
        self.b as nat
    }

    /// The elements, as given.
    pub closed spec fn spec_elements(&self) -> Seq<u64> {
        self.elements@
    }

    /// The table of contents.
    pub closed spec fn spec_toc(&self) -> Seq<usize> {
        self.toc@
    }

    /// Create a naive sparse set for values with `b` bits. The structure is
    /// valid where the elements are in strictly increasing order.
    pub fn new(b: usize, elements: &[u64]) -> (r: NaiveSparse)
        requires
            B < b <= 63,
            forall|i: int| 0 <= i < elements@.len() ==> elements@[i] < pow2(b as nat),
        ensures
            r.spec_b() == b,
            r.spec_elements() == elements@,
            is_toc(elements@, (b - B) as nat, r.spec_toc()),
            r.wf() == increasing(elements@),
    {
        let m: usize = 1 << B;
        let s = if b > B {
            b - B
        } else {
            0
        };
        assert(1usize << 10 == 1024) by (bit_vector);
        let mut toc: Vec<usize> = Vec::new();
        while toc.len() < m + 1
            invariant
                m == 1024,
                toc@.len() <= m + 1,
                forall|v: int| 0 <= v < toc@.len() ==> toc@[v] == 0,
            decreases m + 1 - toc@.len(),
        {
            toc.push(0);
        }
        let n = elements.len();
        let mut i: usize = 0;
        while i < n
            invariant
                i <= n,
                n == elements@.len(),
                B < b <= 63,
                s == b - B,
                forall|i: int| 0 <= i < elements@.len() ==> elements@[i] < pow2(b as nat),
                toc@.len() == 1025,
                forall|v: int|
                    0 <= v <= 1024 ==> #[trigger] toc@[v] == count_top(
                        elements@,
                        s as nat,
                        v,
                        i as int,
                    ),
            decreases n - i,
        {
            let x = elements[i];
            proof {
                lemma2_to64();
                lemma_pow2_pos(s as nat);
                lemma_pow2_adds(s as nat, 10);
                lemma_u64_shr_is_div(x, s as u64);
                lemma_multiply_divide_lt(x as int, pow2(s as nat) as int, 1024);
                lemma_div_is_ordered(0, x as int, pow2(s as nat) as int);
                lemma_count_split(elements@, s as nat, top_of(x, s as nat), i as int);
            }
            let v = (x >> (s as u64)) as usize;
            let c = toc[v];
            toc.set(v, c + 1);
            i += 1;
        }
        let mut count: usize = 0;
        let mut i: usize = 0;
        proof {
            lemma_count_below_zero(elements@, s as nat, n as int);
        }
        while i < toc.len()
            invariant
                i <= toc@.len() == 1025,
                n == elements@.len(),
                count == count_below_top(elements@, s as nat, i as int, n as int),
                forall|v: int|
                    0 <= v < i ==> #[trigger] toc@[v] == count_below_top(
                        elements@,
                        s as nat,
                        v,
                        n as int,
                    ),
                forall|v: int|
                    i <= v <= 1024 ==> #[trigger] toc@[v] == count_top(
                        elements@,
                        s as nat,
                        v,
                        n as int,
                    ),
            decreases toc@.len() - i,
        {
            proof {
                lemma_count_split(elements@, s as nat, i as int, n as int);
                lemma_count_split(elements@, s as nat, i + 1, n as int);
            }
            let c = toc[i];
            toc.set(i, count);
            count += c;
            i += 1;
        }
        NaiveSparse { b, elements: slice_to_vec(elements), toc }
    }

    /// All the elements are below the size of the domain.
    pub proof fn lemma_rank_at_end(&self, v: int)
        requires
            self.wf(),
            v >= self.domain_size(),
        ensures
            rank_of(self.members(), v) == self.spec_elements().len(),
    {
        let xs = self.spec_elements();
        lemma_rank_of_sorted(xs, v, xs.len() as int);
    }
}

impl ImpliedSet for NaiveSparse {
    open spec fn wf(&self) -> bool {
        &&& B < self.spec_b() <= 63
        &&& increasing(self.spec_elements())
        &&& forall|i: int|
            0 <= i < self.spec_elements().len() ==> self.spec_elements()[i] < pow2(self.spec_b())
        &&& is_toc(self.spec_elements(), (self.spec_b() - B) as nat, self.spec_toc())
    }

    open spec fn members(&self) -> Set<int> {
        seq_members(self.spec_elements())
    }

    open spec fn domain_size(&self) -> nat {
        pow2(self.spec_b())
    }

    proof fn lemma_members_in_domain(&self) {
    }

    fn count(&self) -> (r: usize) {
        proof {
            self.lemma_rank_at_end(self.domain_size() as int);
        }
        self.elements.len()
    }

    fn size(&self) -> (r: u64) {
        proof {
            lemma2_to64();
            lemma_pow2_strictly_increases(self.b as nat, 64);
            lemma_u64_shl_is_mul(1, self.b as u64);
        }
        1u64 << (self.b as u64)
    }
}

impl Rank for NaiveSparse {
    fn rank(&self, value: u64) -> (r: usize) {
        if value >= self.size() {
            proof {
                self.lemma_rank_at_end(value as int);
                self.lemma_rank_at_end(self.domain_size() as int);
            }
            return self.count();
        }
        let s = self.b - B;
        proof {
            lemma2_to64();
            lemma_pow2_pos(s as nat);
            lemma_pow2_adds(s as nat, 10);
            lemma_u64_shr_is_div(value, s as u64);
            lemma_multiply_divide_lt(value as int, pow2(s as nat) as int, 1024);
            lemma_div_is_ordered(0, value as int, pow2(s as nat) as int);
        }
        let i = (value >> (s as u64)) as usize;
        let mut first = self.toc[i];
        let last = self.toc[i + 1];
        proof {
            let xs = self.spec_elements();
            let n = xs.len() as int;
            lemma_count_is_prefix(xs, s as nat, i as int, n);
            lemma_count_is_prefix(xs, s as nat, i + 1, n);
            lemma_count_split(xs, s as nat, i as int, n);
            assert(first == count_below_top(xs, s as nat, i as int, n));
            assert(last == count_below_top(xs, s as nat, i + 1, n));
            assert forall|j: int| 0 <= j < first implies xs[j] < value by {
                if xs[j] >= value {
                    lemma_div_is_ordered(value as int, xs[j] as int, pow2(s as nat) as int);
                }
            }
            assert forall|j: int| last <= j < n implies xs[j] >= value by {
                if xs[j] < value {
                    lemma_div_is_ordered(xs[j] as int, value as int, pow2(s as nat) as int);
                }
            }
        }
        let mut count = last - first;
        let total = self.elements.len();
        while count > 0
            invariant
                increasing(self.spec_elements()),
                total == self.spec_elements().len(),
                first + count <= total,
                forall|j: int| 0 <= j < first ==> self.spec_elements()[j] < value,
                forall|j: int|
                    first + count <= j < self.spec_elements().len() ==> self.spec_elements()[j]
                        >= value,
            decreases count,
        {
            let step = count / 2;
            let i = first + step;
            if self.elements[i] < value {
                proof {
                    let xs = self.spec_elements();
                    assert forall|j: int| 0 <= j < i + 1 implies xs[j] < value by {
                        if j < i {
                            assert(xs[j] < xs[i as int]);
                        }
                    }
                }
                first = i + 1;
                count -= step + 1;
            } else {
                proof {
                    let xs = self.spec_elements();
                    assert forall|j: int| i <= j < xs.len() implies xs[j] >= value by {
                        if i < j {
                            assert(xs[i as int] < xs[j]);
                        }
                    }
                }
                count = step;
            }
        }
        proof {
            lemma_rank_of_sorted(self.spec_elements(), value as int, first as int);
        }
        first
    }
}

impl Select for NaiveSparse {
    fn select(&self, index: usize) -> (r: u64) {
        proof {
            self.lemma_rank_at_end(self.domain_size() as int);
        }
        let r = self.elements[index];
        proof {
            lemma_rank_of_element(self.spec_elements(), index as int);
            let q = lemma_select_exists(self.members(), self.domain_size() as int, index as nat);
            lemma_select_unique(self.members(), r as int, q);
        }
        r
    }
}

impl Select0 for NaiveSparse {

}

/// What is left of the bytes behind the three parts of a naive sparse set
/// at their front; a short read where the bytes end before the parts do.
pub open spec fn naive_frame(bytes: Seq<u8>) -> Result<Seq<u8>, LoadError> {
    if bytes.len() < 8 {
        Err(LoadError::ShortRead)
    } else {
        match vec_rest(bytes.skip(8), 8) {
            Err(e) => Err(e),
            Ok(at_toc) => vec_rest(at_toc, 8),
        }
    }
}

/// Whether the three parts make up a valid naive sparse set: a width from
/// 11 to 63, elements of that width in strictly increasing order, and their
/// table of contents.
pub open spec fn naive_valid(b: nat, elements: Seq<u64>, toc: Seq<nat>) -> bool {
    &&& B < b <= 63
    &&& increasing(elements)
    &&& forall|i: int| 0 <= i < elements.len() ==> elements[i] < pow2(b)
    &&& toc.len() == 1025
    &&& forall|v: int|
        0 <= v <= 1024 ==> #[trigger] toc[v] == count_below_top(
            elements,
            (b - B) as nat,
            v,
            elements.len() as int,
        )
}

/// The width at the front of the bytes of a naive sparse set.
pub open spec fn framed_width(bytes: Seq<u8>) -> nat {
    le_value(bytes.take(8))
}

/// The elements in the bytes of a naive sparse set.
pub open spec fn framed_elements(bytes: Seq<u8>) -> Seq<u64> {
    as_u64s(vec_values(bytes.skip(8), 8))
}

/// The table of contents in the bytes of a naive sparse set.
pub open spec fn framed_toc(bytes: Seq<u8>) -> Seq<nat> {
    vec_values(vec_rest(bytes.skip(8), 8)->Ok_0, 8)
}

/// Whether the table of contents holds the numbers given.
fn same_toc(toc: &Vec<usize>, given: &Vec<u64>) -> (r: bool)
    ensures
        r == (values_of(toc@) == values_of(given@)),
{
    if toc.len() != given.len() {
        assert(values_of(toc@).len() != values_of(given@).len());
        return false;
    }
    let mut i: usize = 0;
    while i < toc.len()
        invariant
            i <= toc@.len() == given@.len(),
            forall|j: int| 0 <= j < i ==> toc@[j] == given@[j],
        decreases toc@.len() - i,
    {
        if toc[i] as u64 != given[i] {
            assert(values_of(toc@)[i as int] != values_of(given@)[i as int]);
            return false;
        }
        i += 1;
    }
    assert(values_of(toc@) =~= values_of(given@));
    true
}

/// Read the three parts of a naive sparse set, as they stand in the bytes.
fn read_parts(source: &mut Source) -> (r: Result<(u64, Vec<u64>, Vec<u64>), LoadError>)
    ensures
        match r {
            Ok(parts) => {
                &&& naive_frame(old(source)@) == Ok::<Seq<u8>, LoadError>(final(source)@)
                &&& parts.0 == framed_width(old(source)@)
                &&& parts.1@ == framed_elements(old(source)@)
                &&& values_of(parts.2@) == framed_toc(old(source)@)
                &&& old(source)@ == le_bytes(parts.0 as nat, 8) + vec_bytes(values_of(parts.1@), 8)
                    + vec_bytes(values_of(parts.2@), 8) + final(source)@
            },
            Err(e) => naive_frame(old(source)@) == Err::<Seq<u8>, LoadError>(e),
        },
{
    let ghost from = source@;
    let b = match load_u64(source) {
        Ok(x) => x,
        Err(e) => {
            return Err(e);
        },
    };
    let ghost at_elements = source@;
    let elements = match load_vec_u64(source) {
        Ok(x) => x,
        Err(e) => {
            return Err(e);
        },
    };
    let ghost at_toc = source@;
    let toc = match load_vec_u64(source) {
        Ok(x) => x,
        Err(e) => {
            return Err(e);
        },
    };
    proof {
        lemma_number_parsed(from);
        lemma_vec_parsed(at_elements, 8);
        lemma_vec_parsed(at_toc, 8);
        lemma_as_u64s(elements@);
        lemma_joined(
            le_bytes(b as nat, 8),
            vec_bytes(values_of(elements@), 8),
            vec_bytes(values_of(toc@), 8),
            source@,
            Seq::empty(),
        );
    }
    Ok((b, elements, toc))
}

/// Valid parts have the table of contents of their elements, whichever
/// vector holds it.
proof fn lemma_toc_unique(b: nat, elements: Seq<u64>, toc: Seq<nat>, built: Seq<usize>)
    requires
        naive_valid(b, elements, toc),
        is_toc(elements, (b - B) as nat, built),
    ensures
        toc == values_of(built),
{
    assert(toc =~= values_of(built));
}

impl Persistent for NaiveSparse {
    open spec fn storable(&self) -> bool {
        self.wf()
    }

    /// The width in 8 bytes, then the elements and the table of contents,
    /// each as a vector of numbers of 8 bytes.
    open spec fn stored(&self) -> Seq<u8> {
        le_bytes(self.spec_b(), 8) + vec_bytes(values_of(self.spec_elements()), 8) + vec_bytes(
            values_of(self.spec_toc()),
            8,
        )
    }

    /// The three parts have to be there, and to be those of a valid set.
    open spec fn decoded(bytes: Seq<u8>) -> Result<Seq<u8>, LoadError> {
        match naive_frame(bytes) {
            Err(e) => Err(e),
            Ok(rest) => if naive_valid(
                framed_width(bytes),
                framed_elements(bytes),
                framed_toc(bytes),
            ) {
                Ok(rest)
            } else {
                Err(LoadError::Inconsistent)
            },
        }
    }

    fn save(&self, sink: &mut Vec<u8>) {
        self.b.put(sink);
        save_vec(sink, self.elements.as_slice());
        save_vec(sink, self.toc.as_slice());
        assert(sink@ =~= old(sink)@ + self.stored());
    }

    fn load(source: &mut Source) -> (r: Result<Box<Self>, LoadError>) {
        let (b, elements, toc) = match read_parts(source) {
            Ok(parts) => parts,
            Err(e) => {
                return Err(e);
            },
        };
        if b <= B as u64 || b > 63 {
            return Err(LoadError::Inconsistent);
        }
        let b = b as usize;
        if !is_increasing(elements.as_slice()) {
            return Err(LoadError::Inconsistent);
        }
        proof {
            lemma2_to64();
            lemma_pow2_strictly_increases(b as nat, 64);
            lemma_u64_shl_is_mul(1, b as u64);
        }
        let n = elements.len();
        if n > 0 && elements[n - 1] >= 1u64 << (b as u64) {
            return Err(LoadError::Inconsistent);
        }
        proof {
            assert forall|i: int| 0 <= i < n implies elements@[i] < pow2(b as nat) by {
                if i < n - 1 {
                    assert(elements@[i] < elements@[n - 1]);
                }
            }
        }
        let x = NaiveSparse::new(b, elements.as_slice());
        proof {
            if naive_valid(b as nat, elements@, values_of(toc@)) {
                lemma_toc_unique(b as nat, elements@, values_of(toc@), x.spec_toc());
            }
        }
        if !same_toc(&x.toc, &toc) {
            return Err(LoadError::Inconsistent);
        }
        proof {
            x.lemma_valid();
        }
        Ok(Box::new(x))
    }
}

impl NaiveSparse {
    /// A set is valid exactly if its three parts are.
    pub proof fn lemma_valid(&self)
        ensures
            self.wf() == naive_valid(
                self.spec_b(),
                self.spec_elements(),
                values_of(self.spec_toc()),
            ),
    {
        let toc = values_of(self.spec_toc());
        if self.wf() {
            assert forall|v: int| 0 <= v <= 1024 implies #[trigger] toc[v] == count_below_top(
                self.spec_elements(),
                (self.spec_b() - B) as nat,
                v,
                self.spec_elements().len() as int,
            ) by {
                assert(toc[v] == self.spec_toc()[v]);
            }
        }
        if naive_valid(self.spec_b(), self.spec_elements(), toc) {
            assert forall|v: int| 0 <= v <= 1024 implies #[trigger] self.spec_toc()[v]
                == count_below_top(
                self.spec_elements(),
                (self.spec_b() - B) as nat,
                v,
                self.spec_elements().len() as int,
            ) by {
                assert(toc[v] == self.spec_toc()[v]);
            }
        }
    }

    /// Reading the bytes of a valid set succeeds and leaves what follows
    /// them; and a valid set whose bytes begin as those of another has the
    /// same parts.
    pub proof fn lemma_round_trip(&self, tail: Seq<u8>, back: &NaiveSparse, rest: Seq<u8>)
        requires
            self.wf(),
        ensures
            NaiveSparse::decoded(self.stored() + tail) == Ok::<Seq<u8>, LoadError>(tail),
            back.wf() && self.stored() + tail == back.stored() + rest ==> {
                &&& back.spec_b() == self.spec_b()
                &&& back.spec_elements() == self.spec_elements()
                &&& back.spec_toc() == self.spec_toc()
                &&& back.members() == self.members()
                &&& back.domain_size() == self.domain_size()
                &&& rest == tail
            },
    {
        self.lemma_parts(tail);
        self.lemma_valid();
        if back.wf() && self.stored() + tail == back.stored() + rest {
            back.lemma_parts(rest);
            assert forall|v: int| 0 <= v < self.spec_toc().len() implies back.spec_toc()[v]
                == self.spec_toc()[v] by {
                assert(values_of(back.spec_toc())[v] == values_of(self.spec_toc())[v]);
            }
            assert(values_of(back.spec_toc()).len() == values_of(self.spec_toc()).len());
            assert(back.spec_toc() =~= self.spec_toc());
        }
    }

    /// What the bytes of a valid set, with anything behind them, hold.
    proof fn lemma_parts(&self, tail: Seq<u8>)
        requires
            self.wf(),
        ensures
            ({
                let s = self.stored() + tail;
                &&& naive_frame(s) == Ok::<Seq<u8>, LoadError>(tail)
                &&& framed_width(s) == self.spec_b()
                &&& framed_elements(s) == self.spec_elements()
                &&& framed_toc(s) == values_of(self.spec_toc())
            }),
    {
        lemma_spans();
        let s = self.stored() + tail;
        let elements = values_of(self.spec_elements());
        let toc = values_of(self.spec_toc());
        let second = vec_bytes(toc, 8) + tail;
        let first = vec_bytes(elements, 8) + second;
        lemma_as_u64s(self.spec_elements());
        assert(self.spec_elements().len() == self.elements.len());
        lemma_joined(
            le_bytes(self.spec_b(), 8),
            vec_bytes(elements, 8),
            vec_bytes(toc, 8),
            tail,
            Seq::empty(),
        );
        assert(s == le_bytes(self.spec_b(), 8) + first);
        lemma_number_first(self.spec_b(), first);
        lemma_vec_round_trip(elements, 8, second);
        lemma_vec_round_trip(toc, 8, tail);
    }
}

} // verus!
