//! The Elias-Fano representation of a sparse set: the high part of every
//! element in unary in an indexed bitmap, the low part in a packed vector.

use crate::bitvec::bit_members;
use crate::bitvec::lemma_rank_of_bits;
use crate::bitvec::BitVec;
use crate::dense64::Dense64;
use crate::error::BuildError;
use crate::error::LoadError;
use crate::persist::le_bytes;
use crate::persist::le_value;
use crate::persist::lemma_joined;
use crate::persist::lemma_number_first;
use crate::persist::lemma_number_parsed;
use crate::persist::lemma_spans;
use crate::persist::load_u64;
use crate::persist::span;
use crate::persist::Persistent;
use crate::persist::Scalar;
use crate::persist::Source;
use crate::intvec::bucket_width;
use crate::intvec::IntVec;
use crate::model::increasing;
use crate::model::is_increasing;
use crate::model::lemma_increasing_from_steps;
use crate::model::lemma_rank_of_above;
use crate::model::lemma_rank_of_agree;
use crate::model::lemma_rank_of_bound;
use crate::model::lemma_rank_of_element;
use crate::model::lemma_rank_of_sorted;
use crate::model::lemma_rank_of_step;
use crate::model::lemma_select0_exists;
use crate::model::lemma_select0_unique;
use crate::model::lemma_select_exists;
use crate::model::lemma_select_unique;
use crate::model::rank0_of;
use crate::model::rank_of;
use crate::model::select0_of;
use crate::model::seq_members;
use crate::rank::Rank;
use crate::select::Select;
use crate::select::Select0;
use crate::set::ImpliedSet;
use vstd::arithmetic::div_mod::lemma_div_is_ordered;
use vstd::arithmetic::div_mod::lemma_fundamental_div_mod;
use vstd::arithmetic::div_mod::lemma_mod_bound;
use vstd::arithmetic::div_mod::lemma_multiply_divide_lt;
use vstd::arithmetic::power2::lemma2_to64;
use vstd::arithmetic::power2::lemma2_to64_rest;
use vstd::arithmetic::power2::lemma_pow2_adds;
use vstd::arithmetic::power2::lemma_pow2_pos;
use vstd::arithmetic::power2::lemma_pow2_strictly_increases;
use vstd::arithmetic::power2::lemma_pow2_unfold;
use vstd::arithmetic::power2::pow2;
use vstd::bits::lemma_u64_low_bits_mask_is_mod;
use vstd::bits::lemma_u64_shl_is_mul;
use vstd::bits::lemma_u64_shr_is_div;
use vstd::bits::low_bits_mask;
use vstd::prelude::*;

verus! {

/// The width of the low parts, searched downwards from `d`: the largest
/// width up to `d` at which `36 * n <= 25 * 2^(b - width)`, or 0.
pub open spec fn low_width_from(b: nat, n: nat, d: nat) -> nat
    decreases d,
{
    if d == 0 || 36 * n <= 25 * pow2((b - d) as nat) {
        d
    } else {
        low_width_from(b, n, (d - 1) as nat)
    }
}

/// The width of the low parts for `n` elements of `b` bits:
/// `floor(log2(2^b / (1.44 * n)))`, kept within `[0, b]`. In integers, it is
/// the largest `d <= b` with `36 * n * 2^d <= 25 * 2^b`, and 0 where there
/// is none.
pub open spec fn low_width(b: nat, n: nat) -> nat {
    low_width_from(b, n, b)
}

/// The high part of `x`: what is left of it above its `d` low bits.
pub open spec fn high_part(x: u64, d: nat) -> int {
    x as int / pow2(d) as int
}

/// The low part of `x`: its `d` low bits.
pub open spec fn low_part(x: u64, d: nat) -> int {
    x as int % pow2(d) as int
}

/// The positions at which a bit sequence holds a one-bit.
pub open spec fn true_positions(bits: Seq<bool>) -> Set<int> {
    Set::new(|p: int| 0 <= p < bits.len() && bits[p])
}

/// Whether the bit sequence holds the zero-bit of element `i` in its place,
/// behind `i` zero-bits and one more one-bit than the element's high part.
pub open spec fn zero_in_place(bits: Seq<bool>, xs: Seq<u64>, d: nat, i: int) -> bool {
    let h = high_part(xs[i], d);
    let z = i + h + 1;
    &&& z < bits.len()
    &&& !bits[z]
    &&& rank_of(true_positions(bits), z) == h + 1
}

/// What stands against building the sparse set of the `n` elements `xs`
/// over the domain of `b` bits, if anything does.
pub open spec fn sparse_obstacle(b: nat, n: nat, xs: Seq<u64>) -> Option<BuildError> {
    let top = pow2((b - low_width(b, n)) as nat);
    let bits = n + top + 1;
    if b > 63 {
        Some(BuildError::WidthTooLarge)
    } else if n != xs.len() {
        Some(BuildError::CountMismatch)
    } else if !increasing(xs) {
        Some(BuildError::NotIncreasing)
    } else if exists|i: int| 0 <= i < xs.len() && xs[i] >= pow2(b) {
        Some(BuildError::OutOfDomain)
    } else if top + 1 > u32::MAX || bits > usize::MAX || (bits + 63) / 64 > u32::MAX {
        Some(BuildError::IndexOverflow)
    } else {
        None
    }
}

/// The chosen width is the largest that leaves at least 1.44 high values
/// for each element, within `[0, b]`.
pub proof fn lemma_low_width(b: nat, n: nat, d: nat)
    requires
        d <= b,
    ensures
        low_width_from(b, n, d) <= d,
        low_width_from(b, n, d) == 0 || 36 * n <= 25 * pow2((b - low_width_from(b, n, d)) as nat),
        forall|e: nat|
            low_width_from(b, n, d) < e <= d ==> 36 * n > 25 * #[trigger] pow2((b - e) as nat),
    decreases d,
{
    if !(d == 0 || 36 * n <= 25 * pow2((b - d) as nat)) {
        lemma_low_width(b, n, (d - 1) as nat);
    }
}

/// Values compare by their high parts first and by their low parts second.
proof fn lemma_parts_order(h1: int, l1: int, h2: int, l2: int, p: int)
    by (nonlinear_arith)
    requires
        0 <= l1 < p,
        0 <= l2 < p,
    ensures
        h1 < h2 ==> h1 * p + l1 < h2 * p + l2,
        h1 == h2 ==> (h1 * p + l1 < h2 * p + l2 <==> l1 < l2),
{
}

/// A value is its high part times `2^d` plus its low part, and the parts
/// are in their ranges.
proof fn lemma_parts(x: u64, d: nat)
    ensures
        x == high_part(x, d) * pow2(d) + low_part(x, d),
        0 <= low_part(x, d) < pow2(d),
        0 <= high_part(x, d),
{
    let p = pow2(d) as int;
    lemma_pow2_pos(d);
    lemma_fundamental_div_mod(x as int, p);
    lemma_mod_bound(x as int, p);
    assert(high_part(x, d) * p == p * high_part(x, d)) by (nonlinear_arith);
    lemma_div_is_ordered(0, x as int, p);
}

/// The high part of a value of `b` bits is below `2^(b - d)`.
proof fn lemma_high_part_bound(x: u64, b: nat, d: nat)
    requires
        d <= b,
        x < pow2(b),
    ensures
        high_part(x, d) < pow2((b - d) as nat),
{
    lemma_pow2_pos(d);
    lemma_pow2_adds(d, (b - d) as nat);
    lemma_multiply_divide_lt(x as int, pow2(d) as int, pow2((b - d) as nat) as int);
}

/// Appending a bit leaves the ranks at the old positions as they were, and
/// counts the new bit at the new length.
proof fn lemma_push_bit(bits: Seq<bool>, v: bool)
    ensures
        forall|p: int|
            0 <= p <= bits.len() ==> #[trigger] rank_of(true_positions(bits.push(v)), p) == rank_of(
                true_positions(bits),
                p,
            ),
        rank_of(true_positions(bits.push(v)), bits.len() as int + 1) == rank_of(
            true_positions(bits),
            bits.len() as int,
        ) + if v { 1nat } else { 0nat },
{
    let s = true_positions(bits);
    let t = true_positions(bits.push(v));
    let n = bits.len() as int;
    assert forall|p: int| 0 <= p <= bits.len() implies #[trigger] rank_of(t, p) == rank_of(s, p) by {
        lemma_rank_of_agree(t, s, p);
    }
    assert(bits.push(v)[n] == v);
    assert(t.contains(n) == v);
    assert(rank_of(t, n) == rank_of(s, n));
    assert(rank_of(t, n + 1) == rank_of(t, n) + if t.contains(n) { 1nat } else { 0nat });
}

/// Appending a bit keeps the zero-bits of the elements in their places.
proof fn lemma_push_keeps_zeros(bits: Seq<bool>, v: bool, xs: Seq<u64>, d: nat, k: int)
    requires
        forall|i: int| 0 <= i < k ==> zero_in_place(bits, xs, d, i),
    ensures
        forall|i: int| 0 <= i < k ==> zero_in_place(bits.push(v), xs, d, i),
{
    lemma_push_bit(bits, v);
    assert forall|i: int| 0 <= i < k implies zero_in_place(bits.push(v), xs, d, i) by {
        assert(zero_in_place(bits, xs, d, i));
    }
}

/// Of a non-member `z` and a member `o`, the one that is below the other
/// has both fewer non-members and no more members below it.
pub proof fn lemma_zero_before_one(s: Set<int>, z: int, o: int)
    requires
        0 <= z,
        0 <= o,
        !s.contains(z),
        s.contains(o),
    ensures
        rank0_of(s, z) < rank0_of(s, o) <==> rank_of(s, z) <= rank_of(s, o),
        rank0_of(s, z) < rank0_of(s, o) <==> z < o,
{
    if z < o {
        lemma_rank_of_step(s, z + 1, o);
    } else {
        lemma_rank_of_step(s, o + 1, z);
    }
}

/// The width of the low parts for `n` elements of `b` bits.
fn choose_low_width(b: usize, n: usize) -> (d: usize)
    requires
        b <= 63,
    ensures
        d == low_width(b as nat, n as nat),
        d <= b,
{
    let need: u128 = 36 * (n as u128);
    let mut d = b;
    let mut cap: u128 = 25;
    proof {
        lemma2_to64();
    }
    while d > 0 && need > cap
        invariant
            d <= b <= 63,
            need == 36 * n,
            cap == 25 * pow2((b - d) as nat),
            low_width_from(b as nat, n as nat, d as nat) == low_width(b as nat, n as nat),
        decreases d,
    {
        proof {
            lemma2_to64();
            lemma_pow2_strictly_increases((b - d) as nat, 64);
            lemma_pow2_unfold((b - d + 1) as nat);
        }
        d -= 1;
        cap = cap * 2;
    }
    proof {
        lemma_low_width(b as nat, n as nat, d as nat);
    }
    d
}

/// The value with the high part `hi` and the low part `lo` of `d` bits.
fn join(hi: u64, lo: u64, d: u64) -> (r: u64)
    requires
        d < 64,
        lo < pow2(d as nat),
        hi * pow2(d as nat) + lo <= u64::MAX,
    ensures
        r == hi * pow2(d as nat) + lo,
{
    proof {
        lemma2_to64();
        lemma_pow2_pos(d as nat);
        lemma_pow2_strictly_increases(d as nat, 64);
        lemma_u64_shl_is_mul(hi, d);
        lemma_u64_shl_is_mul(1, d);
        let a = hi << d;
        assert(a | lo == a + lo) by (bit_vector)
            requires
                a == hi << d,
                lo < (1u64 << d),
                d < 64,
        ;
    }
    (hi << d) | lo
}

/// A set of integers of `b` bits in the Elias-Fano representation.
///
/// Each element is split at bit `d`. The high parts are written in unary
/// into `hi`: one zero-bit for every element, in order, with one one-bit
/// before the first of them and one more for every step from one high value
/// to the next, up to `2^(b - d)`. The low parts stand in `lo`, in the
/// order of the elements.
pub struct Sparse {
    b: usize,
    n: usize,
    d: usize,
    hi: Dense64,
    lo: IntVec,
}

impl Sparse {
    /// The width of the domain in bits.
    pub closed spec fn spec_b(&self) -> nat {
        self.b as nat
    }

    /// The number of elements.
    pub closed spec fn spec_n(&self) -> nat {
        self.n as nat
    }

    /// The width of the low parts in bits.
    pub closed spec fn spec_d(&self) -> nat {
        self.d as nat
    }

    /// The bitmap of the high parts.
    pub closed spec fn spec_hi(&self) -> Dense64 {
        self.hi
    }

    /// The vector of the low parts.
    pub closed spec fn spec_lo(&self) -> IntVec {
        self.lo
    }

    /// The number of different high parts: `2^(b - d)`.
    pub open spec fn high_count(&self) -> nat {
        pow2((self.spec_b() - self.spec_d()) as nat)
    }

    /// Whether the parts have the sizes that the widths and the count call
    /// for: `hi` holds a zero-bit for every element and `2^(b - d) + 1`
    /// one-bits, and `lo` a low part for every element.
    pub open spec fn sized(&self) -> bool {
        &&& self.spec_d() <= self.spec_b() <= 63
        &&& self.spec_hi().wf()
        &&& self.spec_hi().domain_size() == self.spec_n() + self.high_count() + 1
        &&& rank_of(self.spec_hi().members(), self.spec_hi().domain_size() as int)
            == self.high_count() + 1
        &&& self.spec_lo().wf()
        &&& self.spec_lo()@.len() == self.spec_n()
    }

    /// The high part of element `i`: the number of one-bits before the
    /// `i`-th zero-bit of `hi`, less one.
    pub open spec fn high_of(&self, i: int) -> int {
        select0_of(self.spec_hi().members(), i as nat) - i - 1
    }

    /// Element `i`, put together from its two parts.
    pub open spec fn element(&self, i: int) -> int {
        self.high_of(i) * pow2(self.spec_d()) + self.spec_lo()@[i]
    }

    /// The elements, in increasing order.
    pub open spec fn elements(&self) -> Seq<u64> {
        Seq::new(self.spec_n(), |i: int| self.element(i) as u64)
    }

    /// The width of the domain in bits.
    pub fn b(&self) -> (r: usize)
        ensures
            r == self.spec_b(),
    {
        self.b
    }

    /// The number of elements.
    pub fn n(&self) -> (r: usize)
        ensures
            r == self.spec_n(),
    {
        self.n
    }

    /// The width of the low parts in bits.
    pub fn d(&self) -> (r: usize)
        ensures
            r == self.spec_d(),
    {
        self.d
    }

    /// The bitmap of the high parts.
    pub fn hi(&self) -> (r: &Dense64)
        ensures
            *r == self.spec_hi(),
    {
        &self.hi
    }

    /// The vector of the low parts.
    pub fn lo(&self) -> (r: &IntVec)
        ensures
            *r == self.spec_lo(),
    {
        &self.lo
    }

    /// Build the set of the `n` elements given, which are below `2^b` and
    /// in strictly increasing order.
    pub fn new(b: usize, n: usize, elements: &[u64]) -> (r: Result<Sparse, BuildError>)
        ensures
            match r {
                Ok(s) => {
                    &&& sparse_obstacle(b as nat, n as nat, elements@) is None
                    &&& s.wf()
                    &&& s.elements() == elements@
                    &&& s.members() == seq_members(elements@)
                    &&& s.spec_b() == b
                    &&& s.spec_n() == n
                    &&& s.spec_d() == low_width(b as nat, n as nat)
                    &&& s.spec_hi().domain_size() == n + s.high_count() + 1
                    &&& rank_of(s.spec_hi().members(), s.spec_hi().domain_size() as int)
                        == s.high_count() + 1
                    &&& s.spec_hi().spec_words().len() == (n + s.high_count() + 1 + 63) / 64
                    &&& s.spec_lo()@.len() == n
                    &&& s.spec_lo().bits() == s.spec_d()
                    &&& s.spec_lo().width() == bucket_width(s.spec_d())
                },
                Err(e) => sparse_obstacle(b as nat, n as nat, elements@) == Some(e),
            },
    {
        if b > 63 {
            return Err(BuildError::WidthTooLarge);
        }
        if n != elements.len() {
            return Err(BuildError::CountMismatch);
        }
        if !is_increasing(elements) {
            return Err(BuildError::NotIncreasing);
        }
        proof {
            lemma2_to64();
            lemma_pow2_strictly_increases(b as nat, 64);
            lemma_u64_shl_is_mul(1, b as u64);
        }
        if n > 0 && elements[n - 1] >= 1u64 << (b as u64) {
            return Err(BuildError::OutOfDomain);
        }
        proof {
            assert forall|i: int| 0 <= i < n implies elements@[i] < pow2(b as nat) by {
                if i < n - 1 {
                    assert(elements@[i] < elements@[n - 1]);
                }
            }
        }
        let d = choose_low_width(b, n);
        proof {
            lemma_pow2_strictly_increases((b - d) as nat, 64);
            lemma_pow2_strictly_increases(d as nat, 64);
            lemma_pow2_pos(d as nat);
            lemma_pow2_pos((b - d) as nat);
            lemma_u64_shl_is_mul(1, (b - d) as u64);
            lemma_u64_shl_is_mul(1, d as u64);
        }
        let j = 1u64 << ((b - d) as u64);
        let bits: u128 = n as u128 + j as u128 + 1;
        if j > u32::MAX as u64 - 1 || bits > usize::MAX as u128 || (bits + 63) / 64
            > u32::MAX as u128 {
            return Err(BuildError::IndexOverflow);
        }
        let (hi_bits, low_bits) = unary_highs(b, d, elements);
        proof {
            let words = hi_bits.spec_words();
            let size = hi_bits@.len() as int;
            assert(bit_members(words, size) =~= true_positions(hi_bits@));
            lemma_rank_of_bits(words, size, words.len() as int, 0);
            lemma_rank_of_above(bit_members(words, size), size, 64 * (words.len() as int));
        }
        match Dense64::new(hi_bits.len() as u64, hi_bits.as_words()) {
            Ok(hi) => {
                let s = Sparse { b, n, d, hi, lo: low_bits };
                proof {
                    assert(s.spec_hi().members() =~= true_positions(hi_bits@));
                    s.lemma_encoded(hi_bits@, elements@);
                }
                Ok(s)
            },
            Err(e) => Err(e),
        }
    }

    /// A structure whose bitmap holds the zero-bit of every element in its
    /// place, and whose low parts are those of the elements, is valid and
    /// stands for the elements.
    proof fn lemma_encoded(&self, bits: Seq<bool>, xs: Seq<u64>)
        requires
            self.spec_d() <= self.spec_b() <= 63,
            self.spec_n() == xs.len(),
            increasing(xs),
            forall|i: int| 0 <= i < xs.len() ==> xs[i] < pow2(self.spec_b()),
            self.spec_hi().wf(),
            self.spec_hi().members() == true_positions(bits),
            self.spec_hi().domain_size() == bits.len(),
            bits.len() == xs.len() + self.high_count() + 1,
            rank_of(true_positions(bits), bits.len() as int) == self.high_count() + 1,
            forall|i: int| 0 <= i < xs.len() ==> zero_in_place(bits, xs, self.spec_d(), i),
            self.spec_lo().wf(),
            self.spec_lo()@.len() == xs.len(),
            forall|i: int|
                0 <= i < xs.len() ==> #[trigger] self.spec_lo()@[i] == low_part(xs[i], self.spec_d()),
        ensures
            self.wf(),
            self.elements() == xs,
    {
        let d = self.spec_d();
        let ones = self.spec_hi().members();
        assert forall|i: int| 0 <= i < xs.len() implies self.element(i) == xs[i] && 0
            <= #[trigger] self.high_of(i) < self.high_count() && self.spec_lo()@[i] < pow2(d) by {
            assert(zero_in_place(bits, xs, d, i));
            let h = high_part(xs[i], d);
            let z = i + h + 1;
            lemma_parts(xs[i], d);
            lemma_high_part_bound(xs[i], self.spec_b(), d);
            let q = lemma_select0_exists(ones, bits.len() as int, i as nat);
            lemma_select0_unique(ones, z, q);
        }
        assert(self.elements() =~= xs);
    }
}

/// The unary code of the high parts of the elements and the vector of their
/// low parts, for low parts of `d` bits.
fn unary_highs(b: usize, d: usize, elements: &[u64]) -> (r: (BitVec, IntVec))
    requires
        d <= b <= 63,
        increasing(elements@),
        forall|i: int| 0 <= i < elements@.len() ==> elements@[i] < pow2(b as nat),
        elements@.len() + pow2((b - d) as nat) + 1 <= usize::MAX,
    ensures
        r.0.wf(),
        r.0@.len() == elements@.len() + pow2((b - d) as nat) + 1,
        rank_of(true_positions(r.0@), r.0@.len() as int) == pow2((b - d) as nat) + 1,
        forall|i: int| 0 <= i < elements@.len() ==> zero_in_place(r.0@, elements@, d as nat, i),
        r.1.wf(),
        r.1.bits() == d,
        r.1.width() == bucket_width(d as nat),
        r.1@.len() == elements@.len(),
        forall|i: int|
            0 <= i < elements@.len() ==> #[trigger] r.1@[i] == low_part(elements@[i], d as nat),
{
    let n = elements.len();
    proof {
        lemma2_to64();
        lemma_pow2_strictly_increases((b - d) as nat, 64);
        lemma_pow2_strictly_increases(d as nat, 64);
        lemma_pow2_pos(d as nat);
        lemma_pow2_pos((b - d) as nat);
        lemma_u64_shl_is_mul(1, (b - d) as u64);
        lemma_u64_shl_is_mul(1, d as u64);
    }
    let j = 1u64 << ((b - d) as u64);
    let m = (1u64 << (d as u64)) - 1;
    let mut hi_cursor: u64 = 0;
    let mut hi_bits = BitVec::new();
    let mut low_bits = IntVec::new(d);
    let mut k: usize = 0;
    while k < n
        invariant
            k <= n,
            n == elements@.len(),
            d <= b <= 63,
            increasing(elements@),
            forall|i: int| 0 <= i < n ==> elements@[i] < pow2(b as nat),
            m == low_bits_mask(d as nat),
            j == pow2((b - d) as nat),
            n + j + 1 <= usize::MAX,
            hi_bits.wf(),
            low_bits.wf(),
            low_bits.bits() == d,
            low_bits.width() == bucket_width(d as nat),
            low_bits@.len() == k,
            forall|i: int| 0 <= i < k ==> #[trigger] low_bits@[i] == low_part(elements@[i], d as nat),
            hi_bits@.len() == k + hi_cursor,
            hi_cursor <= j,
            k == 0 ==> hi_cursor == 0,
            k > 0 ==> hi_cursor == high_part(elements@[k - 1], d as nat) + 1,
            rank_of(true_positions(hi_bits@), hi_bits@.len() as int) == hi_cursor,
            forall|i: int| 0 <= i < k ==> zero_in_place(hi_bits@, elements@, d as nat, i),
        decreases n - k,
    {
        let x = elements[k];
        let hi = x >> (d as u64);
        let lo = x & m;
        proof {
            lemma2_to64();
            lemma_pow2_pos(d as nat);
            lemma_pow2_strictly_increases(d as nat, 64);
            lemma_u64_shr_is_div(x, d as u64);
            lemma_u64_low_bits_mask_is_mod(x, d as nat);
            lemma_high_part_bound(x, b as nat, d as nat);
            lemma_parts(x, d as nat);
            assert(hi == high_part(x, d as nat));
            assert(lo == low_part(x, d as nat));
            if k > 0 {
                assert(elements@[k - 1] < elements@[k as int]);
                lemma_div_is_ordered(elements@[k - 1] as int, x as int, pow2(d as nat) as int);
            }
        }
        while hi_cursor <= hi
            invariant
                hi_cursor <= hi + 1,
                hi < j,
                k < n,
                n + j + 1 <= usize::MAX,
                hi_bits.wf(),
                hi_bits@.len() == k + hi_cursor,
                rank_of(true_positions(hi_bits@), hi_bits@.len() as int) == hi_cursor,
                forall|i: int| 0 <= i < k ==> zero_in_place(hi_bits@, elements@, d as nat, i),
            decreases hi + 1 - hi_cursor,
        {
            proof {
                lemma_push_bit(hi_bits@, true);
                lemma_push_keeps_zeros(hi_bits@, true, elements@, d as nat, k as int);
            }
            hi_bits.push(true);
            hi_cursor += 1;
        }
        proof {
            lemma_push_bit(hi_bits@, false);
            lemma_push_keeps_zeros(hi_bits@, false, elements@, d as nat, k as int);
        }
        hi_bits.push(false);
        low_bits.push(lo);
        k += 1;
    }
    while hi_cursor < j
        invariant
            hi_cursor <= j,
            n + j + 1 <= usize::MAX,
            hi_bits.wf(),
            hi_bits@.len() == n + hi_cursor,
            rank_of(true_positions(hi_bits@), hi_bits@.len() as int) == hi_cursor,
            forall|i: int| 0 <= i < n ==> zero_in_place(hi_bits@, elements@, d as nat, i),
        decreases j - hi_cursor,
    {
        proof {
            lemma_push_bit(hi_bits@, true);
            lemma_push_keeps_zeros(hi_bits@, true, elements@, d as nat, n as int);
        }
        hi_bits.push(true);
        hi_cursor += 1;
    }
    proof {
        lemma_push_bit(hi_bits@, true);
        lemma_push_keeps_zeros(hi_bits@, true, elements@, d as nat, n as int);
    }
    hi_bits.push(true);
    (hi_bits, low_bits)
}

impl ImpliedSet for Sparse {
    /// The parts have the sizes that the widths call for, every part is in
    /// its range, and the elements are in strictly increasing order.
    open spec fn wf(&self) -> bool {
        &&& self.sized()
        &&& forall|i: int|
            0 <= i < self.spec_n() ==> #[trigger] self.spec_lo()@[i] < pow2(self.spec_d())
        &&& forall|i: int| 0 <= i < self.spec_n() ==> 0 <= #[trigger] self.high_of(i) < self.high_count()
        &&& increasing(self.elements())
    }

    /// The elements.
    open spec fn members(&self) -> Set<int> {
        seq_members(self.elements())
    }

    open spec fn domain_size(&self) -> nat {
        pow2(self.spec_b())
    }

    proof fn lemma_members_in_domain(&self) {
        assert forall|v: int| self.members().contains(v) implies 0 <= v < self.domain_size() by {
            let i = choose|i: int| 0 <= i < self.elements().len() && self.elements()[i] == v;
            self.lemma_element_bounds(i);
        }
    }

    fn count(&self) -> (r: usize) {
        proof {
            self.lemma_rank_at_end(self.domain_size() as int);
        }
        self.n
    }

    fn size(&self) -> (r: u64) {
        proof {
            lemma2_to64();
            lemma_pow2_strictly_increases(self.b as nat, 64);
            lemma_u64_shl_is_mul(1, self.b as u64);
        }
        1u64 << (self.b as u64)
    }
}

impl Sparse {
    /// Every element is what its parts say, and lies in the domain.
    pub proof fn lemma_element_bounds(&self, i: int)
        requires
            self.wf(),
            0 <= i < self.spec_n(),
        ensures
            0 <= self.element(i) < pow2(self.spec_b()),
            self.elements()[i] == self.element(i),
    {
        let d = self.spec_d();
        let b = self.spec_b();
        let h = self.high_of(i);
        let l = self.spec_lo()@[i] as int;
        let p = pow2(d) as int;
        let q = pow2((b - d) as nat) as int;
        lemma_pow2_adds(d, (b - d) as nat);
        lemma_pow2_strictly_increases(b, 64);
        lemma2_to64();
        assert(0 <= h * p + l < q * p) by (nonlinear_arith)
            requires
                0 <= h < q,
                0 <= l < p,
        ;
        assert(p * q == q * p) by (nonlinear_arith);
    }

    /// All the elements are below the end of the domain and anything above.
    pub proof fn lemma_rank_at_end(&self, v: int)
        requires
            self.wf(),
            v >= self.domain_size(),
        ensures
            rank_of(self.members(), v) == self.spec_n(),
    {
        let xs = self.elements();
        assert forall|j: int| 0 <= j < xs.len() implies xs[j] < v by {
            self.lemma_element_bounds(j);
        }
        lemma_rank_of_sorted(xs, v, xs.len() as int);
    }

    /// The one-bits of `hi` before the zero-bit of element `j` are one more
    /// than its high part, and the zero-bit is where select over the
    /// zero-bits finds it.
    pub proof fn lemma_zero_of(&self, j: int) -> (z: int)
        requires
            self.wf(),
            0 <= j < self.spec_n(),
        ensures
            z == select0_of(self.spec_hi().members(), j as nat),
            0 <= z < self.spec_hi().domain_size(),
            !self.spec_hi().members().contains(z),
            rank0_of(self.spec_hi().members(), z) == j,
            rank_of(self.spec_hi().members(), z) == self.high_of(j) + 1,
    {
        lemma_select0_exists(
            self.spec_hi().members(),
            self.spec_hi().domain_size() as int,
            j as nat,
        )
    }

    /// The elements whose high part is below `h` are those before the index
    /// `o - h`, where `o` is the position of the one-bit of `hi` that has
    /// `h` one-bits before it.
    pub proof fn lemma_bucket_start(&self, h: int, o: int)
        requires
            self.wf(),
            0 <= o,
            self.spec_hi().members().contains(o),
            rank_of(self.spec_hi().members(), o) == h,
        ensures
            0 <= o - h <= self.spec_n(),
            forall|j: int| 0 <= j < self.spec_n() ==> (j < o - h <==> #[trigger] self.high_of(j) < h),
    {
        let ones = self.spec_hi().members();
        let size = self.spec_hi().domain_size() as int;
        self.spec_hi().lemma_members_in_domain();
        lemma_rank_of_bound(ones, o);
        lemma_rank_of_step(ones, o, size);
        assert forall|j: int| 0 <= j < self.spec_n() implies (j < o - h <==> #[trigger] self.high_of(
            j,
        ) < h) by {
            let z = self.lemma_zero_of(j);
            lemma_zero_before_one(ones, z, o);
        }
    }

    /// The rank of `v` is the index at which a scan of the low parts of its
    /// bucket stops: the first whose low part is not below that of `v`.
    pub proof fn lemma_rank_in_bucket(&self, v: u64, r0: int, r1: int, r: int)
        requires
            self.wf(),
            v < pow2(self.spec_b()),
            0 <= r0 <= r <= r1 <= self.spec_n(),
            forall|j: int|
                0 <= j < self.spec_n() ==> (j < r0 <==> #[trigger] self.high_of(j) < high_part(
                    v,
                    self.spec_d(),
                )),
            forall|j: int|
                0 <= j < self.spec_n() ==> (j < r1 <==> #[trigger] self.high_of(j) < high_part(
                    v,
                    self.spec_d(),
                ) + 1),
            forall|j: int| r0 <= j < r ==> #[trigger] self.spec_lo()@[j] < low_part(v, self.spec_d()),
            r < r1 ==> self.spec_lo()@[r] >= low_part(v, self.spec_d()),
        ensures
            rank_of(self.members(), v as int) == r,
    {
        let xs = self.elements();
        let d = self.spec_d();
        let p = pow2(d) as int;
        let h = high_part(v, d);
        let l = low_part(v, d);
        lemma_parts(v, d);
        assert forall|j: int| 0 <= j < xs.len() implies (j < r <==> xs[j] < v) by {
            self.lemma_element_bounds(j);
            let hj = self.high_of(j);
            let lj = self.spec_lo()@[j] as int;
            lemma_parts_order(hj, lj, h, l, p);
            lemma_parts_order(h, l, hj, lj, p);
            if r0 <= j < r1 {
                if j >= r && r < r1 {
                    self.lemma_element_bounds(r);
                    let lr = self.spec_lo()@[r] as int;
                    lemma_parts_order(h, l, self.high_of(r), lr, p);
                    lemma_parts_order(self.high_of(r), lr, h, l, p);
                    if r < j {
                        assert(xs[r] < xs[j]);
                    }
                }
            }
        }
        lemma_rank_of_sorted(xs, v as int, r);
    }
}

impl Sparse {
    /// The first index from `r` on, within the bucket that ends at `r1`,
    /// whose low part is not below `lo`.
    fn scan_bucket(&self, r: usize, r1: usize, lo: u64) -> (stop: usize)
        requires
            self.wf(),
            r <= r1 <= self.spec_n(),
        ensures
            r <= stop <= r1,
            forall|j: int| r <= j < stop ==> #[trigger] self.spec_lo()@[j] < lo,
            stop < r1 ==> self.spec_lo()@[stop as int] >= lo,
    {
        let mut stop = r;
        while stop < r1 && self.lo.get(stop) < lo
            invariant
                self.wf(),
                r <= stop <= r1 <= self.spec_n(),
                forall|j: int| r <= j < stop ==> #[trigger] self.spec_lo()@[j] < lo,
            decreases r1 - stop,
        {
            stop += 1;
        }
        stop
    }

    /// The bucket of the high part `hi`: the indexes of the first element
    /// with this high part and of the first one with a larger high part.
    fn bucket(&self, hi: usize) -> (r: (usize, usize))
        requires
            self.wf(),
            hi < self.high_count(),
        ensures
            0 <= r.0 <= r.1 <= self.spec_n(),
            forall|j: int| 0 <= j < self.spec_n() ==> (j < r.0 <==> #[trigger] self.high_of(j) < hi),
            forall|j: int|
                0 <= j < self.spec_n() ==> (j < r.1 <==> #[trigger] self.high_of(j) < hi + 1),
    {
        proof {
            self.spec_hi().lemma_count();
        }
        let o0 = self.hi.select(hi);
        let o1 = self.hi.select(hi + 1);
        proof {
            self.lemma_bucket_start(hi as int, o0 as int);
            self.lemma_bucket_start(hi + 1, o1 as int);
            if o1 <= o0 {
                lemma_rank_of_step(self.spec_hi().members(), o1 as int, o0 as int);
            }
            lemma_rank_of_step(self.spec_hi().members(), o0 as int, o1 as int);
        }
        let r0 = (o0 - hi as u64) as usize;
        let r1 = (o1 - (hi as u64 + 1)) as usize;
        (r0, r1)
    }

    /// The two parts of a value of the domain, as the machine computes them.
    fn split(&self, value: u64) -> (r: (usize, u64))
        requires
            self.wf(),
            value < pow2(self.spec_b()),
        ensures
            r.0 == high_part(value, self.spec_d()),
            r.1 == low_part(value, self.spec_d()),
            r.0 < self.high_count(),
    {
        proof {
            lemma2_to64();
            lemma_pow2_pos(self.spec_d());
            lemma_pow2_strictly_increases(self.spec_d(), 64);
            lemma_u64_shl_is_mul(1, self.d as u64);
            lemma_u64_shr_is_div(value, self.d as u64);
            lemma_u64_low_bits_mask_is_mod(value, self.spec_d());
            lemma_high_part_bound(value, self.spec_b(), self.spec_d());
            self.spec_hi().lemma_count();
        }
        let hi = (value >> (self.d as u64)) as usize;
        let lo = value & ((1u64 << (self.d as u64)) - 1);
        (hi, lo)
    }
}

impl Rank for Sparse {
    fn rank(&self, value: u64) -> (r: usize) {
        if value >= self.size() {
            proof {
                self.lemma_rank_at_end(value as int);
                self.lemma_rank_at_end(self.domain_size() as int);
            }
            return self.count();
        }
        let (hi, lo) = self.split(value);
        let (r0, r1) = self.bucket(hi);
        let r = self.scan_bucket(r0, r1, lo);
        proof {
            self.lemma_rank_in_bucket(value, r0 as int, r1 as int, r as int);
        }
        r
    }

    fn rank_2(&self, value_1: u64, value_2: u64) -> (r: (usize, usize)) {
        if value_2 >= self.size() {
            return (self.rank(value_1), self.rank(value_2));
        }
        let (hi_1, lo_1) = self.split(value_1);
        let (hi_2, lo_2) = self.split(value_2);
        if hi_1 != hi_2 {
            return (self.rank(value_1), self.rank(value_2));
        }
        let (r0, r1) = self.bucket(hi_1);
        let r_a = self.scan_bucket(r0, r1, lo_1);
        let r_b = self.scan_bucket(r_a, r1, lo_2);
        proof {
            lemma_parts(value_1, self.spec_d());
            lemma_parts(value_2, self.spec_d());
            self.lemma_rank_in_bucket(value_1, r0 as int, r1 as int, r_a as int);
            self.lemma_rank_in_bucket(value_2, r0 as int, r1 as int, r_b as int);
        }
        (r_a, r_b)
    }
}

impl Select for Sparse {
    fn select(&self, index: usize) -> (r: u64) {
        proof {
            self.lemma_rank_at_end(self.domain_size() as int);
            self.lemma_zero_of(index as int);
            self.lemma_element_bounds(index as int);
        }
        let z = self.hi.select_0(index);
        let hi = self.hi.rank(z) as u64 - 1;
        let lo = self.lo.get(index);
        proof {
            lemma2_to64();
            lemma_pow2_strictly_increases(self.spec_b(), 64);
        }
        let r = join(hi, lo, self.d as u64);
        proof {
            let xs = self.elements();
            assert(r == xs[index as int]);
            lemma_rank_of_element(xs, index as int);
            let q = lemma_select_exists(self.members(), self.domain_size() as int, index as nat);
            lemma_select_unique(self.members(), r as int, q);
        }
        r
    }
}

impl Select0 for Sparse {

}

impl Sparse {
    /// A structure with the parts of a valid one is valid, and stands for
    /// the same elements.
    pub proof fn lemma_same_parts(&self, other: &Sparse)
        requires
            self.wf(),
            other.spec_b() == self.spec_b(),
            other.spec_n() == self.spec_n(),
            other.spec_d() == self.spec_d(),
            other.spec_hi().wf(),
            other.spec_hi().members() == self.spec_hi().members(),
            other.spec_hi().domain_size() == self.spec_hi().domain_size(),
            other.spec_lo().wf(),
            other.spec_lo()@ == self.spec_lo()@,
        ensures
            other.wf(),
            other.elements() == self.elements(),
            other.members() == self.members(),
            other.domain_size() == self.domain_size(),
    {
        assert forall|i: int| 0 <= i < self.spec_n() implies other.high_of(i) == self.high_of(i)
            && other.element(i) == self.element(i) by {}
        assert(other.elements() =~= self.elements());
        assert forall|i: int| 0 <= i < other.spec_n() implies 0 <= #[trigger] other.high_of(i)
            < other.high_count() by {
            assert(0 <= self.high_of(i) < self.high_count());
        }
    }

    /// Whether the two parts of element `i` are in their ranges.
    pub open spec fn in_range(&self, i: int) -> bool {
        &&& self.spec_lo()@[i] < pow2(self.spec_d())
        &&& 0 <= self.high_of(i) < self.high_count()
    }

    /// Whether the sizes of the parts are those that the widths and the
    /// count call for.
    fn is_sized(&self) -> (r: bool)
        requires
            self.spec_hi().wf(),
            self.spec_lo().wf(),
        ensures
            r == self.sized(),
    {
        if self.b > 63 || self.d > self.b {
            return false;
        }
        proof {
            lemma2_to64();
            lemma_pow2_pos((self.b - self.d) as nat);
            lemma_pow2_strictly_increases((self.b - self.d) as nat, 64);
            lemma_u64_shl_is_mul(1, (self.b - self.d) as u64);
            self.spec_hi().lemma_count();
        }
        let top: u64 = 1u64 << ((self.b - self.d) as u64);
        let size = self.hi.size();
        let count = self.hi.count();
        if size as u128 != self.n as u128 + top as u128 + 1 {
            return false;
        }
        if count as u64 != top + 1 {
            return false;
        }
        self.lo.len() == self.n
    }

    /// Element `i`, where its two parts are in their ranges.
    fn element_at(&self, i: usize) -> (r: Option<u64>)
        requires
            self.sized(),
            i < self.spec_n(),
        ensures
            match r {
                Some(x) => self.in_range(i as int) && x == self.element(i as int),
                None => !self.in_range(i as int),
            },
    {
        proof {
            lemma2_to64();
            lemma_pow2_pos((self.b - self.d) as nat);
            lemma_pow2_pos(self.d as nat);
            lemma_pow2_strictly_increases((self.b - self.d) as nat, 64);
            lemma_pow2_strictly_increases(self.d as nat, 64);
            lemma_pow2_strictly_increases(self.b as nat, 64);
            lemma_pow2_adds(self.spec_d(), (self.spec_b() - self.spec_d()) as nat);
            lemma_u64_shl_is_mul(1, (self.b - self.d) as u64);
            lemma_u64_shl_is_mul(1, self.d as u64);
            self.spec_hi().lemma_count();
        }
        let top: u64 = 1u64 << ((self.b - self.d) as u64);
        let limit: u64 = 1u64 << (self.d as u64);
        let l = self.lo.get(i);
        if l >= limit {
            return None;
        }
        let z = self.hi.select_0(i);
        let rk = self.hi.rank(z);
        if rk == 0 || rk as u64 > top {
            return None;
        }
        let h = rk as u64 - 1;
        proof {
            let p = pow2(self.spec_d()) as int;
            let q = top as int;
            assert(0 <= h * p + l < q * p) by (nonlinear_arith)
                requires
                    0 <= h < q,
                    0 <= l < p,
            ;
            assert(p * q == q * p) by (nonlinear_arith);
        }
        Some(join(h, l, self.d as u64))
    }

    /// A structure is valid where its parts have the sizes called for,
    /// every element has its parts in their ranges, and each element is
    /// above the one before.
    proof fn lemma_valid(&self)
        requires
            self.sized(),
        ensures
            self.wf() <==> {
                &&& forall|j: int| 0 <= j < self.spec_n() ==> #[trigger] self.in_range(j)
                &&& forall|j: int|
                    0 < j < self.spec_n() ==> self.element(j - 1) < #[trigger] self.element(j)
            },
    {
        let xs = self.elements();
        if self.wf() {
            assert forall|j: int| 0 <= j < self.spec_n() implies #[trigger] self.in_range(j) by {
                assert(self.spec_lo()@[j] < pow2(self.spec_d()));
                assert(0 <= self.high_of(j) < self.high_count());
            }
            assert forall|j: int| 0 < j < self.spec_n() implies self.element(j - 1)
                < #[trigger] self.element(j) by {
                self.lemma_element_bounds(j - 1);
                self.lemma_element_bounds(j);
                assert(xs[j - 1] < xs[j]);
            }
        }
        if (forall|j: int| 0 <= j < self.spec_n() ==> #[trigger] self.in_range(j)) && (forall|j: int|
            0 < j < self.spec_n() ==> self.element(j - 1) < #[trigger] self.element(j)) {
            assert forall|j: int| 0 <= j < self.spec_n() implies #[trigger] self.spec_lo()@[j]
                < pow2(self.spec_d()) by {
                assert(self.in_range(j));
            }
            assert forall|j: int| 0 <= j < self.spec_n() implies 0 <= #[trigger] self.high_of(j)
                < self.high_count() by {
                assert(self.in_range(j));
            }
            assert forall|j: int| 0 < j < xs.len() implies xs[j - 1] < #[trigger] xs[j] by {
                assert(self.element(j - 1) < self.element(j));
                self.lemma_cast(j - 1);
                self.lemma_cast(j);
            }
            lemma_increasing_from_steps(xs);
        }
    }

    /// An element whose parts are in their ranges is a number of 64 bits.
    proof fn lemma_cast(&self, i: int)
        requires
            self.spec_d() <= self.spec_b() <= 63,
            0 <= i < self.spec_n(),
            self.in_range(i),
        ensures
            0 <= self.element(i) < pow2(self.spec_b()),
            self.elements()[i] == self.element(i),
    {
        let d = self.spec_d();
        let b = self.spec_b();
        let h = self.high_of(i);
        let l = self.spec_lo()@[i] as int;
        let p = pow2(d) as int;
        let q = pow2((b - d) as nat) as int;
        lemma_pow2_adds(d, (b - d) as nat);
        lemma_pow2_strictly_increases(b, 64);
        lemma2_to64();
        assert(0 <= h * p + l < q * p) by (nonlinear_arith)
            requires
                0 <= h < q,
                0 <= l < p,
        ;
        assert(p * q == q * p) by (nonlinear_arith);
    }

    /// Whether the parts make up a valid structure.
    pub fn is_valid(&self) -> (r: bool)
        requires
            self.spec_hi().wf(),
            self.spec_lo().wf(),
        ensures
            r == self.wf(),
    {
        if !self.is_sized() {
            return false;
        }
        proof {
            self.lemma_valid();
        }
        let mut prev: u64 = 0;
        let mut i: usize = 0;
        while i < self.n
            invariant
                i <= self.spec_n(),
                self.sized(),
                forall|j: int| 0 <= j < i ==> #[trigger] self.in_range(j),
                forall|j: int| 0 < j < i ==> self.element(j - 1) < #[trigger] self.element(j),
                i > 0 ==> prev == self.element(i - 1),
                self.wf() <==> {
                    &&& forall|j: int| 0 <= j < self.spec_n() ==> #[trigger] self.in_range(j)
                    &&& forall|j: int|
                        0 < j < self.spec_n() ==> self.element(j - 1) < #[trigger] self.element(j)
                },
            decreases self.spec_n() - i,
        {
            let x = match self.element_at(i) {
                Some(x) => x,
                None => {
                    return false;
                },
            };
            if i > 0 && x <= prev {
                assert(!(self.element(i - 1) < self.element(i as int)));
                return false;
            }
            prev = x;
            i += 1;
        }
        true
    }

    /// What the bytes of a structure, with anything behind them, hold: the
    /// three widths and counts, and the bytes of the two parts.
    proof fn lemma_parts(&self, tail: Seq<u8>)
        requires
            self.spec_b() <= 63,
            self.spec_d() <= 63,
        ensures
            ({
                let s = self.stored() + tail;
                &&& s.len() >= 24
                &&& le_value(s.take(8)) == self.spec_b()
                &&& le_value(s.skip(8).take(8)) == self.spec_n()
                &&& le_value(s.skip(16).take(8)) == self.spec_d()
                &&& s.skip(24) == self.spec_hi().stored() + (self.spec_lo().stored() + tail)
            }),
    {
        lemma_spans();
        let hi = self.spec_hi().stored();
        let lo = self.spec_lo().stored();
        let front = le_bytes(self.spec_b(), 8) + le_bytes(self.spec_n(), 8) + le_bytes(
            self.spec_d(),
            8,
        );
        assert(self.spec_n() == self.n);
        lemma_joined(front, hi, lo, tail, Seq::empty());
        lemma_first_numbers(self.spec_b(), self.spec_n(), self.spec_d(), hi + (lo + tail));
    }

    /// A structure whose two parts are valid, and whose bytes begin as those
    /// of a valid structure, is valid and stands for the same elements.
    pub proof fn lemma_same_bytes(&self, tail: Seq<u8>, back: &Sparse, rest: Seq<u8>)
        requires
            self.wf(),
            back.spec_b() <= 63,
            back.spec_d() <= 63,
            back.spec_hi().wf(),
            back.spec_lo().wf(),
            self.stored() + tail == back.stored() + rest,
        ensures
            back.wf(),
            back.spec_b() == self.spec_b(),
            back.spec_n() == self.spec_n(),
            back.spec_d() == self.spec_d(),
            back.elements() == self.elements(),
            back.members() == self.members(),
            back.domain_size() == self.domain_size(),
            rest == tail,
    {
        self.lemma_parts(tail);
        back.lemma_parts(rest);
        self.spec_hi().lemma_round_trip(
            self.spec_lo().stored() + tail,
            &back.spec_hi(),
            back.spec_lo().stored() + rest,
        );
        self.spec_lo().lemma_round_trip(tail, &back.spec_lo(), rest);
        self.lemma_same_parts(back);
    }

    /// Reading the bytes of a valid structure succeeds and leaves what
    /// follows them; and a valid structure whose bytes begin as those of
    /// another stands for the same elements.
    pub proof fn lemma_round_trip(&self, tail: Seq<u8>, back: &Sparse, rest: Seq<u8>)
        requires
            self.wf(),
        ensures
            Sparse::decoded(self.stored() + tail) == Ok::<Seq<u8>, LoadError>(tail),
            back.wf() && self.stored() + tail == back.stored() + rest ==> {
                &&& back.spec_b() == self.spec_b()
                &&& back.spec_n() == self.spec_n()
                &&& back.spec_d() == self.spec_d()
                &&& back.elements() == self.elements()
                &&& back.members() == self.members()
                &&& back.domain_size() == self.domain_size()
                &&& rest == tail
            },
    {
        self.lemma_parts(tail);
        let s = self.stored() + tail;
        self.spec_hi().lemma_round_trip(self.spec_lo().stored() + tail, &self.spec_hi(), tail);
        self.spec_lo().lemma_round_trip(tail, &self.spec_lo(), tail);
        assert(sparse_frame(s) == Ok::<Seq<u8>, LoadError>(tail));
        if back.wf() && self.stored() + tail == back.stored() + rest {
            self.lemma_same_bytes(tail, back, rest);
        }
    }
}

/// What is left of the bytes behind the parts of a sparse set at their
/// front, or why the parts are not there: three numbers of 8 bytes, a
/// valid bitmap and a valid vector.
pub open spec fn sparse_frame(bytes: Seq<u8>) -> Result<Seq<u8>, LoadError> {
    if bytes.len() < 24 {
        Err(LoadError::ShortRead)
    } else {
        match Dense64::decoded(bytes.skip(24)) {
            Err(e) => Err(e),
            Ok(at_lo) => IntVec::decoded(at_lo),
        }
    }
}

impl Persistent for Sparse {
    open spec fn storable(&self) -> bool {
        self.wf()
    }

    /// The width of the domain, the count and the width of the low parts,
    /// in 8 bytes each, then the bitmap of the high parts and the vector of
    /// the low parts.
    open spec fn stored(&self) -> Seq<u8> {
        le_bytes(self.spec_b(), 8) + le_bytes(self.spec_n(), 8) + le_bytes(self.spec_d(), 8)
            + self.spec_hi().stored() + self.spec_lo().stored()
    }

    /// The parts have to be there, and to be those of a valid set.
    open spec fn decoded(bytes: Seq<u8>) -> Result<Seq<u8>, LoadError> {
        match sparse_frame(bytes) {
            Err(e) => Err(e),
            Ok(rest) => if exists|x: Sparse| x.wf() && bytes == #[trigger] x.stored() + rest {
                Ok(rest)
            } else {
                Err(LoadError::Inconsistent)
            },
        }
    }

    fn save(&self, sink: &mut Vec<u8>) {
        self.b.put(sink);
        self.n.put(sink);
        self.d.put(sink);
        self.hi.save(sink);
        self.lo.save(sink);
    }

    fn load(source: &mut Source) -> (r: Result<Box<Self>, LoadError>) {
        let ghost from = source@;
        let (b, n, d, hi, lo) = match read_parts(source) {
            Ok(parts) => parts,
            Err(e) => {
                return Err(e);
            },
        };
        if b > 63 || d > 63 || n > usize::MAX as u64 {
            proof {
                lemma_spans();
                lemma_joined(
                    le_bytes(b as nat, 8) + le_bytes(n as nat, 8) + le_bytes(d as nat, 8),
                    hi.stored(),
                    lo.stored(),
                    source@,
                    Seq::empty(),
                );
                lemma_out_of_range(
                    b as nat,
                    n as nat,
                    d as nat,
                    hi.stored() + (lo.stored() + source@),
                    source@,
                );
            }
            return Err(LoadError::Inconsistent);
        }
        let s = Sparse { b: b as usize, n: n as usize, d: d as usize, hi, lo };
        proof {
            assert(from == s.stored() + source@);
            s.lemma_decoded(source@);
        }
        if !s.is_valid() {
            return Err(LoadError::Inconsistent);
        }
        Ok(Box::new(s))
    }
}

/// Bytes that begin with a width above 63 or with a count that no machine
/// word holds are the bytes of no valid structure.
proof fn lemma_out_of_range(b: nat, n: nat, d: nat, body: Seq<u8>, rest: Seq<u8>)
    requires
        b < span(8),
        n < span(8),
        d < span(8),
        b > 63 || d > 63 || n > usize::MAX,
        sparse_frame(le_bytes(b, 8) + le_bytes(n, 8) + le_bytes(d, 8) + body) == Ok::<
            Seq<u8>,
            LoadError,
        >(rest),
    ensures
        Sparse::decoded(le_bytes(b, 8) + le_bytes(n, 8) + le_bytes(d, 8) + body) == Err::<
            Seq<u8>,
            LoadError,
        >(LoadError::Inconsistent),
{
    let from = le_bytes(b, 8) + le_bytes(n, 8) + le_bytes(d, 8) + body;
    assert forall|x: Sparse| x.wf() && from == #[trigger] x.stored() + rest implies false by {
        x.lemma_parts(rest);
        lemma_first_numbers(b, n, d, body);
    }
}

impl Sparse {
    /// The bytes of a structure whose two parts are valid are those of a
    /// valid structure exactly if the structure is valid.
    proof fn lemma_decoded(&self, rest: Seq<u8>)
        requires
            self.spec_b() <= 63,
            self.spec_d() <= 63,
            self.spec_hi().wf(),
            self.spec_lo().wf(),
            sparse_frame(self.stored() + rest) == Ok::<Seq<u8>, LoadError>(rest),
        ensures
            Sparse::decoded(self.stored() + rest) == if self.wf() {
                Ok::<Seq<u8>, LoadError>(rest)
            } else {
                Err::<Seq<u8>, LoadError>(LoadError::Inconsistent)
            },
    {
        let from = self.stored() + rest;
        assert forall|x: Sparse| x.wf() && from == #[trigger] x.stored() + rest implies self.wf() by {
            x.lemma_same_bytes(rest, self, rest);
        }
        if self.wf() {
            assert(from == self.stored() + rest);
        }
    }
}

/// The three numbers at the front of bytes that begin with them.
proof fn lemma_first_numbers(b: nat, n: nat, d: nat, tail: Seq<u8>)
    requires
        b < span(8),
        n < span(8),
        d < span(8),
    ensures
        ({
            let s = le_bytes(b, 8) + le_bytes(n, 8) + le_bytes(d, 8) + tail;
            &&& s.len() >= 24
            &&& le_value(s.take(8)) == b
            &&& le_value(s.skip(8).take(8)) == n
            &&& le_value(s.skip(16).take(8)) == d
            &&& s.skip(24) == tail
        }),
{
    let s = le_bytes(b, 8) + le_bytes(n, 8) + le_bytes(d, 8) + tail;
    let third = le_bytes(d, 8) + tail;
    let second = le_bytes(n, 8) + third;
    lemma_joined(le_bytes(b, 8), le_bytes(n, 8), le_bytes(d, 8), tail, Seq::empty());
    assert(s =~= le_bytes(b, 8) + second);
    lemma_number_first(b, second);
    lemma_number_first(n, third);
    lemma_number_first(d, tail);
    assert(s.skip(16) =~= s.skip(8).skip(8));
    assert(s.skip(24) =~= s.skip(16).skip(8));
}

/// Read the parts of a sparse set, as they stand in the bytes: three
/// numbers, a valid bitmap and a valid vector.
fn read_parts(source: &mut Source) -> (r: Result<(u64, u64, u64, Dense64, IntVec), LoadError>)
    ensures
        match r {
            Ok(parts) => {
                &&& sparse_frame(old(source)@) == Ok::<Seq<u8>, LoadError>(final(source)@)
                &&& parts.3.wf()
                &&& parts.4.wf()
                &&& old(source)@ == le_bytes(parts.0 as nat, 8) + le_bytes(parts.1 as nat, 8)
                    + le_bytes(parts.2 as nat, 8) + parts.3.stored() + parts.4.stored()
                    + final(source)@
            },
            Err(e) => sparse_frame(old(source)@) == Err::<Seq<u8>, LoadError>(e),
        },
{
    let ghost from = source@;
    let b = match load_u64(source) {
        Ok(x) => x,
        Err(e) => {
            return Err(e);
        },
    };
    let ghost at_n = source@;
    let n = match load_u64(source) {
        Ok(x) => x,
        Err(e) => {
            return Err(e);
        },
    };
    let ghost at_d = source@;
    let d = match load_u64(source) {
        Ok(x) => x,
        Err(e) => {
            return Err(e);
        },
    };
    let ghost at_hi = source@;
    proof {
        assert(at_d =~= from.skip(16));
        assert(at_hi =~= from.skip(24));
    }
    let hi: Dense64 = match Dense64::load(source) {
        Ok(x) => *x,
        Err(e) => {
            return Err(e);
        },
    };
    let ghost at_lo = source@;
    let lo: IntVec = match IntVec::load(source) {
        Ok(x) => *x,
        Err(e) => {
            return Err(e);
        },
    };
    proof {
        lemma_number_parsed(from);
        lemma_number_parsed(at_n);
        lemma_number_parsed(at_d);
        lemma_joined(
            le_bytes(b as nat, 8),
            le_bytes(n as nat, 8),
            le_bytes(d as nat, 8),
            hi.stored(),
            lo.stored() + source@,
        );
        lemma_joined(
            le_bytes(b as nat, 8) + le_bytes(n as nat, 8) + le_bytes(d as nat, 8),
            hi.stored(),
            lo.stored(),
            source@,
            Seq::empty(),
        );
    }
    Ok((b, n, d, hi, lo))
}

} // verus!
