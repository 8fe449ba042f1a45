//! Broadword primitives: rank and select inside one 64-bit word.

use vstd::prelude::*;
use vstd::std_specs::bits::axiom_u64_trailing_zeros;

verus! {

/// Whether bit `p` of `x` is set, counting from the least significant bit.
pub open spec fn bit(x: u64, p: u64) -> bool {
    (x >> p) & 1 == 1
}

/// The number of set bits of `x` at positions strictly below `n`.
pub open spec fn ones_below(x: u64, n: nat) -> nat
    decreases n,
{
    if n == 0 {
        0
    } else {
        ones_below(x, (n - 1) as nat) + if bit(x, (n - 1) as u64) { 1nat } else { 0nat }
    }
}

/// `u64::count_ones` returns the number of set bits of its argument, that is
/// the number of set bits at the positions 0 to 63.
pub assume_specification[ u64::count_ones ](x: u64) -> (r: u32)
    ensures
        r == ones_below(x, 64),
;

/// Whether `r` is `src` deposited under `mask`: `r` has bit `p` set exactly
/// where `mask` has bit `p` set and `src` has the bit set whose index is the
/// number of set bits of `mask` below `p`.
pub open spec fn is_deposit(src: u64, mask: u64, r: u64) -> bool {
    forall|p: u64|
        p < 64 ==> (#[trigger] bit(r, p) <==> bit(mask, p) && bit(
            src,
            ones_below(mask, p as nat) as u64,
        ))
}

/// `bitintr::Pdep::pdep` on `u64` scatters the low bits of `src` to the
/// positions of the set bits of `mask`, lowest first: the result has bit `p`
/// set exactly where `mask` has bit `p` set and `src` has the bit set whose
/// index is the number of set bits of `mask` below `p`. Without the BMI2
/// instruction the crate's loop doubles a 64-bit counter once for each set bit
/// of `mask`, which overflows when all 64 are set, so that mask is left out.
#[verifier::external_body]
fn deposit(src: u64, mask: u64) -> (r: u64)
    requires
        mask != u64::MAX,
    ensures
        is_deposit(src, mask, r),
{
    bitintr::Pdep::pdep(src, mask)
}

/// The number of set bits below a position never exceeds the position.
pub proof fn lemma_ones_below_bound(x: u64, n: nat)
    ensures
        ones_below(x, n) <= n,
    decreases n,
{
    if n > 0 {
        lemma_ones_below_bound(x, (n - 1) as nat);
    }
}

/// The count of set bits grows with the position.
pub proof fn lemma_ones_below_monotonic(x: u64, m: nat, n: nat)
    requires
        m <= n,
    ensures
        ones_below(x, m) <= ones_below(x, n),
    decreases n,
{
    if m < n {
        lemma_ones_below_monotonic(x, m, (n - 1) as nat);
    }
}

/// Masking a word to its low `pos` bits keeps the set bits below `pos` and
/// clears the rest.
pub proof fn lemma_ones_below_masked(x: u64, pos: u64, n: nat)
    requires
        pos < 64,
        n <= 64,
    ensures
        ones_below(x & (((1u64 << pos) - 1) as u64), n) == ones_below(
            x,
            if n <= pos { n } else { pos as nat },
        ),
    decreases n,
{
    if n > 0 {
        let p = (n - 1) as u64;
        lemma_ones_below_masked(x, pos, (n - 1) as nat);
        assert(bit(x & (((1u64 << pos) - 1) as u64), p) <==> (p < pos && bit(x, p))) by (bit_vector)
            requires
                pos < 64,
                p < 64,
        ;
    }
}

/// A single bit shifted to a position below 64 is a word of at least 1, so
/// that the mask of the bits below it can be had by subtracting 1.
pub proof fn lemma_low_mask(pos: u64)
    requires
        pos < 64,
    ensures
        (1u64 << pos) >= 1,
{
    assert((1u64 << pos) >= 1) by (bit_vector)
        requires
            pos < 64,
    ;
}

/// The popcount of the low `pos` bits of `x`; all of `x` where `pos` is 64 or
/// more.
pub fn rank64(x: u64, pos: u64) -> (r: u64)
    ensures
        r == ones_below(x, if pos < 64 { pos as nat } else { 64 }),
{
    if pos < 64 {
        proof {
            lemma_low_mask(pos);
            lemma_ones_below_masked(x, pos, 64);
        }
        (x & ((1u64 << pos) - 1)).count_ones() as u64
    } else {
        x.count_ones() as u64
    }
}

/// Some position below `n` holds the set bit of `x` that has exactly `idx`
/// set bits below it, whenever `x` has more than `idx` set bits below `n`.
pub proof fn lemma_nth_one(x: u64, idx: nat, n: nat) -> (p: nat)
    requires
        n <= 64,
        idx < ones_below(x, n),
    ensures
        p < n,
        bit(x, p as u64),
        ones_below(x, p) == idx,
    decreases n,
{
    if ones_below(x, (n - 1) as nat) > idx {
        lemma_nth_one(x, idx, (n - 1) as nat)
    } else {
        (n - 1) as nat
    }
}

/// The position of the set bit of `x` that has exactly `idx` set bits below
/// it: the `idx`-th set bit, counting from 0.
pub fn select64(x: u64, idx: usize) -> (r: u64)
    requires
        idx < ones_below(x, 64),
    ensures
        r < 64,
        bit(x, r),
        ones_below(x, r as nat) == idx,
{
    proof {
        lemma_ones_below_bound(x, 64);
    }
    if x == u64::MAX {
        let r = idx as u64;
        proof {
            lemma_all_ones(r as nat);
        }
        r
    } else {
        let i = idx as u64;
        let scattered = deposit(1u64 << i, x);
        let r = scattered.trailing_zeros() as u64;
        proof {
            let p = lemma_nth_one(x, idx as nat, 64) as u64;
            assert(bit(1u64 << i, i)) by (bit_vector)
                requires
                    i < 64,
            ;
            assert(bit(scattered, p));
            assert(scattered != 0) by (bit_vector)
                requires
                    bit(scattered, p),
            ;
            axiom_u64_trailing_zeros(scattered);
            assert(bit(scattered, r));
            let k = ones_below(x, r as nat) as u64;
            lemma_ones_below_bound(x, r as nat);
            assert(k == i) by (bit_vector)
                requires
                    bit(1u64 << i, k),
                    i < 64,
                    k < 64,
            ;
        }
        r
    }
}

/// In the word of 64 set bits every position has as many set bits below it
/// as its own index.
proof fn lemma_all_ones(n: nat)
    requires
        n <= 64,
    ensures
        ones_below(u64::MAX, n) == n,
        n < 64 ==> bit(u64::MAX, n as u64),
    decreases n,
{
    let p = n as u64;
    assert(p < 64 ==> bit(u64::MAX, p)) by (bit_vector);
    if n > 0 {
        lemma_all_ones((n - 1) as nat);
    }
}

/// The word without set bits has no bit set.
pub proof fn lemma_bit_of_zero(p: u64)
    requires
        p < 64,
    ensures
        !bit(0, p),
{
    assert(!bit(0, p)) by (bit_vector)
        requires
            p < 64,
    ;
}

/// Writing one bit of a word changes that bit and no other.
pub proof fn lemma_bit_written(x: u64, b: u64, v: bool, p: u64)
    requires
        b < 64,
        p < 64,
    ensures
        bit((x & (u64::MAX ^ (1u64 << b))) | ((if v { 1u64 } else { 0u64 }) << b), p) == (if p == b {
            v
        } else {
            bit(x, p)
        }),
{
    let one = if v { 1u64 } else { 0u64 };
    assert(bit((x & (0xffff_ffff_ffff_ffffu64 ^ (1u64 << b))) | (one << b), p) == (if p == b {
        one == 1
    } else {
        bit(x, p)
    })) by (bit_vector)
        requires
            b < 64,
            p < 64,
            one <= 1,
    ;
}

} // verus!
