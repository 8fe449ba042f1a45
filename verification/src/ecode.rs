//! Enumerative coding of the words of `n` bits that have `k` bits set: each
//! such word is numbered by its place among them in increasing order.

use crate::words::bit;
use crate::words::lemma_bit_of_zero;
use crate::words::lemma_ones_below_monotonic;
use crate::words::ones_below;
use vstd::arithmetic::div_mod::lemma_basic_div;
use vstd::arithmetic::div_mod::lemma_div_by_multiple;
use vstd::arithmetic::div_mod::lemma_div_is_ordered;
use vstd::arithmetic::power2::lemma2_to64;
use vstd::arithmetic::power2::lemma2_to64_rest;
use vstd::arithmetic::power2::lemma_pow2_pos;
use vstd::arithmetic::power2::lemma_pow2_strictly_increases;
use vstd::arithmetic::power2::lemma_pow2_unfold;
use vstd::arithmetic::power2::pow2;
use vstd::bits::lemma_u64_shr_is_div;
use vstd::prelude::*;
use vstd::std_specs::bits::axiom_u64_leading_zeros;
use vstd::std_specs::bits::axiom_u64_trailing_zeros;
use vstd::std_specs::bits::u64_trailing_zeros;

verus! {

/// The binomial coefficient: the number of ways to pick `k` of `n` things,
/// by Pascal's rule.
pub open spec fn binomial(n: nat, k: nat) -> nat
    decreases n,
{
    if k == 0 {
        1
    } else if n == 0 {
        0
    } else {
        binomial((n - 1) as nat, (k - 1) as nat) + binomial((n - 1) as nat, k)
    }
}

/// The number of words of `n` bits with `k` bits set that are below the
/// low `n` bits of `x`, where `x` has `k` bits set among them: a set top
/// bit puts all the words without it before `x`.
pub open spec fn code_rank(x: u64, n: nat, k: nat) -> nat
    decreases n,
{
    if n == 0 || k == 0 {
        0
    } else if bit(x, (n - 1) as u64) {
        binomial((n - 1) as nat, k) + code_rank(x, (n - 1) as nat, (k - 1) as nat)
    } else {
        code_rank(x, (n - 1) as nat, k)
    }
}

/// The word of `n` bits with `k` bits set that has `i` such words below it:
/// its top bit is set exactly if the words without it are `i` or fewer.
pub open spec fn code_select(i: nat, n: nat, k: nat) -> u64
    decreases n,
{
    if n == 0 || k == 0 {
        0
    } else if i < binomial((n - 1) as nat, k) {
        code_select(i, (n - 1) as nat, k)
    } else {
        (1u64 << ((n - 1) as u64)) | code_select(
            (i - binomial((n - 1) as nat, k)) as nat,
            (n - 1) as nat,
            (k - 1) as nat,
        )
    }
}

/// Whether every coefficient met on the way to `binomial(n, k)` fits in 64
/// bits.
pub open spec fn binomials_fit(n: nat, k: nat) -> bool {
    forall|j: nat| j <= k ==> #[trigger] binomial(n, j) <= u64::MAX
}

/// Nothing can be picked in more ways than there are things to pick from.
pub proof fn lemma_binomial_none(n: nat, k: nat)
    requires
        k > n,
    ensures
        binomial(n, k) == 0,
    decreases n,
{
    if n > 0 {
        lemma_binomial_none((n - 1) as nat, (k - 1) as nat);
        lemma_binomial_none((n - 1) as nat, k);
    }
}

/// The step from one coefficient of a row to the next:
/// `(i + 1) * C(n, i + 1) = (n - i) * C(n, i)`.
pub proof fn lemma_binomial_step(n: nat, i: nat)
    ensures
        (i + 1) * binomial(n, i + 1) == (n - i) * binomial(n, i),
    decreases n,
{
    let up = binomial(n, i + 1) as int;
    let here = binomial(n, i) as int;
    if n == 0 {
        assert(up == 0);
        assert((i + 1) * up == 0) by (nonlinear_arith)
            requires
                up == 0,
        ;
        if i == 0 {
            assert((n - i) * here == 0) by (nonlinear_arith)
                requires
                    n - i == 0,
            ;
        } else {
            assert(here == 0);
            assert((n - i) * here == 0) by (nonlinear_arith)
                requires
                    here == 0,
            ;
        }
    } else {
        let m = (n - 1) as nat;
        let a = binomial(m, i) as int;
        let b = binomial(m, i + 1) as int;
        lemma_binomial_step(m, i);
        assert((i + 1) * b == (m - i) * a);
        assert(up == a + b);
        if i == 0 {
            assert(here == 1);
            assert((i + 1) * up == (n - i) * here) by (nonlinear_arith)
                requires
                    (i + 1) * b == (m - i) * a,
                    up == a + b,
                    a == 1,
                    here == 1,
                    i == 0,
                    m == n - 1,
            ;
        } else {
            let c = binomial(m, (i - 1) as nat) as int;
            lemma_binomial_step(m, (i - 1) as nat);
            assert(i * a == (m - i + 1) * c);
            assert(here == c + a);
            assert((i + 1) * up == (n - i) * here) by (nonlinear_arith)
                requires
                    (i + 1) * b == (m - i) * a,
                    i * a == (m - i + 1) * c,
                    up == a + b,
                    here == c + a,
                    m == n - 1,
            ;
        }
    }
}

/// Two neighbours of a row are together no more than `2^n`.
pub proof fn lemma_binomial_pair(n: nat, k: nat)
    ensures
        binomial(n, k) + binomial(n, k + 1) <= pow2(n),
    decreases n,
{
    lemma2_to64();
    if n > 0 {
        let m = (n - 1) as nat;
        lemma_pow2_unfold(n);
        lemma_pow2_pos(m);
        lemma_binomial_pair(m, k);
        if k > 0 {
            lemma_binomial_pair(m, (k - 1) as nat);
        }
    }
}

/// The coefficients of the first 65 rows fit in 64 bits.
pub proof fn lemma_binomials_fit(n: nat, k: nat)
    requires
        n <= 64,
    ensures
        binomials_fit(n, k),
        binomial(n, k) <= 0x8000_0000_0000_0000,
{
    lemma2_to64();
    lemma2_to64_rest();
    assert forall|j: nat| true implies #[trigger] binomial(n, j) <= 0x8000_0000_0000_0000 by {
        if n > 0 && j > 0 {
            let m = (n - 1) as nat;
            lemma_binomial_pair(m, (j - 1) as nat);
            if m < 63 {
                lemma_pow2_strictly_increases(m, 63);
            }
        }
    }
}

/// The number of a word is below the number of words.
pub proof fn lemma_code_rank_bound(x: u64, n: nat, k: nat)
    ensures
        code_rank(x, n, k) <= binomial(n, k),
    decreases n,
{
    if n > 0 && k > 0 {
        lemma_code_rank_bound(x, (n - 1) as nat, (k - 1) as nat);
        lemma_code_rank_bound(x, (n - 1) as nat, k);
    }
}

/// Whether `x` has no bit set at position `n` or above.
pub open spec fn below_bit(x: u64, n: nat) -> bool {
    forall|p: u64| n <= p < 64 ==> !#[trigger] bit(x, p)
}

/// A word with bit `m` set on top of a word below bit `m` has that bit and
/// the bits of the other word.
proof fn lemma_top_bit(z: u64, m: u64, p: u64)
    requires
        m < 64,
        p < 64,
    ensures
        bit((1u64 << m) | z, p) == (p == m || bit(z, p)),
{
    assert(bit((1u64 << m) | z, p) == (p == m || bit(z, p))) by (bit_vector)
        requires
            m < 64,
            p < 64,
    ;
}

/// The number of a word depends on its `n` lowest bits only.
proof fn lemma_code_rank_agree(x: u64, y: u64, n: nat, k: nat)
    requires
        n <= 64,
        forall|p: u64| p < n ==> bit(x, p) == bit(y, p),
    ensures
        code_rank(x, n, k) == code_rank(y, n, k),
        ones_below(x, n) == ones_below(y, n),
    decreases n,
{
    if n > 0 {
        assert(bit(x, (n - 1) as u64) == bit(y, (n - 1) as u64));
        lemma_code_rank_agree(x, y, (n - 1) as nat, k);
        if k > 0 {
            lemma_code_rank_agree(x, y, (n - 1) as nat, (k - 1) as nat);
        }
    }
}

/// The word found for a number below the number of words is one of the
/// words of the code: it has `k` bits set, all below bit `n`.
pub proof fn lemma_code_select_is_word(i: nat, n: nat, k: nat)
    requires
        n <= 64,
        i < binomial(n, k),
    ensures
        below_bit(code_select(i, n, k), n),
        ones_below(code_select(i, n, k), n) == k,
    decreases n,
{
    let y = code_select(i, n, k);
    if n == 0 || k == 0 {
        assert forall|p: u64| p < 64 implies !bit(0u64, p) by {
            lemma_bit_of_zero(p);
        }
        lemma_no_ones(n);
    } else {
        let m = (n - 1) as nat;
        let c = binomial(m, k);
        if i < c {
            let z = code_select(i, m, k);
            lemma_code_select_is_word(i, m, k);
            assert(!bit(z, m as u64));
        } else {
            let z = code_select((i - c) as nat, m, (k - 1) as nat);
            lemma_code_select_is_word((i - c) as nat, m, (k - 1) as nat);
            assert forall|p: u64| p < 64 implies bit(y, p) == (p == m || bit(z, p)) by {
                lemma_top_bit(z, m as u64, p);
            }
            lemma_code_rank_agree(y, z, m, k);
        }
    }
}

/// The word without set bits has none below any position.
proof fn lemma_no_ones(n: nat)
    requires
        n <= 64,
    ensures
        ones_below(0, n) == 0,
    decreases n,
{
    if n > 0 {
        lemma_bit_of_zero((n - 1) as u64);
        lemma_no_ones((n - 1) as nat);
    }
}

/// Numbering undoes finding: the word found for `i` has the number `i`.
pub proof fn law_rank_of_select(i: nat, n: nat, k: nat)
    requires
        n <= 64,
        i < binomial(n, k),
    ensures
        code_rank(code_select(i, n, k), n, k) == i,
    decreases n,
{
    let y = code_select(i, n, k);
    if n == 0 || k == 0 {
    } else {
        let m = (n - 1) as nat;
        let c = binomial(m, k);
        if i < c {
            lemma_code_select_is_word(i, m, k);
            law_rank_of_select(i, m, k);
            assert(!bit(y, m as u64));
        } else {
            let z = code_select((i - c) as nat, m, (k - 1) as nat);
            law_rank_of_select((i - c) as nat, m, (k - 1) as nat);
            assert forall|p: u64| p < 64 implies bit(y, p) == (p == m || bit(z, p)) by {
                lemma_top_bit(z, m as u64, p);
            }
            lemma_code_rank_agree(y, z, m, (k - 1) as nat);
        }
    }
}

/// A word of the code has a number below the number of words.
pub proof fn lemma_code_rank_below(x: u64, n: nat, k: nat)
    requires
        n <= 64,
        ones_below(x, n) == k,
    ensures
        code_rank(x, n, k) < binomial(n, k),
    decreases n,
{
    if n == 0 || k == 0 {
    } else {
        let m = (n - 1) as nat;
        if bit(x, m as u64) {
            lemma_code_rank_below(x, m, (k - 1) as nat);
        } else {
            lemma_code_rank_below(x, m, k);
        }
    }
}

/// Words below bit `n` with the same `n` lowest bits are equal.
proof fn lemma_same_bits(x: u64, y: u64, n: nat)
    requires
        n <= 64,
        below_bit(x, n),
        below_bit(y, n),
        forall|p: u64| p < n ==> bit(x, p) == bit(y, p),
    ensures
        x == y,
{
    if x != y {
        let d = x ^ y;
        assert(d != 0) by (bit_vector)
            requires
                d == x ^ y,
                x != y,
        ;
        axiom_u64_trailing_zeros(d);
        let t = u64_trailing_zeros(d) as u64;
        assert(bit(x, t) != bit(y, t)) by (bit_vector)
            requires
                d == x ^ y,
                bit(d, t),
                t < 64,
        ;
    }
}

/// Finding undoes numbering: the word found for the number of a word of
/// the code is that word.
pub proof fn law_select_of_rank(x: u64, n: nat, k: nat)
    requires
        n <= 64,
        below_bit(x, n),
        ones_below(x, n) == k,
    ensures
        code_select(code_rank(x, n, k), n, k) == x,
    decreases n,
{
    lemma_code_rank_below(x, n, k);
    lemma_code_select_is_word(code_rank(x, n, k), n, k);
    let y = code_select(code_rank(x, n, k), n, k);
    assert forall|p: u64| p < n implies bit(x, p) == bit(y, p) by {
        lemma_bits_of_select(x, n, k, p);
    }
    lemma_same_bits(x, y, n);
}

/// The word found for the number of `x` has the `n` lowest bits of `x`.
proof fn lemma_bits_of_select(x: u64, n: nat, k: nat, p: u64)
    requires
        n <= 64,
        ones_below(x, n) == k,
        p < n,
    ensures
        bit(code_select(code_rank(x, n, k), n, k), p) == bit(x, p),
    decreases n,
{
    let m = (n - 1) as nat;
    let y = code_select(code_rank(x, n, k), n, k);
    if k == 0 {
        lemma_bit_of_zero(p);
        if bit(x, p) {
            lemma_ones_below_monotonic(x, (p + 1) as nat, n);
        }
    } else if bit(x, m as u64) {
        let r = code_rank(x, m, (k - 1) as nat);
        let z = code_select(r, m, (k - 1) as nat);
        lemma_top_bit(z, m as u64, p);
        if p < m {
            lemma_bits_of_select(x, m, (k - 1) as nat, p);
        }
    } else {
        lemma_code_rank_below(x, m, k);
        if p < m {
            lemma_bits_of_select(x, m, k, p);
        } else {
            lemma_code_select_is_word(code_rank(x, m, k), m, k);
        }
    }
}

/// The binomial coefficient `C(n, k)`.
pub fn binom(n: u64, k: u64) -> (r: u64)
    requires
        binomials_fit(n as nat, k as nat),
    ensures
        r == binomial(n as nat, k as nat),
{
    if k > n {
        proof {
            lemma_binomial_none(n as nat, k as nat);
        }
        return 0;
    }
    let mut res: u64 = 1u64;
    let mut i: u64 = 0;
    while i < k
        invariant
            i <= k <= n,
            res == binomial(n as nat, i as nat),
            binomials_fit(n as nat, k as nat),
        decreases k - i,
    {
        proof {
            lemma_binomial_step(n as nat, i as nat);
            let next = binomial(n as nat, (i + 1) as nat) as int;
            assert(next <= u64::MAX);
            assert(res * (n - i) == next * (i + 1)) by (nonlinear_arith)
                requires
                    (i + 1) * next == (n - i) * res,
            ;
            lemma_div_by_multiple(next, i + 1);
            assert(res * (n - i) <= 0xffff_ffff_ffff_ffff * 0xffff_ffff_ffff_ffff)
                by (nonlinear_arith)
                requires
                    0 <= res <= 0xffff_ffff_ffff_ffff,
                    0 <= n - i <= 0xffff_ffff_ffff_ffff,
            ;
        }
        res = (res as u128 * (n - i) as u128 / (i + 1) as u128) as u64;
        i += 1;
    }
    res
}

/// The words of `n` bits that have `k` bits set, numbered in increasing
/// order.
pub struct EnumCodeSet {
    n: u64,
    k: u64,
}

impl EnumCodeSet {
    /// The width of the words in bits.
    pub closed spec fn spec_n(&self) -> nat {
        self.n as nat
    }

    /// The number of set bits in every word.
    pub closed spec fn spec_k(&self) -> nat {
        self.k as nat
    }

    /// Returns the number of bits required to store the maximum rank: the
    /// length in bits of the number of words less one.
    pub fn bits(&self) -> (r: u32)
        requires
            self.spec_n() <= 64,
        ensures
            r <= 64,
            binomial(self.spec_n(), self.spec_k()) == 0 ==> r == 0,
            binomial(self.spec_n(), self.spec_k()) > 0 ==> binomial(self.spec_n(), self.spec_k()) - 1
                < pow2(r as nat),
            r > 0 ==> binomial(self.spec_n(), self.spec_k()) - 1 >= pow2((r - 1) as nat),
    {
        proof {
            lemma_binomials_fit(self.spec_n(), self.spec_k());
        }
        let total = binom(self.n, self.k);
        if total == 0 {
            0
        } else {
            let top = total - 1;
            let z = top.leading_zeros();
            proof {
                axiom_u64_leading_zeros(top);
                lemma2_to64();
                lemma2_to64_rest();
                let r = (64 - z) as u64;
                if r < 64 {
                    lemma_u64_shr_is_div(top, r);
                    lemma_pow2_pos(r as nat);
                    lemma_pow2_strictly_increases(r as nat, 64);
                    if top >= pow2(r as nat) {
                        lemma_div_is_ordered(pow2(r as nat) as int, top as int, pow2(r as nat) as int);
                        lemma_div_by_multiple(1, pow2(r as nat) as int);
                    }
                }
                if r > 0 {
                    let s = (r - 1) as u64;
                    let y = top >> s;
                    assert(y >= 1) by (bit_vector)
                        requires
                            y & 1u64 != 0u64,
                    ;
                    lemma_u64_shr_is_div(top, s);
                    lemma_pow2_pos(s as nat);
                    if top < pow2(s as nat) {
                        lemma_basic_div(top as int, pow2(s as nat) as int);
                    }
                }
            }
            64 - z
        }
    }

    /// The code of the words of `n` bits with `k` bits set.
    pub fn new(n: u64, k: u64) -> (r: Self)
        ensures
            r.spec_n() == n,
            r.spec_k() == k,
    {
        EnumCodeSet { n, k }
    }

    /// The number of `x` among the words of the code: how many of them are
    /// below `x`, which is one of them.
    pub fn rank(&self, x: u64) -> (r: u64)
        requires
            self.spec_n() <= 63,
            ones_below(x, self.spec_n()) == self.spec_k(),
        ensures
            r == code_rank(x, self.spec_n(), self.spec_k()),
    {
        let mut r: u64 = 0;
        let mut k = self.k;
        let mut i = self.n;
        while i > 0 && k > 0
            invariant
                i <= self.spec_n() <= 63,
                k == ones_below(x, i as nat),
                r + code_rank(x, i as nat, k as nat) == code_rank(x, self.spec_n(), self.spec_k()),
            decreases i,
        {
            i -= 1;
            assert((x & (1u64 << i) != 0) == bit(x, i)) by (bit_vector)
                requires
                    i < 64,
            ;
            if (x & (1u64 << i)) != 0 {
                proof {
                    lemma_binomials_fit(i as nat, k as nat);
                    lemma_code_rank_bound(x, self.spec_n(), self.spec_k());
                    lemma_binomials_fit(self.spec_n(), self.spec_k());
                }
                r += binom(i, k);
                k -= 1;
            }
        }
        r
    }

    /// Returns the i-th smallest n-bit number with k one bits.
    pub fn select(&self, i: u64) -> (r: u64)
        requires
            self.spec_n() <= 64,
        ensures
            r == code_select(i as nat, self.spec_n(), self.spec_k()),
    {
        let mut result = 0u64;
        let mut k = self.k;
        let mut i = i;
        let mut j = self.n;
        let ghost whole = code_select(i as nat, self.spec_n(), self.spec_k());
        assert(0u64 | whole == whole) by (bit_vector);
        while j > 0 && k > 0
            invariant
                j <= self.spec_n() <= 64,
                result | code_select(i as nat, j as nat, k as nat) == whole,
            decreases j,
        {
            j -= 1;
            proof {
                lemma_binomials_fit(j as nat, k as nat);
            }
            let b = binom(j, k);
            if i < b {
                // Place a 0 at this position
                continue;
            } else {
                // Place a 1 at this position
                proof {
                    let rest = code_select((i - b) as nat, j as nat, (k - 1) as nat);
                    let one = 1u64 << j;
                    assert(result | (one | rest) == (result | one) | rest) by (bit_vector);
                }
                result |= 1u64 << j;
                i -= b;
                k -= 1;
            }
        }
        assert(result | 0u64 == result) by (bit_vector);
        result
    }
}

} // verus!
