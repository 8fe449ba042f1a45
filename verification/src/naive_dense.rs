//! A simple dense set based on an un-indexed bit vector.

use crate::bitvec::lemma_rank_of_bits;
use crate::bitvec::lemma_word_ones_monotonic;
use crate::bitvec::word_bit;
use crate::bitvec::word_ones;
use crate::bitvec::BitVec;
use crate::model::lemma_rank_of_above;
use crate::model::lemma_rank_of_bound;
use crate::model::lemma_select_exists;
use crate::model::lemma_select_unique;
use crate::model::rank_of;
use crate::rank::Rank;
use crate::select::Select;
use crate::select::Select0;
use crate::set::ImpliedSet;
use crate::words::lemma_low_mask;
use crate::words::lemma_ones_below_masked;
use crate::words::lemma_ones_below_monotonic;
use crate::words::ones_below;
use crate::words::select64;
use vstd::prelude::*;

verus! {

/// A dense set based on an un-indexed bit vector: the set of the positions
/// of its set bits. Rank and select scan the words.
pub struct NaiveDense {
    bit_count: usize,
    bits: BitVec,
}

impl NaiveDense {
    /// The bit vector.
    pub closed spec fn spec_bits(&self) -> BitVec {
        self.bits
    }

    /// The number of set bits, as counted when the set was made.
    pub closed spec fn spec_bit_count(&self) -> nat {
        self.bit_count as nat
    }

    /// Create a new set from a bit vector.
    pub fn new(bits: BitVec) -> (r: NaiveDense)
        requires
            bits.wf(),
        ensures
            r.wf(),
            r.spec_bits() == bits,
    {
        let mut bit_count: usize = 0;
        let words = bits.as_words();
        let n = words.len();
        let mut i: usize = 0;
        proof {
            lemma_total_ones(&bits);
        }
        while i < n
            invariant
                i <= n,
                n == words@.len(),
                bit_count == word_ones(words@, i as int),
                word_ones(words@, n as int) <= usize::MAX,
            decreases n - i,
        {
            proof {
                lemma_word_ones_monotonic(words@, i + 1, n as int);
            }
            bit_count += words[i].count_ones() as usize;
            i += 1;
        }
        NaiveDense { bit_count, bits }
    }

    /// The number of set bits in the first `w` words.
    fn ones_before(&self, w: usize) -> (r: usize)
        requires
            self.wf(),
            w <= self.spec_bits().spec_words().len(),
        ensures
            r == word_ones(self.spec_bits().spec_words(), w as int),
    {
        let words = self.bits.as_words();
        let mut cumulative: usize = 0;
        let mut i: usize = 0;
        while i < w
            invariant
                i <= w <= words@.len(),
                cumulative == word_ones(words@, i as int),
                word_ones(words@, words@.len() as int) <= usize::MAX,
            decreases w - i,
        {
            proof {
                lemma_word_ones_monotonic(words@, i + 1, words@.len() as int);
            }
            cumulative += words[i].count_ones() as usize;
            i += 1;
        }
        cumulative
    }

    /// The number of set bits of word `w` below bit `value % 64`.
    fn ones_within(&self, w: usize, value: u64) -> (r: usize)
        requires
            self.wf(),
            w < self.spec_bits().spec_words().len(),
        ensures
            r == ones_below(self.spec_bits().spec_words()[w as int], (value % 64) as nat),
    {
        let words = self.bits.as_words();
        let b = value & 63;
        assert(value & 63 == value % 64) by (bit_vector);
        proof {
            lemma_low_mask(b);
            lemma_ones_below_masked(words@[w as int], b, 64);
        }
        let m = (1u64 << b) - 1;
        (words[w] & m).count_ones() as usize
    }
}

/// The set bits of a bit vector are those of its words.
pub proof fn lemma_total_ones(bits: &BitVec)
    requires
        bits.wf(),
    ensures
        rank_of(bits.ones(), bits.spec_len() as int) == word_ones(
            bits.spec_words(),
            bits.spec_words().len() as int,
        ),
        word_ones(bits.spec_words(), bits.spec_words().len() as int) <= bits.spec_len(),
{
    let words = bits.spec_words();
    let size = bits.spec_len() as int;
    lemma_rank_of_bits(words, size, words.len() as int, 0);
    lemma_rank_of_above(bits.ones(), size, 64 * (words.len() as int));
    lemma_rank_of_bound(bits.ones(), size);
}

impl ImpliedSet for NaiveDense {
    open spec fn wf(&self) -> bool {
        &&& self.spec_bits().wf()
        &&& self.spec_bit_count() == word_ones(
            self.spec_bits().spec_words(),
            self.spec_bits().spec_words().len() as int,
        )
    }

    open spec fn members(&self) -> Set<int> {
        self.spec_bits().ones()
    }

    open spec fn domain_size(&self) -> nat {
        self.spec_bits().spec_len()
    }

    proof fn lemma_members_in_domain(&self) {
    }

    fn count(&self) -> (r: usize) {
        proof {
            lemma_total_ones(&self.spec_bits());
        }
        self.bit_count
    }

    fn size(&self) -> (r: u64) {
        self.bits.len() as u64
    }
}

impl Rank for NaiveDense {
    fn rank(&self, value: u64) -> (r: usize) {
        let n = self.bits.as_words().len();
        if value / 64 >= n as u64 {
            proof {
                lemma_total_ones(&self.spec_bits());
                lemma_rank_of_above(
                    self.members(),
                    self.domain_size() as int,
                    value as int,
                );
            }
            return self.count();
        }
        let w = (value / 64) as usize;
        proof {
            let words = self.spec_bits().spec_words();
            lemma_total_ones(&self.spec_bits());
            lemma_rank_of_bits(words, self.domain_size() as int, w as int, value as int % 64);
            lemma_word_ones_monotonic(words, w + 1, words.len() as int);
            lemma_ones_below_monotonic(words[w as int], (value % 64) as nat, 64);
        }
        self.ones_before(w) + self.ones_within(w, value)
    }

    fn rank_2(&self, value_1: u64, value_2: u64) -> (r: (usize, usize)) {
        let n = self.bits.as_words().len();
        if value_1 / 64 >= n as u64 {
            let c = self.rank(value_1);
            proof {
                lemma_rank_of_above(self.members(), self.domain_size() as int, value_1 as int);
                lemma_rank_of_above(self.members(), self.domain_size() as int, value_2 as int);
            }
            return (c, c);
        }
        let w1 = (value_1 / 64) as usize;
        let mut cumulative = self.ones_before(w1);
        proof {
            let words = self.spec_bits().spec_words();
            lemma_total_ones(&self.spec_bits());
            lemma_rank_of_bits(words, self.domain_size() as int, w1 as int, value_1 as int % 64);
            lemma_word_ones_monotonic(words, w1 + 1, words.len() as int);
            lemma_ones_below_monotonic(words[w1 as int], (value_1 % 64) as nat, 64);
        }
        let r1 = cumulative + self.ones_within(w1, value_1);
        if value_2 / 64 >= n as u64 {
            return (r1, self.rank(value_2));
        }
        let w2 = (value_2 / 64) as usize;
        let words = self.bits.as_words();
        let mut i = w1;
        while i < w2
            invariant
                w1 <= i <= w2 < n,
                n == words@.len(),
                words@ == self.spec_bits().spec_words(),
                cumulative == word_ones(words@, i as int),
                word_ones(words@, n as int) <= usize::MAX,
            decreases w2 - i,
        {
            proof {
                lemma_word_ones_monotonic(words@, i + 1, n as int);
            }
            cumulative += words[i].count_ones() as usize;
            i += 1;
        }
        proof {
            let words = self.spec_bits().spec_words();
            lemma_rank_of_bits(words, self.domain_size() as int, w2 as int, value_2 as int % 64);
            lemma_word_ones_monotonic(words, w2 + 1, words.len() as int);
            lemma_ones_below_monotonic(words[w2 as int], (value_2 % 64) as nat, 64);
        }
        let r2 = cumulative + self.ones_within(w2, value_2);
        (r1, r2)
    }
}

impl Select for NaiveDense {
    fn select(&self, index: usize) -> (r: u64) {
        let words = self.bits.as_words();
        proof {
            lemma_total_ones(&self.spec_bits());
        }
        let mut cumulative: usize = 0;
        let mut i: usize = 0;
        let mut c = if words.len() > 0 {
            words[0].count_ones() as usize
        } else {
            0
        };
        proof {
            if words@.len() > 0 {
                lemma_word_ones_monotonic(words@, 1, words@.len() as int);
            }
        }
        while cumulative + c <= index
            invariant
                words@ == self.spec_bits().spec_words(),
                i < words@.len(),
                cumulative == word_ones(words@, i as int),
                c == ones_below(words@[i as int], 64),
                cumulative + c <= usize::MAX,
                words@.len() <= usize::MAX,
                cumulative <= index < word_ones(words@, words@.len() as int) <= usize::MAX,
            decreases words@.len() - i,
        {
            proof {
                assert(word_ones(words@, i + 1) == cumulative + c);
                if i + 1 < words@.len() {
                    lemma_word_ones_monotonic(words@, i + 2, words@.len() as int);
                }
            }
            cumulative += c;
            i += 1;
            c = words[i].count_ones() as usize;
        }
        let j = index - cumulative;
        let p = select64(words[i], j);
        proof {
            assert(self.domain_size() <= usize::MAX);
        }
        let r = 64 * i as u64 + p;
        proof {
            let s = self.members();
            assert(r as int / 64 == i && r as int % 64 == p);
            assert(word_bit(words@, r as int));
            lemma_rank_of_bits(words@, self.domain_size() as int, i as int, p as int);
            let q = lemma_select_exists(s, self.domain_size() as int, index as nat);
            lemma_select_unique(s, r as int, q);
        }
        r
    }
}

impl Select0 for NaiveDense {

}

} // verus!
