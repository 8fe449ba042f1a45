//! A bit vector held in 64-bit words, least significant bit first, and the
//! vocabulary for the bits of a word array.

use crate::model::rank_of;
use crate::words::bit;
use crate::words::lemma_bit_of_zero;
use crate::words::lemma_bit_written;
use crate::words::ones_below;
use vstd::prelude::*;

verus! {

/// Whether bit `p` of the word array is set: bit `p % 64` of word `p / 64`.
pub open spec fn word_bit(words: Seq<u64>, p: int) -> bool {
    bit(words[p / 64], (p % 64) as u64)
}

/// Whether the word array holds no set bit at the position `size` or above.
pub open spec fn clean_tail(words: Seq<u64>, size: int) -> bool {
    forall|p: int| size <= p < 64 * words.len() ==> !#[trigger] word_bit(words, p)
}

/// The positions below `size` at which the word array has a set bit.
pub open spec fn bit_members(words: Seq<u64>, size: int) -> Set<int> {
    Set::new(|p: int| 0 <= p < size && word_bit(words, p))
}

/// The number of set bits in the first `w` words.
pub open spec fn word_ones(words: Seq<u64>, w: int) -> nat
    decreases w,
{
    if w <= 0 {
        0
    } else {
        word_ones(words, w - 1) + ones_below(words[w - 1], 64)
    }
}

/// The set bits below a position are those of the whole words before it and
/// those of its own word below it.
pub proof fn lemma_rank_of_bits(words: Seq<u64>, size: int, w: int, b: int)
    requires
        0 <= size <= 64 * words.len(),
        clean_tail(words, size),
        0 <= b <= 64,
        0 <= w < words.len() || (w == words.len() && b == 0),
    ensures
        rank_of(bit_members(words, size), 64 * w + b) == word_ones(words, w) + if b == 0 {
            0
        } else {
            ones_below(words[w], b as nat)
        },
    decreases w, b,
{
    let s = bit_members(words, size);
    if b > 0 {
        lemma_rank_of_bits(words, size, w, b - 1);
        let p = 64 * w + b - 1;
        assert(p / 64 == w && p % 64 == b - 1);
        assert(s.contains(p) == word_bit(words, p));
    } else if w > 0 {
        lemma_rank_of_bits(words, size, w - 1, 64);
    }
}

/// The number of set bits in a prefix of the words grows with the prefix.
pub proof fn lemma_word_ones_monotonic(words: Seq<u64>, a: int, b: int)
    requires
        a <= b,
    ensures
        word_ones(words, a) <= word_ones(words, b),
    decreases b - a,
{
    if a < b {
        lemma_word_ones_monotonic(words, a, b - 1);
    }
}

/// A bit vector represented by a vector of 64-bit words.
pub struct BitVec {
    size: usize,
    words: Vec<u64>,
}

impl View for BitVec {
    type V = Seq<bool>;

    /// The bits, in order.
    open spec fn view(&self) -> Seq<bool> {
        Seq::new(self.spec_len(), |i: int| word_bit(self.spec_words(), i))
    }
}

impl Clone for BitVec {
    fn clone(&self) -> (r: Self)
        ensures
            r.spec_len() == self.spec_len(),
            r.spec_words() == self.spec_words(),
    {
        BitVec { size: self.size, words: self.words.clone() }
    }
}

impl BitVec {
    /// The number of bits.
    pub closed spec fn spec_len(&self) -> nat {
        self.size as nat
    }

    /// The words that hold the bits.
    pub closed spec fn spec_words(&self) -> Seq<u64> {
        self.words@
    }

    /// The invariant of the representation: just enough words for the bits,
    /// and no set bit behind the last one.
    pub open spec fn wf(&self) -> bool {
        &&& self.spec_len() <= usize::MAX
        &&& self.spec_words().len() == (self.spec_len() + 63) / 64
        &&& clean_tail(self.spec_words(), self.spec_len() as int)
    }

    /// The positions of the set bits.
    pub open spec fn ones(&self) -> Set<int> {
        bit_members(self.spec_words(), self.spec_len() as int)
    }

    /// Return a new, empty bit vector.
    pub fn new() -> (r: BitVec)
        ensures
            r.wf(),
            r@ == Seq::<bool>::empty(),
    {
        BitVec { size: 0, words: Vec::new() }
    }

    /// Return the length of the bit vector.
    pub fn len(&self) -> (r: usize)
        ensures
            r == self@.len(),
            r == self.spec_len(),
    {
        self.size
    }

    /// Retrieve a bit from the bit vector.
    pub fn get(&self, index: usize) -> (r: bool)
        requires
            self.wf(),
            index < self@.len(),
        ensures
            r == self@[index as int],
    {
        let w = index >> 6;
        let b = (index & 63) as u64;
        assert(index >> 6 == index / 64 && index & 63 == index % 64) by (bit_vector);
        (self.words[w] >> b) & 1 == 1
    }

    /// Set a bit in the bit vector.
    pub fn set(&mut self, index: usize, bit: bool)
        requires
            old(self).wf(),
            index < old(self)@.len(),
        ensures
            final(self).wf(),
            final(self)@ == old(self)@.update(index as int, bit),
    {
        let w = index >> 6;
        let b = (index & 63) as u64;
        assert(index >> 6 == index / 64 && index & 63 == index % 64) by (bit_vector);
        let m: u64 = 0xffffffff_ffffffffu64 ^ (1u64 << b);
        let x = self.words[w];
        let y = (x & m) | ((if bit { 1u64 } else { 0u64 }) << b);
        self.words.set(w, y);
        proof {
            let before = old(self).spec_words();
            let after = self.spec_words();
            assert forall|p: int| 0 <= p < 64 * after.len() implies word_bit(after, p) == (if p
                == index {
                bit
            } else {
                word_bit(before, p)
            }) by {
                if p / 64 == w {
                    lemma_bit_written(x, b, bit, (p % 64) as u64);
                }
            }
            assert forall|p: int| self.spec_len() <= p < 64 * after.len() implies !word_bit(
                after,
                p,
            ) by {
                assert(!word_bit(before, p));
            }
            assert(self@ =~= old(self)@.update(index as int, bit));
        }
    }

    /// Add a bit to the end of the bit vector.
    pub fn push(&mut self, bit: bool)
        requires
            old(self).wf(),
            old(self)@.len() < usize::MAX,
        ensures
            final(self).wf(),
            final(self)@ == old(self)@.push(bit),
    {
        let index = self.size;
        self.size += 1;
        let w = index >> 6;
        assert(index >> 6 == index / 64) by (bit_vector);
        while self.words.len() <= w
            invariant
                self.size == index + 1,
                w == index / 64,
                old(self).spec_words().len() == (index + 63) / 64,
                self.words@.len() <= w + 1,
                self.words@.len() >= old(self).spec_words().len(),
                forall|i: int|
                    0 <= i < self.words@.len() ==> self.words@[i] == (if i < old(
                        self,
                    ).spec_words().len() {
                        old(self).spec_words()[i]
                    } else {
                        0
                    }),
            decreases w + 1 - self.words@.len(),
        {
            self.words.push(0);
        }
        proof {
            let before = old(self).spec_words();
            let grown = self.spec_words();
            assert forall|p: int| index <= p < 64 * grown.len() implies !word_bit(grown, p) by {
                if p / 64 < before.len() {
                    assert(!word_bit(before, p));
                } else {
                    lemma_bit_of_zero((p % 64) as u64);
                }
            }
            assert(self@ =~= old(self)@.push(false)) by {
                assert forall|p: int| 0 <= p < index implies word_bit(grown, p) == word_bit(
                    before,
                    p,
                ) by {}
            }
        }
        self.set(index, bit);
        proof {
            assert(self@ =~= old(self)@.push(bit));
        }
    }

    /// Return the underlying vector of words.
    pub fn as_words(&self) -> (r: &[u64])
        ensures
            r@ == self.spec_words(),
    {
        self.words.as_slice()
    }
}

} // verus!
