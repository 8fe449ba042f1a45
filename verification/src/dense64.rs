//! A bitmap with a rank index and a select index: rank in constant time,
//! select in a short scan.

use crate::bitvec::bit_members;
use crate::bitvec::clean_tail;
use crate::bitvec::lemma_rank_of_bits;
use crate::bitvec::lemma_word_ones_monotonic;
use crate::bitvec::word_bit;
use crate::bitvec::word_ones;
use crate::error::BuildError;
use crate::error::LoadError;
use crate::persist::as_u32s;
use crate::persist::as_u64s;
use crate::persist::le_bytes;
use crate::persist::le_value;
use crate::persist::lemma_as_u32s;
use crate::persist::lemma_as_u64s;
use crate::persist::lemma_joined;
use crate::persist::lemma_number_parsed;
use crate::persist::lemma_number_first;
use crate::persist::lemma_spans;
use crate::persist::lemma_vec_parsed;
use crate::persist::lemma_vec_round_trip;
use crate::persist::load_u64;
use crate::persist::load_vec_u32;
use crate::persist::load_vec_u64;
use crate::persist::save_vec;
use crate::persist::values_of;
use crate::persist::vec_bytes;
use crate::persist::vec_rest;
use crate::persist::vec_values;
use crate::persist::Persistent;
use crate::persist::Scalar;
use crate::persist::Source;
use crate::model::lemma_rank_of_above;
use crate::model::lemma_select_exists;
use crate::model::lemma_select_unique;
use crate::model::rank_of;
use crate::rank::Rank;
use crate::select::Select;
use crate::select::Select0;
use crate::set::ImpliedSet;
use crate::words::bit;
use crate::words::lemma_bit_of_zero;
use crate::words::lemma_ones_below_bound;
use crate::words::lemma_ones_below_monotonic;
use crate::words::ones_below;
use crate::words::rank64;
use crate::words::select64;
use vstd::prelude::*;
use vstd::slice::slice_to_vec;
use vstd::std_specs::bits::axiom_u64_trailing_zeros;
use vstd::std_specs::bits::u64_trailing_zeros;

verus! {

/// One select sample is kept for every 2^10 set bits.
pub const BLOCK_BITS: usize = 10;

/// Whether `xs` never decreases.
pub open spec fn nondecreasing(xs: Seq<u32>) -> bool {
    forall|i: int, j: int| 0 <= i <= j < xs.len() ==> xs[i] <= xs[j]
}

/// Whether word `w` holds the set bit that has `index` set bits before it.
pub open spec fn holds_one(words: Seq<u64>, w: int, index: int) -> bool {
    &&& 0 <= w < words.len()
    &&& word_ones(words, w) <= index < word_ones(words, w + 1)
}

/// Whether `randex` is the rank index of the words: entry `i` is the number
/// of set bits in the first `i` words, and there is one entry more than
/// there are words.
pub open spec fn is_randex(words: Seq<u64>, randex: Seq<u32>) -> bool {
    &&& randex.len() == words.len() + 1
    &&& forall|i: int| 0 <= i <= words.len() ==> #[trigger] randex[i] == word_ones(words, i)
}

/// Whether `seldex` is the select index of the words: entry `k` is the
/// index of the word that holds the set bit with `k * 2^10` set bits before
/// it, and there is an entry for every such bit.
pub open spec fn is_seldex(words: Seq<u64>, seldex: Seq<u32>) -> bool {
    &&& seldex.len() == (word_ones(words, words.len() as int) + 1023) / 1024
    &&& forall|k: int|
        0 <= k < seldex.len() ==> holds_one(words, #[trigger] seldex[k] as int, 1024 * k)
}

/// Whether the four parts make up a valid indexed bitmap: the words cover
/// the size, no bit is set behind it, the words and their set bits can be
/// counted in 32 bits, and the two indexes are those of the words.
pub open spec fn dense_valid(size: int, words: Seq<u64>, randex: Seq<u32>, seldex: Seq<u32>) -> bool {
    &&& 0 <= size <= 64 * words.len()
    &&& clean_tail(words, size)
    &&& words.len() <= u32::MAX
    &&& word_ones(words, words.len() as int) <= u32::MAX
    &&& is_randex(words, randex)
    &&& is_seldex(words, seldex)
}

/// What stands against building an indexed bitmap of `size` bits from the
/// words, if anything does.
pub open spec fn dense_obstacle(words: Seq<u64>, size: int) -> Option<BuildError> {
    if size > 64 * words.len() {
        Some(BuildError::SizeExceedsWords)
    } else if !clean_tail(words, size) {
        Some(BuildError::BitsBeyondSize)
    } else if words.len() > u32::MAX || word_ones(words, words.len() as int) > u32::MAX {
        Some(BuildError::IndexOverflow)
    } else {
        None
    }
}

/// A rank index is nondecreasing.
pub proof fn lemma_randex_nondecreasing(words: Seq<u64>, randex: Seq<u32>)
    requires
        is_randex(words, randex),
    ensures
        nondecreasing(randex),
{
    assert forall|i: int, j: int| 0 <= i <= j < randex.len() implies randex[i] <= randex[j] by {
        lemma_word_ones_monotonic(words, i, j);
    }
}

/// Only one word holds a given set bit.
pub proof fn lemma_holds_one_unique(words: Seq<u64>, v: int, w: int, index: int)
    requires
        holds_one(words, v, index),
        holds_one(words, w, index),
    ensures
        v == w,
{
    if v < w {
        lemma_word_ones_monotonic(words, v + 1, w);
    } else if w < v {
        lemma_word_ones_monotonic(words, w + 1, v);
    }
}

/// A word that leaves nothing when shifted down by `b` has no bit set at
/// `b` or above.
proof fn lemma_high_bits_clear(x: u64, b: u64, p: u64)
    requires
        x >> b == 0,
        b <= p < 64,
    ensures
        !bit(x, p),
{
    assert(!bit(x, p)) by (bit_vector)
        requires
            x >> b == 0,
            b <= p < 64,
    ;
}

/// A word that leaves something when shifted down by `b` has a bit set at
/// `b` or above.
proof fn lemma_high_bit_set(x: u64, b: u64) -> (p: u64)
    requires
        b < 64,
        x >> b != 0,
    ensures
        b <= p < 64,
        bit(x, p),
{
    let y = x >> b;
    axiom_u64_trailing_zeros(y);
    let t = u64_trailing_zeros(y) as u64;
    let p = (b + t) as u64;
    assert(b <= p < 64 && bit(x, p)) by (bit_vector)
        requires
            bit(x >> b, t),
            b < 64,
            t < 64,
            p == b + t,
    ;
    p
}

/// The first index at which `xs` holds `x` or more, where `xs` never
/// decreases.
pub fn lower_bound(x: u32, xs: &[u32]) -> (r: usize)
    ensures
        r <= xs@.len(),
        nondecreasing(xs@) ==> forall|j: int| 0 <= j < r ==> xs@[j] < x,
        nondecreasing(xs@) ==> forall|j: int| r <= j < xs@.len() ==> xs@[j] >= x,
{
    let mut first: usize = 0;
    let mut count: usize = xs.len();
    while count > 0
        invariant
            first + count <= xs@.len() <= usize::MAX,
            nondecreasing(xs@) ==> forall|j: int| 0 <= j < first ==> xs@[j] < x,
            nondecreasing(xs@) ==> forall|j: int| first + count <= j < xs@.len() ==> xs@[j] >= x,
        decreases count,
    {
        let step = count / 2;
        let i = first + step;
        if xs[i] < x {
            first = i + 1;
            count -= step + 1;
        } else {
            count = step;
        }
    }
    first
}

/// The position of the set bit that has `index` set bits before it, found
/// by binary search in the rank index.
pub fn select_from_rank(randex: &[u32], words: &[u64], index: usize) -> (r: u64)
    requires
        is_randex(words@, randex@),
        words@.len() <= u32::MAX,
        index < word_ones(words@, words@.len() as int),
    ensures
        holds_one(words@, r as int / 64, index as int),
        bit(words@[r as int / 64], r % 64),
        ones_below(words@[r as int / 64], (r % 64) as nat) == index - word_ones(
            words@,
            r as int / 64,
        ),
{
    proof {
        lemma_randex_nondecreasing(words@, randex@);
        assert(randex@[words@.len() as int] == word_ones(words@, words@.len() as int));
        assert(randex@[0] == word_ones(words@, 0));
    }
    let i0 = lower_bound(index as u32, randex);
    let mut i = if i0 > 0 {
        i0 - 1
    } else {
        i0
    };
    while i + 1 < randex.len() && randex[i + 1] <= index as u32
        invariant
            is_randex(words@, randex@),
            index < word_ones(words@, words@.len() as int),
            words@.len() <= u32::MAX,
            i < words@.len(),
            randex@[i as int] <= index,
        decreases words@.len() - i,
    {
        i += 1;
    }
    assert(randex@[i as int] == word_ones(words@, i as int));
    assert(randex@[i + 1] == word_ones(words@, i + 1));
    let r0 = randex[i] as usize;
    let p = select64(words[i], index - r0);
    64 * i as u64 + p
}

/// A bitmap of `size` bits with a popcount index (`randex`) and a sampled
/// select index (`seldex`). The set it stands for is the set of the
/// positions of its set bits.
#[derive(Debug)]
pub struct Dense64 {
    size_: u64,
    words: Vec<u64>,
    randex: Vec<u32>,
    seldex: Vec<u32>,
}

/// Whether no bit of the words is set at the position `size` or behind it.
fn tail_is_clean(words: &[u64], size: u64) -> (r: bool)
    requires
        size <= 64 * words@.len(),
    ensures
        r == clean_tail(words@, size as int),
{
    let n = words.len();
    let w0 = (size / 64) as usize;
    if w0 >= n {
        return true;
    }
    let b = size % 64;
    if words[w0] >> b != 0 {
        proof {
            let p = lemma_high_bit_set(words@[w0 as int], b);
            let at = 64 * w0 + p;
            assert(at / 64 == w0 && at % 64 == p);
            assert(word_bit(words@, at));
        }
        return false;
    }
    let mut w = w0 + 1;
    while w < n
        invariant
            w0 < w <= n,
            w0 == size / 64,
            n == words@.len(),
            forall|v: int| w0 < v < w ==> words@[v] == 0,
        decreases n - w,
    {
        if words[w] != 0 {
            proof {
                let x = words@[w as int];
                assert(x >> 0 == x) by (bit_vector);
                let p = lemma_high_bit_set(x, 0);
                let at = 64 * w + p;
                assert(at / 64 == w && at % 64 == p);
                assert(word_bit(words@, at));
            }
            return false;
        }
        w += 1;
    }
    proof {
        assert forall|p: int| size <= p < 64 * words@.len() implies !word_bit(words@, p) by {
            if p / 64 == w0 {
                lemma_high_bits_clear(words@[w0 as int], b, (p % 64) as u64);
            } else {
                lemma_bit_of_zero((p % 64) as u64);
            }
        }
    }
    true
}

impl Dense64 {
    /// The number of bit positions.
    pub closed spec fn spec_size(&self) -> u64 {
        self.size_
    }

    /// The words that hold the bits.
    pub closed spec fn spec_words(&self) -> Seq<u64> {
        self.words@
    }

    /// The rank index.
    pub closed spec fn spec_randex(&self) -> Seq<u32> {
        self.randex@
    }

    /// The select index.
    pub closed spec fn spec_seldex(&self) -> Seq<u32> {
        self.seldex@
    }

    /// Build the indexed bitmap of the first `size_` bits of the words.
    ///
    /// The words must hold at least `size_` bits and no set bit behind
    /// them, and the 32-bit indexes must be able to count the words and
    /// their set bits.
    pub fn new(size_: u64, words: &[u64]) -> (r: Result<Dense64, BuildError>)
        ensures
            match r {
                Ok(d) => {
                    &&& dense_obstacle(words@, size_ as int) is None
                    &&& d.wf()
                    &&& d.spec_size() == size_
                    &&& d.spec_words() == words@
                },
                Err(e) => dense_obstacle(words@, size_ as int) == Some(e),
            },
    {
        let n = words.len();
        if size_ / 64 > n as u64 || (size_ / 64 == n as u64 && size_ % 64 != 0) {
            return Err(BuildError::SizeExceedsWords);
        }
        if !tail_is_clean(words, size_) {
            return Err(BuildError::BitsBeyondSize);
        }
        if n > u32::MAX as usize {
            return Err(BuildError::IndexOverflow);
        }
        let copy: Vec<u64> = slice_to_vec(words);

        let mut randex: Vec<u32> = Vec::new();
        let mut count: u64 = 0;
        let mut i: usize = 0;
        while i < n
            invariant
                copy@ == words@,
                size_ <= 64 * words@.len(),
                clean_tail(words@, size_ as int),
                n == words@.len(),
                i <= n,
                count <= u32::MAX,
                count == word_ones(words@, i as int),
                randex@.len() == i,
                forall|j: int| 0 <= j < i ==> #[trigger] randex@[j] == word_ones(words@, j),
            decreases n - i,
        {
            let x = copy[i];
            let m = x.count_ones();
            randex.push(count as u32);
            count += m as u64;
            i += 1;
            if count > u32::MAX as u64 {
                proof {
                    lemma_word_ones_monotonic(words@, i as int, n as int);
                }
                return Err(BuildError::IndexOverflow);
            }
        }
        randex.push(count as u32);

        let mut seldex: Vec<u32> = Vec::new();
        let mut i: u64 = 0;
        assert(0u64 << 10 == 0) by (bit_vector);
        while i << 10 < count
            invariant
                copy@ == words@,
                is_randex(words@, randex@),
                words@.len() <= u32::MAX,
                count == word_ones(words@, words@.len() as int),
                count <= u32::MAX,
                i << 10 == 1024 * i,
                1024 * i < count + 1024,
                seldex@.len() == i,
                forall|k: int| 0 <= k < i ==> holds_one(words@, #[trigger] seldex@[k] as int, 1024 * k),
            decreases count + 1024 - 1024 * i,
        {
            let index: u64 = i << 10;
            let value = (select_from_rank(randex.as_slice(), copy.as_slice(), index as usize)
                / 64) as u32;
            seldex.push(value);
            i += 1;
            assert(i << 10 == 1024 * i) by (bit_vector)
                requires
                    i <= 0x40_0000,
            ;
        }

        Ok(Dense64 { size_, words: copy, randex, seldex })
    }
}

impl ImpliedSet for Dense64 {
    /// The words cover the size, no bit is set behind it, and the two
    /// indexes are those of the words.
    open spec fn wf(&self) -> bool {
        dense_valid(
            self.spec_size() as int,
            self.spec_words(),
            self.spec_randex(),
            self.spec_seldex(),
        )
    }

    /// The positions of the set bits.
    open spec fn members(&self) -> Set<int> {
        bit_members(self.spec_words(), self.spec_size() as int)
    }

    open spec fn domain_size(&self) -> nat {
        self.spec_size() as nat
    }

    proof fn lemma_members_in_domain(&self) {
    }

    fn count(&self) -> (r: usize) {
        proof {
            self.lemma_count();
        }
        self.randex[self.randex.len() - 1] as usize
    }

    fn size(&self) -> (r: u64) {
        self.size_
    }
}

impl Dense64 {
    /// The number of members is the number of set bits in all the words.
    pub proof fn lemma_count(&self)
        requires
            self.wf(),
        ensures
            rank_of(self.members(), self.domain_size() as int) == word_ones(
                self.spec_words(),
                self.spec_words().len() as int,
            ),
    {
        let words = self.spec_words();
        lemma_rank_of_bits(words, self.spec_size() as int, words.len() as int, 0);
        lemma_rank_of_above(self.members(), self.spec_size() as int, 64 * (words.len() as int));
    }
}

impl Dense64 {
    /// The shape of the two indexes of a valid bitmap: the rank index
    /// starts at 0, ends at the count, and grows by at most 64 from one
    /// word to the next; and each entry of the select index is the smallest
    /// word index at which the rank index behind the word is above the
    /// entry's number of set bits.
    pub proof fn lemma_index_shape(&self)
        requires
            self.wf(),
        ensures
            self.spec_randex()[0] == 0,
            self.spec_randex().last() == rank_of(self.members(), self.domain_size() as int),
            nondecreasing(self.spec_randex()),
            forall|i: int|
                0 <= i < self.spec_words().len() ==> #[trigger] self.spec_randex()[i + 1]
                    - self.spec_randex()[i] <= 64,
            forall|k: int, w: int|
                0 <= k < self.spec_seldex().len() && 0 <= w < self.spec_words().len() ==> (w
                    >= #[trigger] self.spec_seldex()[k] <==> #[trigger] self.spec_randex()[w + 1]
                    > 1024 * k),
    {
        let words = self.spec_words();
        let randex = self.spec_randex();
        self.lemma_count();
        lemma_randex_nondecreasing(words, randex);
        assert(randex[0] == word_ones(words, 0));
        assert(randex[words.len() as int] == word_ones(words, words.len() as int));
        assert forall|i: int| 0 <= i < words.len() implies #[trigger] randex[i + 1] - randex[i]
            <= 64 by {
            assert(randex[i] == word_ones(words, i));
            lemma_ones_below_bound(words[i], 64);
        }
        assert forall|k: int, w: int|
            0 <= k < self.spec_seldex().len() && 0 <= w < words.len() implies (w
                >= #[trigger] self.spec_seldex()[k] <==> #[trigger] randex[w + 1] > 1024 * k) by {
            let at = self.spec_seldex()[k] as int;
            assert(holds_one(words, at, 1024 * k));
            assert(randex[w + 1] == word_ones(words, w + 1));
            if w >= at {
                lemma_word_ones_monotonic(words, at + 1, w + 1);
            } else {
                lemma_word_ones_monotonic(words, w + 1, at);
            }
        }
    }
}

impl Rank for Dense64 {
    fn rank(&self, value: u64) -> (r: usize) {
        if value >= self.size_ {
            proof {
                self.lemma_count();
                lemma_rank_of_above(self.members(), self.spec_size() as int, value as int);
            }
            return self.randex[self.randex.len() - 1] as usize;
        }
        let w = (value / 64) as usize;
        let b = value & 63;
        assert(value & 63 == value % 64) by (bit_vector);
        proof {
            let words = self.spec_words();
            lemma_rank_of_bits(words, self.spec_size() as int, w as int, b as int);
            lemma_ones_below_monotonic(words[w as int], b as nat, 64);
            lemma_word_ones_monotonic(words, w + 1, words.len() as int);
        }
        self.randex[w] as usize + rank64(self.words[w], b) as usize
    }
}

impl Select for Dense64 {
    fn select(&self, index: usize) -> (r: u64) {
        proof {
            self.lemma_count();
        }
        assert(index >> 10 == index / 1024) by (bit_vector);
        let mut i = self.seldex[index >> BLOCK_BITS] as usize;
        while i + 1 < self.randex.len() && self.randex[i + 1] <= index as u32
            invariant
                self.wf(),
                index < word_ones(self.spec_words(), self.spec_words().len() as int),
                i < self.spec_words().len(),
                self.spec_randex()[i as int] <= index,
            decreases self.spec_words().len() - i,
        {
            i += 1;
        }
        let r0 = self.randex[i] as usize;
        let p = select64(self.words[i], index - r0);
        let r = 64 * i as u64 + p;
        proof {
            let words = self.spec_words();
            let s = self.members();
            assert(r as int / 64 == i && r as int % 64 == p);
            assert(word_bit(words, r as int));
            lemma_rank_of_bits(words, self.spec_size() as int, i as int, p as int);
            let q = lemma_select_exists(s, self.spec_size() as int, index as nat);
            lemma_select_unique(s, r as int, q);
        }
        r
    }
}

impl Select0 for Dense64 {

}

/// Whether two vectors hold the same numbers.
fn same_u32s(a: &Vec<u32>, b: &Vec<u32>) -> (r: bool)
    ensures
        r == (a@ == b@),
{
    if a.len() != b.len() {
        return false;
    }
    let mut i: usize = 0;
    while i < a.len()
        invariant
            i <= a@.len() == b@.len(),
            forall|j: int| 0 <= j < i ==> a@[j] == b@[j],
        decreases a@.len() - i,
    {
        if a[i] != b[i] {
            return false;
        }
        i += 1;
    }
    assert(a@ =~= b@);
    true
}

/// The rank index and the select index of given words are the only ones.
pub proof fn lemma_indexes_unique(
    words: Seq<u64>,
    randex: Seq<u32>,
    seldex: Seq<u32>,
    other_randex: Seq<u32>,
    other_seldex: Seq<u32>,
)
    requires
        is_randex(words, randex),
        is_seldex(words, seldex),
        is_randex(words, other_randex),
        is_seldex(words, other_seldex),
    ensures
        randex == other_randex,
        seldex == other_seldex,
{
    assert(randex =~= other_randex);
    assert forall|k: int| 0 <= k < seldex.len() implies seldex[k] == other_seldex[k] by {
        lemma_holds_one_unique(words, seldex[k] as int, other_seldex[k] as int, 1024 * k);
    }
    assert(seldex =~= other_seldex);
}

/// What is left of the bytes behind the four parts of a bitmap at their
/// front; a short read where the bytes end before the parts do.
pub open spec fn dense_frame(bytes: Seq<u8>) -> Result<Seq<u8>, LoadError> {
    if bytes.len() < 8 {
        Err(LoadError::ShortRead)
    } else {
        match vec_rest(bytes.skip(8), 8) {
            Err(e) => Err(e),
            Ok(at_randex) => match vec_rest(at_randex, 4) {
                Err(e) => Err(e),
                Ok(at_seldex) => vec_rest(at_seldex, 4),
            },
        }
    }
}

/// The size at the front of the bytes of a bitmap.
pub open spec fn framed_size(bytes: Seq<u8>) -> nat {
    le_value(bytes.take(8))
}

/// The words in the bytes of a bitmap.
pub open spec fn framed_words(bytes: Seq<u8>) -> Seq<u64> {
    as_u64s(vec_values(bytes.skip(8), 8))
}

/// The rank index in the bytes of a bitmap.
pub open spec fn framed_randex(bytes: Seq<u8>) -> Seq<u32> {
    as_u32s(vec_values(vec_rest(bytes.skip(8), 8)->Ok_0, 4))
}

/// The select index in the bytes of a bitmap.
pub open spec fn framed_seldex(bytes: Seq<u8>) -> Seq<u32> {
    as_u32s(vec_values(vec_rest(vec_rest(bytes.skip(8), 8)->Ok_0, 4)->Ok_0, 4))
}

/// Read the four parts of a bitmap, as they stand in the bytes.
fn read_parts(source: &mut Source) -> (r: Result<(u64, Vec<u64>, Vec<u32>, Vec<u32>), LoadError>)
    ensures
        match r {
            Ok(parts) => {
                &&& dense_frame(old(source)@) == Ok::<Seq<u8>, LoadError>(final(source)@)
                &&& parts.0 == framed_size(old(source)@)
                &&& parts.1@ == framed_words(old(source)@)
                &&& parts.2@ == framed_randex(old(source)@)
                &&& parts.3@ == framed_seldex(old(source)@)
                &&& old(source)@ == le_bytes(parts.0 as nat, 8) + vec_bytes(values_of(parts.1@), 8)
                    + vec_bytes(values_of(parts.2@), 4) + vec_bytes(values_of(parts.3@), 4)
                    + final(source)@
            },
            Err(e) => dense_frame(old(source)@) == Err::<Seq<u8>, LoadError>(e),
        },
{
    let ghost from = source@;
    let size_: u64 = match load_u64(source) {
        Ok(x) => x,
        Err(e) => {
            return Err(e);
        },
    };
    let ghost at_words = source@;
    let words: Vec<u64> = match load_vec_u64(source) {
        Ok(x) => x,
        Err(e) => {
            return Err(e);
        },
    };
    let ghost at_randex = source@;
    let randex: Vec<u32> = match load_vec_u32(source) {
        Ok(x) => x,
        Err(e) => {
            return Err(e);
        },
    };
    let ghost at_seldex = source@;
    let seldex: Vec<u32> = match load_vec_u32(source) {
        Ok(x) => x,
        Err(e) => {
            return Err(e);
        },
    };
    proof {
        lemma_number_parsed(from);
        lemma_vec_parsed(at_words, 8);
        lemma_vec_parsed(at_randex, 4);
        lemma_vec_parsed(at_seldex, 4);
        lemma_as_u64s(words@);
        lemma_as_u32s(randex@);
        lemma_as_u32s(seldex@);
        lemma_joined(
            le_bytes(size_ as nat, 8),
            vec_bytes(values_of(words@), 8),
            vec_bytes(values_of(randex@), 4),
            vec_bytes(values_of(seldex@), 4),
            source@,
        );
    }
    Ok((size_, words, randex, seldex))
}

impl Dense64 {
    /// Make a bitmap of the four parts, where they make up a valid one.
    pub fn from_parts(size_: u64, words: Vec<u64>, randex: Vec<u32>, seldex: Vec<u32>) -> (r:
        Option<Dense64>)
        ensures
            match r {
                Some(d) => {
                    &&& d.wf()
                    &&& d.spec_size() == size_
                    &&& d.spec_words() == words@
                    &&& d.spec_randex() == randex@
                    &&& d.spec_seldex() == seldex@
                },
                None => !dense_valid(size_ as int, words@, randex@, seldex@),
            },
    {
        match Dense64::new(size_, words.as_slice()) {
            Ok(d) => {
                proof {
                    if dense_valid(size_ as int, words@, randex@, seldex@) {
                        lemma_indexes_unique(
                            words@,
                            randex@,
                            seldex@,
                            d.spec_randex(),
                            d.spec_seldex(),
                        );
                    }
                }
                if same_u32s(&d.randex, &randex) && same_u32s(&d.seldex, &seldex) {
                    Some(d)
                } else {
                    None
                }
            },
            Err(_) => None,
        }
    }
}

/// What is left of the bytes behind the valid bitmap at their front, or why
/// there is none: the four parts have to be there, and to make up a valid
/// bitmap.
#[verifier::opaque]
pub open spec fn dense_decoded(bytes: Seq<u8>) -> Result<Seq<u8>, LoadError> {
    match dense_frame(bytes) {
        Err(e) => Err(e),
        Ok(rest) => if dense_valid(
            framed_size(bytes) as int,
            framed_words(bytes),
            framed_randex(bytes),
            framed_seldex(bytes),
        ) {
            Ok(rest)
        } else {
            Err(LoadError::Inconsistent)
        },
    }
}

impl Persistent for Dense64 {
    open spec fn storable(&self) -> bool {
        self.wf()
    }

    /// The size in 8 bytes, then the words, the rank index and the select
    /// index, each as a vector.
    open spec fn stored(&self) -> Seq<u8> {
        le_bytes(self.spec_size() as nat, 8) + vec_bytes(values_of(self.spec_words()), 8)
            + vec_bytes(values_of(self.spec_randex()), 4) + vec_bytes(
            values_of(self.spec_seldex()),
            4,
        )
    }

    open spec fn decoded(bytes: Seq<u8>) -> Result<Seq<u8>, LoadError> {
        dense_decoded(bytes)
    }

    fn save(&self, sink: &mut Vec<u8>) {
        self.size_.put(sink);
        save_vec(sink, self.words.as_slice());
        save_vec(sink, self.randex.as_slice());
        save_vec(sink, self.seldex.as_slice());
        assert(sink@ =~= old(sink)@ + self.stored());
    }

    fn load(source: &mut Source) -> (r: Result<Box<Self>, LoadError>) {
        proof {
            reveal(dense_decoded);
        }
        match read_parts(source) {
            Ok((size_, words, randex, seldex)) => match Dense64::from_parts(
                size_,
                words,
                randex,
                seldex,
            ) {
                Some(d) => Ok(Box::new(d)),
                None => Err(LoadError::Inconsistent),
            },
            Err(e) => Err(e),
        }
    }
}

impl Dense64 {
    /// Reading the bytes of a valid bitmap succeeds and leaves what follows
    /// them; and a valid bitmap whose bytes begin as those of another has
    /// the same parts.
    pub proof fn lemma_round_trip(&self, tail: Seq<u8>, back: &Dense64, rest: Seq<u8>)
        requires
            self.wf(),
        ensures
            Dense64::decoded(self.stored() + tail) == Ok::<Seq<u8>, LoadError>(tail),
            back.wf() && self.stored() + tail == back.stored() + rest ==> {
                &&& back.spec_size() == self.spec_size()
                &&& back.spec_words() == self.spec_words()
                &&& back.spec_randex() == self.spec_randex()
                &&& back.spec_seldex() == self.spec_seldex()
                &&& back.members() == self.members()
                &&& back.domain_size() == self.domain_size()
                &&& rest == tail
            },
    {
        self.lemma_parts(tail);
        if back.wf() && self.stored() + tail == back.stored() + rest {
            back.lemma_parts(rest);
        }
    }

    /// What the bytes of a valid bitmap, with anything behind them, hold.
    proof fn lemma_parts(&self, tail: Seq<u8>)
        requires
            self.wf(),
        ensures
            ({
                let s = self.stored() + tail;
                &&& dense_frame(s) == Ok::<Seq<u8>, LoadError>(tail)
                &&& framed_size(s) == self.spec_size()
                &&& framed_words(s) == self.spec_words()
                &&& framed_randex(s) == self.spec_randex()
                &&& framed_seldex(s) == self.spec_seldex()
                &&& Dense64::decoded(s) == Ok::<Seq<u8>, LoadError>(tail)
            }),
    {
        reveal(dense_decoded);
        lemma_spans();
        let s = self.stored() + tail;
        let words = values_of(self.spec_words());
        let randex = values_of(self.spec_randex());
        let seldex = values_of(self.spec_seldex());
        let third = vec_bytes(seldex, 4) + tail;
        let second = vec_bytes(randex, 4) + third;
        let first = vec_bytes(words, 8) + second;
        lemma_as_u64s(self.spec_words());
        lemma_as_u32s(self.spec_randex());
        lemma_as_u32s(self.spec_seldex());
        lemma_joined(
            le_bytes(self.spec_size() as nat, 8),
            vec_bytes(words, 8),
            vec_bytes(randex, 4),
            vec_bytes(seldex, 4),
            tail,
        );
        assert(s == le_bytes(self.spec_size() as nat, 8) + first);
        lemma_number_first(self.spec_size() as nat, first);
        lemma_vec_round_trip(words, 8, second);
        lemma_vec_round_trip(randex, 4, third);
        lemma_vec_round_trip(seldex, 4, tail);
    }
}

} // verus!
