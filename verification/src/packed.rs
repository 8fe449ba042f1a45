//! A vector of unsigned integers of one width, packed bit by bit into
//! 64-bit words, least significant bit first. An entry may lie across the
//! border of two words.

use crate::bitvec::word_bit;
use crate::words::bit;
use crate::words::lemma_low_mask;
use vstd::arithmetic::div_mod::lemma_breakdown;
use vstd::arithmetic::div_mod::lemma_small_mod;
use vstd::arithmetic::power2::lemma2_to64;
use vstd::arithmetic::power2::lemma_pow2_pos;
use vstd::arithmetic::power2::lemma_pow2_strictly_increases;
use vstd::arithmetic::power2::lemma_pow2_unfold;
use vstd::arithmetic::power2::pow2;
use vstd::bits::lemma_u64_shl_is_mul;
use vstd::bits::lemma_u64_shr_is_div;
use vstd::prelude::*;

verus! {

/// The number whose bits, least significant first, are `bits`.
pub open spec fn bits_value(bits: Seq<bool>) -> nat
    decreases bits.len(),
{
    if bits.len() == 0 {
        0
    } else {
        bits_value(bits.drop_last()) + if bits.last() { pow2((bits.len() - 1) as nat) } else { 0 }
    }
}

/// The `b` bits of the word array from position `at`.
pub open spec fn field_bits(words: Seq<u64>, at: int, b: nat) -> Seq<bool> {
    Seq::new(b, |k: int| word_bit(words, at + k))
}

/// The number that the `b` bits of the word array from position `at` hold.
pub open spec fn field(words: Seq<u64>, at: int, b: nat) -> nat {
    bits_value(field_bits(words, at, b))
}

/// The number that entry `i` of a word array of entries of `b` bits holds.
pub open spec fn entry(words: Seq<u64>, i: int, b: nat) -> nat {
    field(words, i * b, b)
}

/// The `b` lowest bits of a word.
pub open spec fn word_bits(y: u64, b: nat) -> Seq<bool> {
    Seq::new(b, |k: int| bit(y, k as u64))
}

/// The mask of the `b` lowest bits.
pub open spec fn low_mask(b: u64) -> u64 {
    if b >= 64 {
        u64::MAX
    } else {
        ((1u64 << b) - 1) as u64
    }
}

/// A number of `b` bits is below `2^b`.
pub proof fn lemma_bits_value_bound(bits: Seq<bool>)
    ensures
        bits_value(bits) < pow2(bits.len()),
    decreases bits.len(),
{
    lemma2_to64();
    if bits.len() > 0 {
        lemma_bits_value_bound(bits.drop_last());
        lemma_pow2_unfold(bits.len());
    }
}

/// The `b` lowest bits of a word make up the word modulo `2^b`.
pub proof fn lemma_word_is_sum(y: u64, b: nat)
    requires
        b <= 64,
    ensures
        bits_value(word_bits(y, b)) == y as nat % pow2(b),
    decreases b,
{
    lemma2_to64();
    if b > 0 {
        let s = (b - 1) as nat;
        let p = pow2(s) as int;
        lemma_word_is_sum(y, s);
        lemma_pow2_pos(s);
        lemma_pow2_unfold(b);
        lemma_breakdown(y as int, p, 2);
        lemma_u64_shr_is_div(y, s as u64);
        let z = y >> (s as u64);
        assert(z & 1 == z % 2) by (bit_vector);
        assert(word_bits(y, b).last() == (z % 2 == 1));
        assert(word_bits(y, b).drop_last() =~= word_bits(y, s));
        assert(p * 2 == pow2(b));
        assert(z == y as int / p);
        let top = (y as int / p) % 2;
        assert(p * top == if top == 1 { p } else { 0 }) by (nonlinear_arith)
            requires
                top == 0 || top == 1,
        ;
    }
}

/// A word below `2^b` is the number that its `b` lowest bits make up.
pub proof fn lemma_word_value(y: u64, b: nat)
    requires
        b <= 64,
        y < pow2(b),
    ensures
        bits_value(word_bits(y, b)) == y,
{
    lemma_word_is_sum(y, b);
    lemma_pow2_pos(b);
    lemma_small_mod(y as nat, pow2(b));
}

/// The mask of the `b` lowest bits is `2^b - 1`.
pub proof fn lemma_low_mask_value(b: u64)
    requires
        b <= 64,
    ensures
        low_mask(b) == pow2(b as nat) - 1,
{
    lemma2_to64();
    if b < 64 {
        lemma_pow2_pos(b as nat);
        lemma_pow2_strictly_increases(b as nat, 64);
        assert(1 * pow2(b as nat) == pow2(b as nat));
        lemma_u64_shl_is_mul(1, b);
    }
}

/// Bits read from within one word: bit `k` of the entry is bit `o + k` of
/// the word.
proof fn lemma_read_within(x: u64, o: u64, b: u64, k: u64)
    requires
        o < 64,
        o + b <= 64,
        k < b,
    ensures
        bit((x >> o) & low_mask(b), k) == bit(x, (o + k) as u64),
        (x >> o) & low_mask(b) <= low_mask(b),
{
    let mask = low_mask(b);
    let at = (o + k) as u64;
    assert(bit((x >> o) & mask, k) == bit(x, at) && (x >> o) & mask <= mask) by (bit_vector)
        requires
            o < 64,
            o + b <= 64,
            k < b,
            at == o + k,
            mask == (if b >= 64 {
                0xffff_ffff_ffff_ffffu64
            } else {
                ((1u64 << b) - 1) as u64
            }),
    ;
}

/// Bits read across two words: the low bits of the entry are the high bits
/// of the first word, and the others the low bits of the second.
proof fn lemma_read_across(x: u64, y: u64, o: u64, b: u64, k: u64)
    requires
        0 < o < 64,
        b <= 64,
        o + b > 64,
        k < b,
    ensures
        bit(((x >> o) | (y << ((64 - o) as u64))) & low_mask(b), k) == (if k < 64 - o {
            bit(x, (o + k) as u64)
        } else {
            bit(y, (k - (64 - o)) as u64)
        }),
        ((x >> o) | (y << ((64 - o) as u64))) & low_mask(b) <= low_mask(b),
{
    let mask = low_mask(b);
    let up = (64 - o) as u64;
    let r = ((x >> o) | (y << up)) & mask;
    let from_x = if k < up { (o + k) as u64 } else { 0u64 };
    let from_y = if k < up { 0u64 } else { (k - up) as u64 };
    assert(r <= mask && bit(r, k) == (if k < up {
        bit(x, from_x)
    } else {
        bit(y, from_y)
    })) by (bit_vector)
        requires
            0 < o < 64,
            b <= 64,
            o + b > 64,
            k < b,
            up == 64 - o,
            r == ((x >> o) | (y << up)) & mask,
            from_x == (if k < up { (o + k) as u64 } else { 0u64 }),
            from_y == (if k < up { 0u64 } else { (k - up) as u64 }),
            mask == (if b >= 64 {
                0xffff_ffff_ffff_ffffu64
            } else {
                ((1u64 << b) - 1) as u64
            }),
    ;
}

/// Bits written from bit `o` of a word on: the bits of the entry stand
/// where they belong, and the other bits are as before.
proof fn lemma_write_low(x: u64, v: u64, o: u64, b: u64, p: u64)
    requires
        o < 64,
        b <= 64,
        v <= low_mask(b),
        p < 64,
    ensures
        bit((x & !(low_mask(b) << o)) | (v << o), p) == (if o <= p < o + b {
            bit(v, (p - o) as u64)
        } else {
            bit(x, p)
        }),
{
    let mask = low_mask(b);
    let from_v = if o <= p { (p - o) as u64 } else { 0u64 };
    assert(bit((x & !(mask << o)) | (v << o), p) == (if o <= p && p - o < b {
        bit(v, from_v)
    } else {
        bit(x, p)
    })) by (bit_vector)
        requires
            o < 64,
            b <= 64,
            v <= mask,
            p < 64,
            from_v == (if o <= p { (p - o) as u64 } else { 0u64 }),
            mask == (if b >= 64 {
                0xffff_ffff_ffff_ffffu64
            } else {
                ((1u64 << b) - 1) as u64
            }),
    ;
}

/// Bits written to the low end of the second word of an entry that lies
/// across two words.
proof fn lemma_write_high(y: u64, v: u64, o: u64, b: u64, p: u64)
    requires
        0 < o < 64,
        b <= 64,
        o + b > 64,
        v <= low_mask(b),
        p < 64,
    ensures
        bit((y & !(low_mask(b) >> ((64 - o) as u64))) | (v >> ((64 - o) as u64)), p) == (if p + 64
            - o < b {
            bit(v, (p + 64 - o) as u64)
        } else {
            bit(y, p)
        }),
{
    let mask = low_mask(b);
    let up = (64 - o) as u64;
    let from_v = if p + up < b { (p + up) as u64 } else { 0u64 };
    assert(bit((y & !(mask >> up)) | (v >> up), p) == (if p + up < b {
        bit(v, from_v)
    } else {
        bit(y, p)
    })) by (bit_vector)
        requires
            0 < o < 64,
            b <= 64,
            o + b > 64,
            v <= mask,
            p < 64,
            up == 64 - o,
            from_v == (if p + up < b { (p + up) as u64 } else { 0u64 }),
            mask == (if b >= 64 {
                0xffff_ffff_ffff_ffffu64
            } else {
                ((1u64 << b) - 1) as u64
            }),
    ;
}

/// Entries of `b` bits do not overlap: the bits of entry `j` lie outside
/// those of entry `i`.
proof fn lemma_entries_apart(i: int, j: int, b: int, k: int)
    by (nonlinear_arith)
    requires
        0 <= i,
        0 <= j,
        i != j,
        0 <= k < b,
    ensures
        j * b + k < i * b || j * b + k >= i * b + b,
{
}

/// The bits of an entry lie within the words that hold all the entries.
proof fn lemma_entry_within(j: int, n: int, b: int, k: int, words: int)
    by (nonlinear_arith)
    requires
        0 <= j < n,
        0 <= k < b,
        n * b <= 64 * words,
    ensures
        0 <= j * b + k < 64 * words,
        (j * b + k) / 64 < words,
{
}

/// The mask of the `b` lowest bits, computed.
fn mask_of(b: usize) -> (r: u64)
    requires
        b <= 64,
    ensures
        r == low_mask(b as u64),
{
    if b >= 64 {
        u64::MAX
    } else {
        proof {
            lemma_low_mask(b as u64);
        }
        (1u64 << (b as u64)) - 1
    }
}

/// A bit-packed vector of unsigned integers of `b` bits each.
pub struct PackedVec {
    b: usize,
    n: usize,
    words: Vec<u64>,
}

impl View for PackedVec {
    type V = Seq<u64>;

    /// The values, in order.
    open spec fn view(&self) -> Seq<u64> {
        Seq::new(
            self.spec_len(),
            |i: int| entry(self.spec_words(), i, self.width()) as u64,
        )
    }
}

impl PackedVec {
    /// The width of the values in bits.
    pub closed spec fn width(&self) -> nat {
        self.b as nat
    }

    /// The number of values.
    pub closed spec fn spec_len(&self) -> nat {
        self.n as nat
    }

    /// The words that hold the bits.
    pub closed spec fn spec_words(&self) -> Seq<u64> {
        self.words@
    }

    /// The invariant of the representation: a width of at most 64 bits, and
    /// words enough for the bits of the values.
    pub open spec fn wf(&self) -> bool {
        &&& self.width() <= 64
        &&& self.spec_len() * self.width() <= 64 * self.spec_words().len()
        &&& self.spec_len() * self.width() <= usize::MAX
    }

    /// Every value is below two to the power of the width.
    pub proof fn lemma_values_fit(&self, i: int)
        requires
            self.wf(),
            0 <= i < self@.len(),
        ensures
            self@[i] < pow2(self.width()),
            self@[i] == entry(self.spec_words(), i, self.width()),
    {
        lemma_bits_value_bound(field_bits(self.spec_words(), i * self.width(), self.width()));
        lemma2_to64();
        if self.width() < 64 {
            lemma_pow2_strictly_increases(self.width(), 64);
        }
    }

    /// Create an empty vector for integers of `b` bits.
    pub fn new(b: usize) -> (r: PackedVec)
        requires
            b <= 64,
        ensures
            r.wf(),
            r.width() == b,
            r@ == Seq::<u64>::empty(),
    {
        let r = PackedVec { b, n: 0, words: Vec::new() };
        assert(r.spec_len() * r.width() == 0) by (nonlinear_arith)
            requires
                r.spec_len() == 0,
        ;
        assert(r@ =~= Seq::<u64>::empty());
        r
    }

    /// Return the length of the vector.
    pub fn len(&self) -> (r: usize)
        ensures
            r == self@.len(),
    {
        self.n
    }

    /// The first bit of entry `index`, as a word and a bit within it.
    fn locate(&self, index: usize) -> (r: (usize, u64))
        requires
            self.wf(),
            index < self.spec_len(),
        ensures
            r.0 == (index * self.width()) / 64,
            r.1 == (index * self.width()) % 64,
            index * self.width() + self.width() <= self.spec_len() * self.width(),
            r.1 + self.width() > 64 ==> r.0 + 1 < self.spec_words().len(),
            self.width() > 0 ==> r.0 < self.spec_words().len(),
    {
        proof {
            let i = index as int;
            let n = self.n as int;
            let b = self.b as int;
            assert(0 <= i * b && i * b + b <= n * b) by (nonlinear_arith)
                requires
                    0 <= i < n,
                    0 <= b,
            ;
        }
        let at = index * self.b;
        (at / 64, (at % 64) as u64)
    }

    /// Get an element from the vector.
    pub fn get(&self, index: usize) -> (r: u64)
        requires
            self.wf(),
            index < self@.len(),
        ensures
            r == self@[index as int],
    {
        let (w, o) = self.locate(index);
        let b = self.b as u64;
        if b == 0 {
            return 0;
        }
        let mask = mask_of(self.b);
        let ghost words = self.spec_words();
        let ghost at = index * self.width();
        if o + b <= 64 {
            let r = (self.words[w] >> o) & mask;
            proof {
                let mine = field_bits(words, at as int, b as nat);
                assert forall|k: int| 0 <= k < b implies word_bits(r, b as nat)[k] == mine[k] by {
                    lemma_read_within(words[w as int], o, b, k as u64);
                    assert((at + k) / 64 == w && (at + k) % 64 == o + k);
                }
                assert(word_bits(r, b as nat) =~= field_bits(words, at as int, b as nat));
                lemma_read_within(words[w as int], o, b, 0);
                self.lemma_read(index as int, r);
            }
            r
        } else {
            let r = ((self.words[w] >> o) | (self.words[w + 1] << (64 - o))) & mask;
            proof {
                let mine = field_bits(words, at as int, b as nat);
                assert forall|k: int| 0 <= k < b implies word_bits(r, b as nat)[k] == mine[k] by {
                    lemma_read_across(words[w as int], words[w + 1], o, b, k as u64);
                    if k < 64 - o {
                        assert((at + k) / 64 == w && (at + k) % 64 == o + k);
                    } else {
                        assert((at + k) / 64 == w + 1 && (at + k) % 64 == k - (64 - o));
                    }
                }
                assert(word_bits(r, b as nat) =~= field_bits(words, at as int, b as nat));
                lemma_read_across(words[w as int], words[w + 1], o, b, 0);
                self.lemma_read(index as int, r);
            }
            r
        }
    }

    /// A word below `2^b` whose bits are those of entry `i` is the value
    /// of the entry.
    proof fn lemma_read(&self, i: int, r: u64)
        requires
            self.wf(),
            0 <= i < self.spec_len(),
            r <= low_mask(self.width() as u64),
            word_bits(r, self.width()) == field_bits(
                self.spec_words(),
                i * self.width(),
                self.width(),
            ),
        ensures
            r == self@[i],
    {
        let b = self.width();
        lemma_low_mask_value(b as u64);
        lemma_word_value(r, b);
    }

    /// Update an element of the vector.
    pub fn set(&mut self, index: usize, x: u64)
        requires
            old(self).wf(),
            index < old(self)@.len(),
            x < pow2(old(self).width()),
        ensures
            final(self).wf(),
            final(self).width() == old(self).width(),
            final(self)@ == old(self)@.update(index as int, x),
    {
        let (w, o) = self.locate(index);
        let b = self.b as u64;
        if b == 0 {
            proof {
                lemma2_to64();
                assert(self@ =~= old(self)@.update(index as int, x));
            }
            return;
        }
        let mask = mask_of(self.b);
        let ghost before = self.spec_words();
        let ghost at = index * self.width();
        proof {
            lemma_low_mask_value(b);
        }
        let low = (self.words[w] & !(mask << o)) | (x << o);
        self.words.set(w, low);
        if o + b > 64 {
            let up = 64 - o;
            let high = (self.words[w + 1] & !(mask >> up)) | (x >> up);
            self.words.set(w + 1, high);
        }
        proof {
            let after = self.spec_words();
            assert forall|p: int| 0 <= p < 64 * after.len() implies word_bit(after, p) == (if at
                <= p < at + b {
                bit(x, (p - at) as u64)
            } else {
                word_bit(before, p)
            }) by {
                let q = (p % 64) as u64;
                if p / 64 == w {
                    lemma_write_low(before[w as int], x, o, b, q);
                } else if p / 64 == w + 1 && o + b > 64 {
                    lemma_write_high(before[w + 1], x, o, b, q);
                }
            }
            old(self).lemma_written(index as int, x, after);
            assert(self@ =~= old(self)@.update(index as int, x));
        }
    }

    /// Words that hold the bits of `x` in the place of entry `i`, and the
    /// bits of these words elsewhere, hold `x` as entry `i` and the other
    /// entries as before.
    proof fn lemma_written(&self, i: int, x: u64, after: Seq<u64>)
        requires
            self.wf(),
            0 <= i < self.spec_len(),
            x < pow2(self.width()),
            after.len() == self.spec_words().len(),
            forall|p: int|
                0 <= p < 64 * after.len() ==> #[trigger] word_bit(after, p) == (if i
                    * self.width() <= p < i * self.width() + self.width() {
                    bit(x, (p - i * self.width()) as u64)
                } else {
                    word_bit(self.spec_words(), p)
                }),
        ensures
            entry(after, i, self.width()) == x,
            forall|j: int|
                0 <= j < self.spec_len() && j != i ==> #[trigger] entry(after, j, self.width())
                    == entry(self.spec_words(), j, self.width()),
    {
        let b = self.width();
        let n = self.spec_len() as int;
        let words = self.spec_words();
        lemma_word_value(x, b);
        let mine = field_bits(after, i * b, b);
        assert forall|k: int| 0 <= k < b implies word_bits(x, b)[k] == mine[k] by {
            lemma_entry_within(i, n, b as int, k, after.len() as int);
            assert(word_bit(after, i * b + k) == bit(x, k as u64));
        }
        assert(word_bits(x, b) =~= mine);
        assert forall|j: int| 0 <= j < n && j != i implies #[trigger] entry(after, j, b) == entry(
            words,
            j,
            b,
        ) by {
            let new = field_bits(after, j * b, b);
            let old = field_bits(words, j * b, b);
            assert forall|k: int| 0 <= k < b implies new[k] == old[k] by {
                lemma_entries_apart(i, j, b as int, k);
                lemma_entry_within(j, n, b as int, k, after.len() as int);
                assert(word_bit(after, j * b + k) == word_bit(words, j * b + k));
            }
            assert(new =~= old);
        }
    }

    /// Push a new value on to the end of the vector.
    pub fn push(&mut self, x: u64)
        requires
            old(self).wf(),
            x < pow2(old(self).width()),
            (old(self)@.len() + 1) * old(self).width() <= usize::MAX,
            old(self)@.len() < usize::MAX,
        ensures
            final(self).wf(),
            final(self).width() == old(self).width(),
            final(self)@ == old(self)@.push(x),
    {
        let index = self.n;
        proof {
            let n = index as int;
            let b = self.b as int;
            assert((n + 1) * b == n * b + b) by (nonlinear_arith);
        }
        let end = (index + 1) * self.b;
        let need = end / 64 + (if end % 64 == 0 { 0usize } else { 1usize });
        while self.words.len() < need
            invariant
                self.b == old(self).b,
                self.n == old(self).n,
                64 * need >= end,
                need <= end / 64 + 1,
                self.words@.len() >= old(self).words@.len(),
                forall|i: int| 0 <= i < old(self).words@.len() ==> self.words@[i] == old(self).words@[i],
            decreases need - self.words@.len(),
        {
            self.words.push(0);
        }
        self.n += 1;
        proof {
            let b = self.width();
            let grown = self.spec_words();
            let before = old(self).spec_words();
            assert forall|j: int| 0 <= j < index implies #[trigger] entry(grown, j, b) == entry(
                before,
                j,
                b,
            ) by {
                let new = field_bits(grown, j * b, b);
                let old = field_bits(before, j * b, b);
                assert forall|k: int| 0 <= k < b implies new[k] == old[k] by {
                    lemma_entry_within(j, index as int, b as int, k, before.len() as int);
                }
                assert(new =~= old);
            }
        }
        self.set(index, x);
        proof {
            assert(self@ =~= old(self)@.push(x));
        }
    }
}

} // verus!
