//! A vector of unsigned integers of one width, stored in the narrowest of
//! six shapes that holds the width.

use crate::error::LoadError;
use crate::persist::le_bytes;
use crate::persist::le_value;
use crate::persist::lemma_le_bytes_of_value;
use crate::persist::lemma_number_first;
use crate::persist::lemma_spans;
use crate::persist::lemma_vec_parsed;
use crate::persist::lemma_vec_round_trip;
use crate::persist::load_u64;
use crate::persist::load_vec_u16;
use crate::persist::load_vec_u32;
use crate::persist::load_vec_u64;
use crate::persist::load_vec_u8;
use crate::persist::save_vec;
use crate::persist::span;
use crate::persist::values_of;
use crate::persist::vec_bytes;
use crate::persist::vec_rest;
use crate::persist::vec_values;
use crate::persist::Persistent;
use crate::persist::Scalar;
use crate::persist::Source;
use vstd::arithmetic::power2::lemma2_to64;
use vstd::arithmetic::power2::lemma2_to64_rest;
use vstd::arithmetic::power2::lemma_pow2_strictly_increases;
use vstd::arithmetic::power2::pow2;
use vstd::prelude::*;

verus! {

/// The storage width, in bits, that serves values of `b` bits: the smallest
/// of 8, 16, 24, 32, 48 and 64 that is at least `b`.
pub open spec fn bucket_width(b: nat) -> nat {
    if b <= 8 {
        8
    } else if b <= 16 {
        16
    } else if b <= 24 {
        24
    } else if b <= 32 {
        32
    } else if b <= 48 {
        48
    } else {
        64
    }
}

/// Two to the power of a storage width: the least value that a vector of
/// that width cannot hold.
pub open spec fn width_limit(width: nat) -> int {
    if width == 8 {
        0x100
    } else if width == 16 {
        0x1_0000
    } else if width == 24 {
        0x100_0000
    } else if width == 32 {
        0x1_0000_0000
    } else if width == 48 {
        0x1_0000_0000_0000
    } else {
        0x1_0000_0000_0000_0000
    }
}

/// The value whose bits above 16 are `hi` and whose low 16 bits are `low`.
pub open spec fn join16(hi: u8, low: u16) -> u64 {
    (hi * 0x1_0000 + low) as u64
}

/// The value whose bits above 32 are `hi` and whose low 32 bits are `low`.
pub open spec fn join32(hi: u16, low: u32) -> u64 {
    (hi * 0x1_0000_0000 + low) as u64
}

/// A value below 2^24 is the join of its high byte and its low half.
proof fn lemma_split16(x: u64)
    requires
        x < 0x100_0000,
    ensures
        (x >> 16) < 0x100,
        (x & 0xffff) < 0x1_0000,
        join16((x >> 16) as u8, (x & 0xffff) as u16) == x,
        (x & 0xffff) as u16 == x as u16,
{
    assert((x >> 16) < 0x100 && (x & 0xffff) < 0x1_0000 && (x >> 16) * 0x1_0000 + (x & 0xffff) == x
        && (x & 0xffff) as u16 == x as u16) by (bit_vector)
        requires
            x < 0x100_0000,
    ;
}

/// A value below 2^48 is the join of its high half and its low word.
proof fn lemma_split32(x: u64)
    requires
        x < 0x1_0000_0000_0000,
    ensures
        (x >> 32) < 0x1_0000,
        (x & 0xffff_ffff) < 0x1_0000_0000,
        join32((x >> 32) as u16, (x & 0xffff_ffff) as u32) == x,
        (x & 0xffff_ffff) as u32 == x as u32,
{
    assert((x >> 32) < 0x1_0000 && (x & 0xffff_ffff) < 0x1_0000_0000 && (x >> 32) * 0x1_0000_0000
        + (x & 0xffff_ffff) == x && (x & 0xffff_ffff) as u32 == x as u32) by (bit_vector)
        requires
            x < 0x1_0000_0000_0000,
    ;
}

/// Shifting the high part into place and adding the low part by `|` joins
/// the two.
proof fn lemma_join(h: u64, l: u64)
    ensures
        h < 0x100 && l < 0x1_0000 ==> (h << 16 | l) == h * 0x1_0000 + l,
        h < 0x1_0000 && l < 0x1_0000_0000 ==> (h << 32 | l) == h * 0x1_0000_0000 + l,
{
    assert(h < 0x100 && l < 0x1_0000 ==> (h << 16 | l) == h * 0x1_0000 + l) by (bit_vector);
    assert(h < 0x1_0000 && l < 0x1_0000_0000 ==> (h << 32 | l) == h * 0x1_0000_0000 + l)
        by (bit_vector);
}

/// The storage width serves the width of the values: values of `b` bits are
/// below two to the power of the storage width, which is the limit of that
/// width.
pub proof fn lemma_storage_serves(b: nat)
    requires
        b <= 64,
    ensures
        pow2(b) <= pow2(bucket_width(b)),
        pow2(bucket_width(b)) == width_limit(bucket_width(b)),
{
    lemma2_to64();
    lemma2_to64_rest();
    if b < bucket_width(b) {
        lemma_pow2_strictly_increases(b, bucket_width(b));
    }
}

/// The six storage shapes. The widths 24 and 48 keep the high part and the
/// low part of each value in two vectors of equal length.
pub enum Integers {
    U8(Vec<u8>),
    U16(Vec<u16>),
    U24(Vec<u8>, Vec<u16>),
    U32(Vec<u32>),
    U48(Vec<u16>, Vec<u32>),
    U64(Vec<u64>),
}

impl Integers {
    /// Whether the two vectors of a split shape have the same length.
    pub open spec fn wf(&self) -> bool {
        match self {
            Integers::U24(hi, low) => hi.len() == low.len(),
            Integers::U48(hi, low) => hi.len() == low.len(),
            _ => true,
        }
    }

    /// The storage width of the shape, in bits.
    pub open spec fn width(&self) -> nat {
        match self {
            Integers::U8(_) => 8,
            Integers::U16(_) => 16,
            Integers::U24(_, _) => 24,
            Integers::U32(_) => 32,
            Integers::U48(_, _) => 48,
            Integers::U64(_) => 64,
        }
    }

    /// The values that the shape holds, in order.
    pub open spec fn values(&self) -> Seq<u64> {
        match self {
            Integers::U8(vec) => Seq::new(vec.len() as nat, |i: int| vec[i] as u64),
            Integers::U16(vec) => Seq::new(vec.len() as nat, |i: int| vec[i] as u64),
            Integers::U24(hi, low) => Seq::new(hi.len() as nat, |i: int| join16(hi[i], low[i])),
            Integers::U32(vec) => Seq::new(vec.len() as nat, |i: int| vec[i] as u64),
            Integers::U48(hi, low) => Seq::new(hi.len() as nat, |i: int| join32(hi[i], low[i])),
            Integers::U64(vec) => vec@,
        }
    }
}

/// A vector of unsigned integers.
///
/// Values are stored in a vector of an appropriate width, or
/// in some cases 2 vectors, if required.
///
/// The vector is made for values of `b` bits, and holds no others.
pub struct IntVec {
    b: usize,
    items: Integers,
}

impl View for IntVec {
    type V = Seq<u64>;

    /// The values, in order.
    closed spec fn view(&self) -> Seq<u64> {
        self.items.values()
    }
}

impl IntVec {
    /// The invariant of the representation: the storage shape is the one
    /// that serves the width of the values, and every value is of that
    /// width.
    pub closed spec fn wf(&self) -> bool {
        &&& self.b <= 64
        &&& self.items.wf()
        &&& self.items.width() == bucket_width(self.b as nat)
        &&& forall|i: int|
            0 <= i < self.items.values().len() ==> #[trigger] self.items.values()[i] < pow2(
                self.b as nat,
            )
    }

    /// The width of the values in bits: every value is below two to this
    /// power. A vector that was read back from bytes has the storage width
    /// for it, which is all that the bytes tell.
    pub closed spec fn bits(&self) -> nat {
        self.b as nat
    }

    /// The storage width in bits: one of 8, 16, 24, 32, 48 and 64.
    pub closed spec fn width(&self) -> nat {
        self.items.width()
    }

    /// The storage shape behind the vector.
    pub closed spec fn shape(&self) -> Integers {
        self.items
    }

    /// The vector is what its storage shape says: the values and the
    /// storage width are those of the shape, and the vector is valid
    /// exactly if the shape is, the width of the values is at most 64, the
    /// storage width is the one that serves it, and every value is of that
    /// width.
    pub proof fn lemma_shape(&self)
        ensures
            self.shape().values() == self@,
            self.shape().width() == self.width(),
            self.wf() == {
                &&& self.bits() <= 64
                &&& self.shape().wf()
                &&& self.width() == bucket_width(self.bits())
                &&& forall|i: int| 0 <= i < self@.len() ==> #[trigger] self@[i] < pow2(self.bits())
            },
    {
    }

    /// Every stored value is below two to the power of the width of the
    /// values, and so below two to the power of the storage width.
    pub proof fn lemma_values_fit(&self)
        requires
            self.wf(),
        ensures
            forall|i: int| 0 <= i < self@.len() ==> #[trigger] self@[i] < pow2(self.bits()),
            forall|i: int| 0 <= i < self@.len() ==> #[trigger] self@[i] < width_limit(self.width()),
            pow2(self.bits()) <= width_limit(self.width()),
    {
        lemma_storage_serves(self.bits());
    }

    /// Create an empty vector for integers of the requested width.
    pub fn new(b: usize) -> (r: IntVec)
        requires
            b <= 64,
        ensures
            r.wf(),
            r@ == Seq::<u64>::empty(),
            r.bits() == b,
            r.width() == bucket_width(b as nat),
    {
        let r = if b <= 8 {
            IntVec::new8(b)
        } else if b <= 16 {
            IntVec::new16(b)
        } else if b <= 24 {
            IntVec::new24(b)
        } else if b <= 32 {
            IntVec::new32(b)
        } else if b <= 48 {
            IntVec::new48(b)
        } else {
            IntVec::new64(b)
        };
        assert(r@ =~= Seq::<u64>::empty());
        r
    }

    fn new8(b: usize) -> (r: IntVec)
        requires
            b <= 8,
        ensures
            r.wf(),
            r@.len() == 0,
            r.bits() == b,
            r.width() == 8,
    {
        IntVec { b, items: Integers::U8(Vec::new()) }
    }

    fn new16(b: usize) -> (r: IntVec)
        requires
            8 < b <= 16,
        ensures
            r.wf(),
            r@.len() == 0,
            r.bits() == b,
            r.width() == 16,
    {
        IntVec { b, items: Integers::U16(Vec::new()) }
    }

    fn new24(b: usize) -> (r: IntVec)
        requires
            16 < b <= 24,
        ensures
            r.wf(),
            r@.len() == 0,
            r.bits() == b,
            r.width() == 24,
    {
        IntVec { b, items: Integers::U24(Vec::new(), Vec::new()) }
    }

    fn new32(b: usize) -> (r: IntVec)
        requires
            24 < b <= 32,
        ensures
            r.wf(),
            r@.len() == 0,
            r.bits() == b,
            r.width() == 32,
    {
        IntVec { b, items: Integers::U32(Vec::new()) }
    }

    fn new48(b: usize) -> (r: IntVec)
        requires
            32 < b <= 48,
        ensures
            r.wf(),
            r@.len() == 0,
            r.bits() == b,
            r.width() == 48,
    {
        IntVec { b, items: Integers::U48(Vec::new(), Vec::new()) }
    }

    fn new64(b: usize) -> (r: IntVec)
        requires
            48 < b <= 64,
        ensures
            r.wf(),
            r@.len() == 0,
            r.bits() == b,
            r.width() == 64,
    {
        IntVec { b, items: Integers::U64(Vec::new()) }
    }

    /// Return the length of the vector.
    pub fn len(&self) -> (r: usize)
        requires
            self.wf(),
        ensures
            r == self@.len(),
    {
        match &self.items {
            Integers::U8(vec) => vec.len(),
            Integers::U16(vec) => vec.len(),
            Integers::U24(hi, _low) => hi.len(),
            Integers::U32(vec) => vec.len(),
            Integers::U48(hi, _low) => hi.len(),
            Integers::U64(vec) => vec.len(),
        }
    }

    /// Push a new value on to the end of the vector.
    pub fn push(&mut self, x: u64)
        requires
            old(self).wf(),
            x < pow2(old(self).bits()),
        ensures
            final(self).wf(),
            final(self).bits() == old(self).bits(),
            final(self).width() == old(self).width(),
            final(self)@ == old(self)@.push(x),
    {
        proof {
            lemma_storage_serves(self.bits());
        }
        match &mut self.items {
            Integers::U8(vec) => {
                vec.push(x as u8);
            },
            Integers::U16(vec) => {
                vec.push(x as u16);
            },
            Integers::U24(hi, low) => {
                proof {
                    lemma_split16(x);
                }
                hi.push((x >> 16) as u8);
                low.push(x as u16);
            },
            Integers::U32(vec) => {
                vec.push(x as u32);
            },
            Integers::U48(hi, low) => {
                proof {
                    lemma_split32(x);
                }
                hi.push((x >> 32) as u16);
                low.push(x as u32);
            },
            Integers::U64(vec) => {
                vec.push(x);
            },
        }
        assert(self@ =~= old(self)@.push(x));
    }

    /// Reserve enough space for the given number of elements.
    pub fn reserve(&mut self, n: usize)
        requires
            old(self).wf(),
        ensures
            final(self).wf(),
            final(self).bits() == old(self).bits(),
            final(self).width() == old(self).width(),
            final(self)@ == old(self)@,
    {
        match &mut self.items {
            Integers::U8(vec) => {
                vec.reserve(n);
            },
            Integers::U16(vec) => {
                vec.reserve(n);
            },
            Integers::U24(hi, low) => {
                hi.reserve(n);
                low.reserve(n);
            },
            Integers::U32(vec) => {
                vec.reserve(n);
            },
            Integers::U48(hi, low) => {
                hi.reserve(n);
                low.reserve(n);
            },
            Integers::U64(vec) => {
                vec.reserve(n);
            },
        }
        assert(self@ =~= old(self)@);
    }

    /// Get an element from the vector.
    pub fn get(&self, index: usize) -> (r: u64)
        requires
            self.wf(),
            index < self@.len(),
        ensures
            r == self@[index as int],
    {
        match &self.items {
            Integers::U8(vec) => vec[index] as u64,
            Integers::U16(vec) => vec[index] as u64,
            Integers::U24(hi, low) => {
                proof {
                    lemma_join(hi[index as int] as u64, low[index as int] as u64);
                }
                (hi[index] as u64) << 16 | low[index] as u64
            },
            Integers::U32(vec) => vec[index] as u64,
            Integers::U48(hi, low) => {
                proof {
                    lemma_join(hi[index as int] as u64, low[index as int] as u64);
                }
                (hi[index] as u64) << 32 | low[index] as u64
            },
            Integers::U64(vec) => vec[index],
        }
    }

    /// Update an element of the vector.
    pub fn set(&mut self, index: usize, x: u64)
        requires
            old(self).wf(),
            index < old(self)@.len(),
            x < pow2(old(self).bits()),
        ensures
            final(self).wf(),
            final(self).bits() == old(self).bits(),
            final(self).width() == old(self).width(),
            final(self)@ == old(self)@.update(index as int, x),
    {
        proof {
            lemma_storage_serves(self.bits());
        }
        match &mut self.items {
            Integers::U8(vec) => {
                vec.set(index, x as u8);
            },
            Integers::U16(vec) => {
                vec.set(index, x as u16);
            },
            Integers::U24(hi, low) => {
                proof {
                    lemma_split16(x);
                }
                hi.set(index, (x >> 16) as u8);
                low.set(index, x as u16);
            },
            Integers::U32(vec) => {
                vec.set(index, x as u32);
            },
            Integers::U48(hi, low) => {
                proof {
                    lemma_split32(x);
                }
                hi.set(index, (x >> 32) as u16);
                low.set(index, x as u32);
            },
            Integers::U64(vec) => {
                vec.set(index, x);
            },
        }
        assert(self@ =~= old(self)@.update(index as int, x));
    }
}

/// What is left of `s` behind two vectors of equal length, of elements of
/// `w1` and of `w2` bytes; an inconsistency where the lengths differ.
pub open spec fn pair_rest(s: Seq<u8>, w1: nat, w2: nat) -> Result<Seq<u8>, LoadError> {
    match vec_rest(s, w1) {
        Err(e) => Err(e),
        Ok(second) => match vec_rest(second, w2) {
            Err(e) => Err(e),
            Ok(rest) => if vec_values(s, w1).len() == vec_values(second, w2).len() {
                Ok(rest)
            } else {
                Err(LoadError::Inconsistent)
            },
        },
    }
}

impl Integers {
    /// The bytes of the shape: the storage width in 8 bytes, then the
    /// vector, or the vector of the high parts and that of the low parts.
    pub open spec fn bytes(&self) -> Seq<u8> {
        le_bytes(self.width(), 8) + match self {
            Integers::U8(vec) => vec_bytes(values_of(vec@), 1),
            Integers::U16(vec) => vec_bytes(values_of(vec@), 2),
            Integers::U24(hi, low) => vec_bytes(values_of(hi@), 1) + vec_bytes(values_of(low@), 2),
            Integers::U32(vec) => vec_bytes(values_of(vec@), 4),
            Integers::U48(hi, low) => vec_bytes(values_of(hi@), 2) + vec_bytes(values_of(low@), 4),
            Integers::U64(vec) => vec_bytes(values_of(vec@), 8),
        }
    }
}

/// What is left of the bytes behind the valid vector at their front, or why
/// there is none: the width tag decides what follows, one vector or two of
/// one length.
#[verifier::opaque]
pub open spec fn intvec_decoded(bytes: Seq<u8>) -> Result<Seq<u8>, LoadError> {
    if bytes.len() < 8 {
        Err(LoadError::ShortRead)
    } else {
        let tag = le_value(bytes.take(8));
        let rest = bytes.skip(8);
        if tag == 8 {
            vec_rest(rest, 1)
        } else if tag == 16 {
            vec_rest(rest, 2)
        } else if tag == 24 {
            pair_rest(rest, 1, 2)
        } else if tag == 32 {
            vec_rest(rest, 4)
        } else if tag == 48 {
            pair_rest(rest, 2, 4)
        } else if tag == 64 {
            vec_rest(rest, 8)
        } else {
            Err(LoadError::UnknownWidth(tag as u64))
        }
    }
}

impl Persistent for IntVec {
    open spec fn storable(&self) -> bool {
        self.wf()
    }

    open spec fn stored(&self) -> Seq<u8> {
        self.shape().bytes()
    }

    open spec fn decoded(bytes: Seq<u8>) -> Result<Seq<u8>, LoadError> {
        intvec_decoded(bytes)
    }

    fn save(&self, sink: &mut Vec<u8>) {
        match &self.items {
            Integers::U8(vec) => {
                let fmt: usize = 8;
                fmt.put(sink);
                save_vec(sink, vec.as_slice());
            },
            Integers::U16(vec) => {
                let fmt: usize = 16;
                fmt.put(sink);
                save_vec(sink, vec.as_slice());
            },
            Integers::U24(hi, low) => {
                let fmt: usize = 24;
                fmt.put(sink);
                save_vec(sink, hi.as_slice());
                save_vec(sink, low.as_slice());
            },
            Integers::U32(vec) => {
                let fmt: usize = 32;
                fmt.put(sink);
                save_vec(sink, vec.as_slice());
            },
            Integers::U48(hi, low) => {
                let fmt: usize = 48;
                fmt.put(sink);
                save_vec(sink, hi.as_slice());
                save_vec(sink, low.as_slice());
            },
            Integers::U64(vec) => {
                let fmt: usize = 64;
                fmt.put(sink);
                save_vec(sink, vec.as_slice());
            },
        }
        assert(sink@ =~= old(sink)@ + self.stored());
    }

    fn load(source: &mut Source) -> (r: Result<Box<Self>, LoadError>)
        ensures
            r matches Ok(x) ==> x.bits() == x.width(),
    {
        proof {
            reveal(intvec_decoded);
        }
        let ghost from = source@;
        let z = match load_u64(source) {
            Ok(z) => z,
            Err(e) => {
                return Err(e);
            },
        };
        proof {
            lemma_le_bytes_of_value(from.take(8));
            assert(from =~= from.take(8) + source@);
        }
        let loaded = if z == 8 {
            load_single_8(source)
        } else if z == 16 {
            load_single_16(source)
        } else if z == 24 {
            load_pair_24(source)
        } else if z == 32 {
            load_single_32(source)
        } else if z == 48 {
            load_pair_48(source)
        } else if z == 64 {
            load_single_64(source)
        } else {
            return Err(LoadError::UnknownWidth(z));
        };
        match loaded {
            Ok(items) => {
                proof {
                    lemma_storage_serves(z as nat);
                }
                let x = IntVec { b: z as usize, items };
                assert(from =~= x.stored() + source@);
                Ok(Box::new(x))
            },
            Err(e) => Err(e),
        }
    }
}

/// Read the one vector of the shape of 8 bits.
fn load_single_8(source: &mut Source) -> (r: Result<Integers, LoadError>)
    ensures
        match r {
            Ok(x) => {
                &&& x.wf()
                &&& x.width() == 8
                &&& vec_rest(old(source)@, 1) == Ok::<Seq<u8>, LoadError>(final(source)@)
                &&& le_bytes(8, 8) + old(source)@ == x.bytes() + final(source)@
            },
            Err(e) => vec_rest(old(source)@, 1) == Err::<Seq<u8>, LoadError>(e),
        },
{
    proof {
        lemma_vec_parsed_if_ok(source@, 1);
    }
    match load_vec_u8(source) {
        Ok(vec) => {
            let x = Integers::U8(vec);
            assert(le_bytes(8, 8) + old(source)@ =~= x.bytes() + source@);
            Ok(x)
        },
        Err(e) => Err(e),
    }
}

/// Read the one vector of the shape of 16 bits.
fn load_single_16(source: &mut Source) -> (r: Result<Integers, LoadError>)
    ensures
        match r {
            Ok(x) => {
                &&& x.wf()
                &&& x.width() == 16
                &&& vec_rest(old(source)@, 2) == Ok::<Seq<u8>, LoadError>(final(source)@)
                &&& le_bytes(16, 8) + old(source)@ == x.bytes() + final(source)@
            },
            Err(e) => vec_rest(old(source)@, 2) == Err::<Seq<u8>, LoadError>(e),
        },
{
    proof {
        lemma_vec_parsed_if_ok(source@, 2);
    }
    match load_vec_u16(source) {
        Ok(vec) => {
            let x = Integers::U16(vec);
            assert(le_bytes(16, 8) + old(source)@ =~= x.bytes() + source@);
            Ok(x)
        },
        Err(e) => Err(e),
    }
}

/// Read the one vector of the shape of 32 bits.
fn load_single_32(source: &mut Source) -> (r: Result<Integers, LoadError>)
    ensures
        match r {
            Ok(x) => {
                &&& x.wf()
                &&& x.width() == 32
                &&& vec_rest(old(source)@, 4) == Ok::<Seq<u8>, LoadError>(final(source)@)
                &&& le_bytes(32, 8) + old(source)@ == x.bytes() + final(source)@
            },
            Err(e) => vec_rest(old(source)@, 4) == Err::<Seq<u8>, LoadError>(e),
        },
{
    proof {
        lemma_vec_parsed_if_ok(source@, 4);
    }
    match load_vec_u32(source) {
        Ok(vec) => {
            let x = Integers::U32(vec);
            assert(le_bytes(32, 8) + old(source)@ =~= x.bytes() + source@);
            Ok(x)
        },
        Err(e) => Err(e),
    }
}

/// Read the one vector of the shape of 64 bits.
fn load_single_64(source: &mut Source) -> (r: Result<Integers, LoadError>)
    ensures
        match r {
            Ok(x) => {
                &&& x.wf()
                &&& x.width() == 64
                &&& vec_rest(old(source)@, 8) == Ok::<Seq<u8>, LoadError>(final(source)@)
                &&& le_bytes(64, 8) + old(source)@ == x.bytes() + final(source)@
            },
            Err(e) => vec_rest(old(source)@, 8) == Err::<Seq<u8>, LoadError>(e),
        },
{
    proof {
        lemma_vec_parsed_if_ok(source@, 8);
    }
    match load_vec_u64(source) {
        Ok(vec) => {
            let x = Integers::U64(vec);
            assert(le_bytes(64, 8) + old(source)@ =~= x.bytes() + source@);
            Ok(x)
        },
        Err(e) => Err(e),
    }
}

/// Read the two vectors of the shape of 24 bits.
fn load_pair_24(source: &mut Source) -> (r: Result<Integers, LoadError>)
    ensures
        match r {
            Ok(x) => {
                &&& x.wf()
                &&& x.width() == 24
                &&& pair_rest(old(source)@, 1, 2) == Ok::<Seq<u8>, LoadError>(final(source)@)
                &&& le_bytes(24, 8) + old(source)@ == x.bytes() + final(source)@
            },
            Err(e) => pair_rest(old(source)@, 1, 2) == Err::<Seq<u8>, LoadError>(e),
        },
{
    proof {
        lemma_vec_parsed_if_ok(source@, 1);
    }
    let hi = match load_vec_u8(source) {
        Ok(vec) => vec,
        Err(e) => {
            return Err(e);
        },
    };
    let ghost second = source@;
    proof {
        lemma_vec_parsed_if_ok(second, 2);
    }
    let low = match load_vec_u16(source) {
        Ok(vec) => vec,
        Err(e) => {
            return Err(e);
        },
    };
    if hi.len() != low.len() {
        return Err(LoadError::Inconsistent);
    }
    let x = Integers::U24(hi, low);
    assert(le_bytes(24, 8) + old(source)@ =~= x.bytes() + source@);
    Ok(x)
}

/// Read the two vectors of the shape of 48 bits.
fn load_pair_48(source: &mut Source) -> (r: Result<Integers, LoadError>)
    ensures
        match r {
            Ok(x) => {
                &&& x.wf()
                &&& x.width() == 48
                &&& pair_rest(old(source)@, 2, 4) == Ok::<Seq<u8>, LoadError>(final(source)@)
                &&& le_bytes(48, 8) + old(source)@ == x.bytes() + final(source)@
            },
            Err(e) => pair_rest(old(source)@, 2, 4) == Err::<Seq<u8>, LoadError>(e),
        },
{
    proof {
        lemma_vec_parsed_if_ok(source@, 2);
    }
    let hi = match load_vec_u16(source) {
        Ok(vec) => vec,
        Err(e) => {
            return Err(e);
        },
    };
    let ghost second = source@;
    proof {
        lemma_vec_parsed_if_ok(second, 4);
    }
    let low = match load_vec_u32(source) {
        Ok(vec) => vec,
        Err(e) => {
            return Err(e);
        },
    };
    if hi.len() != low.len() {
        return Err(LoadError::Inconsistent);
    }
    let x = Integers::U48(hi, low);
    assert(le_bytes(48, 8) + old(source)@ =~= x.bytes() + source@);
    Ok(x)
}

/// Where bytes begin with a vector, they are the bytes of its elements,
/// followed by what is left over.
proof fn lemma_vec_parsed_if_ok(s: Seq<u8>, w: nat)
    ensures
        vec_rest(s, w) is Ok ==> s == vec_bytes(vec_values(s, w), w) + vec_rest(s, w)->Ok_0,
{
    if vec_rest(s, w) is Ok {
        lemma_vec_parsed(s, w);
    }
}

impl IntVec {
    /// Reading the bytes of a valid vector succeeds and leaves what follows
    /// them; and a vector whose bytes begin as those of another has the
    /// same width and the same values.
    pub proof fn lemma_round_trip(&self, tail: Seq<u8>, back: &IntVec, rest: Seq<u8>)
        requires
            self.wf(),
        ensures
            IntVec::decoded(self.stored() + tail) == Ok::<Seq<u8>, LoadError>(tail),
            back.wf() && self.stored() + tail == back.stored() + rest ==> {
                &&& back@ == self@
                &&& back.width() == self.width()
                &&& rest == tail
            },
    {
        self.lemma_parts(tail);
        if back.wf() && self.stored() + tail == back.stored() + rest {
            back.lemma_parts(rest);
            let s = self.stored() + tail;
            assert(back.width() == self.width());
            assert forall|i: int| 0 <= i < self@.len() implies back@.len() == self@.len()
                && back@[i] == self@[i] by {
                match (self.shape(), back.shape()) {
                    (Integers::U8(a), Integers::U8(b)) => {
                        assert(values_of(a@)[i] == values_of(b@)[i]);
                    },
                    (Integers::U16(a), Integers::U16(b)) => {
                        assert(values_of(a@)[i] == values_of(b@)[i]);
                    },
                    (Integers::U24(a, c), Integers::U24(b, d)) => {
                        assert(values_of(a@)[i] == values_of(b@)[i]);
                        assert(values_of(c@)[i] == values_of(d@)[i]);
                    },
                    (Integers::U32(a), Integers::U32(b)) => {
                        assert(values_of(a@)[i] == values_of(b@)[i]);
                    },
                    (Integers::U48(a, c), Integers::U48(b, d)) => {
                        assert(values_of(a@)[i] == values_of(b@)[i]);
                        assert(values_of(c@)[i] == values_of(d@)[i]);
                    },
                    (Integers::U64(a), Integers::U64(b)) => {
                        assert(values_of(a@)[i] == values_of(b@)[i]);
                    },
                    _ => {},
                }
            }
            match (self.shape(), back.shape()) {
                (Integers::U8(a), Integers::U8(b)) => {
                    assert(values_of(a@).len() == values_of(b@).len());
                },
                (Integers::U16(a), Integers::U16(b)) => {
                    assert(values_of(a@).len() == values_of(b@).len());
                },
                (Integers::U24(a, c), Integers::U24(b, d)) => {
                    assert(values_of(a@).len() == values_of(b@).len());
                },
                (Integers::U32(a), Integers::U32(b)) => {
                    assert(values_of(a@).len() == values_of(b@).len());
                },
                (Integers::U48(a, c), Integers::U48(b, d)) => {
                    assert(values_of(a@).len() == values_of(b@).len());
                },
                (Integers::U64(a), Integers::U64(b)) => {
                    assert(values_of(a@).len() == values_of(b@).len());
                },
                _ => {},
            }
            assert(back@ =~= self@);
        }
    }

    /// What the bytes of a valid vector, with anything behind them, hold:
    /// the width, the values of the vector or of the two vectors, and what
    /// is behind.
    proof fn lemma_parts(&self, tail: Seq<u8>)
        requires
            self.wf(),
        ensures
            IntVec::decoded(self.stored() + tail) == Ok::<Seq<u8>, LoadError>(tail),
            le_value((self.stored() + tail).take(8)) == self.width(),
            match self.shape() {
                Integers::U8(vec) => vec_values((self.stored() + tail).skip(8), 1) == values_of(
                    vec@,
                ),
                Integers::U16(vec) => vec_values((self.stored() + tail).skip(8), 2) == values_of(
                    vec@,
                ),
                Integers::U24(hi, low) => {
                    &&& vec_values((self.stored() + tail).skip(8), 1) == values_of(hi@)
                    &&& vec_values(vec_rest((self.stored() + tail).skip(8), 1)->Ok_0, 2)
                        == values_of(low@)
                },
                Integers::U32(vec) => vec_values((self.stored() + tail).skip(8), 4) == values_of(
                    vec@,
                ),
                Integers::U48(hi, low) => {
                    &&& vec_values((self.stored() + tail).skip(8), 2) == values_of(hi@)
                    &&& vec_values(vec_rest((self.stored() + tail).skip(8), 2)->Ok_0, 4)
                        == values_of(low@)
                },
                Integers::U64(vec) => vec_values((self.stored() + tail).skip(8), 8) == values_of(
                    vec@,
                ),
            },
            vec_rest((self.stored() + tail).skip(8), 1) is Ok || self.width() != 24,
            vec_rest((self.stored() + tail).skip(8), 2) is Ok || self.width() != 48,
    {
        reveal(intvec_decoded);
        lemma_spans();
        match self.shape() {
            Integers::U8(vec) => {
                assert(vec@.len() == vec.len());
                lemma_single_parts(values_of(vec@), 1, 8, tail);
            },
            Integers::U16(vec) => {
                assert(vec@.len() == vec.len());
                lemma_single_parts(values_of(vec@), 2, 16, tail);
            },
            Integers::U24(hi, low) => {
                assert(hi@.len() == hi.len() && low@.len() == low.len());
                lemma_pair_parts(values_of(hi@), 1, values_of(low@), 2, 24, tail);
            },
            Integers::U32(vec) => {
                assert(vec@.len() == vec.len());
                lemma_single_parts(values_of(vec@), 4, 32, tail);
            },
            Integers::U48(hi, low) => {
                assert(hi@.len() == hi.len() && low@.len() == low.len());
                lemma_pair_parts(values_of(hi@), 2, values_of(low@), 4, 48, tail);
            },
            Integers::U64(vec) => {
                assert(vec@.len() == vec.len());
                lemma_single_parts(values_of(vec@), 8, 64, tail);
            },
        }
    }
}

/// What the bytes of a tag and one vector, with anything behind them, hold.
proof fn lemma_single_parts(vals: Seq<nat>, w: nat, tag: nat, tail: Seq<u8>)
    requires
        tag < span(8),
        vals.len() < span(8),
        forall|i: int| 0 <= i < vals.len() ==> #[trigger] vals[i] < span(w),
    ensures
        ({
            let s = le_bytes(tag, 8) + vec_bytes(vals, w) + tail;
            &&& s.len() >= 8
            &&& le_value(s.take(8)) == tag
            &&& vec_rest(s.skip(8), w) == Ok::<Seq<u8>, LoadError>(tail)
            &&& vec_values(s.skip(8), w) == vals
        }),
{
    let body = vec_bytes(vals, w) + tail;
    let s = le_bytes(tag, 8) + vec_bytes(vals, w) + tail;
    assert(s =~= le_bytes(tag, 8) + body);
    lemma_number_first(tag, body);
    lemma_vec_round_trip(vals, w, tail);
}

/// What the bytes of a tag and two vectors of one length, with anything
/// behind them, hold.
proof fn lemma_pair_parts(v1: Seq<nat>, w1: nat, v2: Seq<nat>, w2: nat, tag: nat, tail: Seq<u8>)
    requires
        tag < span(8),
        v1.len() == v2.len() < span(8),
        forall|i: int| 0 <= i < v1.len() ==> #[trigger] v1[i] < span(w1),
        forall|i: int| 0 <= i < v2.len() ==> #[trigger] v2[i] < span(w2),
    ensures
        ({
            let s = le_bytes(tag, 8) + (vec_bytes(v1, w1) + vec_bytes(v2, w2)) + tail;
            &&& s.len() >= 8
            &&& le_value(s.take(8)) == tag
            &&& pair_rest(s.skip(8), w1, w2) == Ok::<Seq<u8>, LoadError>(tail)
            &&& vec_rest(s.skip(8), w1) is Ok
            &&& vec_values(s.skip(8), w1) == v1
            &&& vec_values(vec_rest(s.skip(8), w1)->Ok_0, w2) == v2
        }),
{
    let second = vec_bytes(v2, w2) + tail;
    let body = vec_bytes(v1, w1) + second;
    let s = le_bytes(tag, 8) + (vec_bytes(v1, w1) + vec_bytes(v2, w2)) + tail;
    assert(s =~= le_bytes(tag, 8) + body);
    lemma_number_first(tag, body);
    lemma_vec_round_trip(v1, w1, second);
    lemma_vec_round_trip(v2, w2, tail);
}

} // verus!
