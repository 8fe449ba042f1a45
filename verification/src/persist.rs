//! The byte layout in which the structures are kept.
//!
//! Every number is written least significant byte first. A vector is written
//! as its length in 8 bytes, followed by its elements in their own width.
//! Lengths and counts take 8 bytes on every platform, so that what one
//! machine has written another can read.

use crate::error::LoadError;
use vstd::prelude::*;
use vstd::slice::slice_subrange;

verus! {

/// The `n` bytes of `x`, least significant first.
pub open spec fn le_bytes(x: nat, n: nat) -> Seq<u8>
    decreases n,
{
    if n == 0 {
        Seq::empty()
    } else {
        seq![(x % 256) as u8] + le_bytes(x / 256, (n - 1) as nat)
    }
}

/// The number whose bytes, least significant first, are `s`.
pub open spec fn le_value(s: Seq<u8>) -> nat
    decreases s.len(),
{
    if s.len() == 0 {
        0
    } else {
        s[0] as nat + 256 * le_value(s.drop_first())
    }
}

/// The count of the numbers that `n` bytes can hold: 256 to the power `n`.
pub open spec fn span(n: nat) -> nat
    decreases n,
{
    if n == 0 {
        1
    } else {
        256 * span((n - 1) as nat)
    }
}

/// The bytes of the elements of a vector, each in `w` bytes, in order.
pub open spec fn items_bytes(vals: Seq<nat>, w: nat) -> Seq<u8>
    decreases vals.len(),
{
    if vals.len() == 0 {
        Seq::empty()
    } else {
        items_bytes(vals.drop_last(), w) + le_bytes(vals.last(), w)
    }
}

/// The bytes of a vector: its length in 8 bytes, then its elements.
pub open spec fn vec_bytes(vals: Seq<nat>, w: nat) -> Seq<u8> {
    le_bytes(vals.len(), 8) + items_bytes(vals, w)
}

/// What is left of `s` behind a vector of elements of `w` bytes at its
/// front; a short read where `s` ends before the vector does.
pub open spec fn vec_rest(s: Seq<u8>, w: nat) -> Result<Seq<u8>, LoadError> {
    if s.len() < 8 {
        Err(LoadError::ShortRead)
    } else if s.len() - 8 < le_value(s.take(8)) * w {
        Err(LoadError::ShortRead)
    } else {
        Ok(s.skip((8 + le_value(s.take(8)) * w) as int))
    }
}

/// The elements of the vector of elements of `w` bytes at the front of `s`.
pub open spec fn vec_values(s: Seq<u8>, w: nat) -> Seq<nat> {
    Seq::new(
        le_value(s.take(8)),
        |i: int| le_value(s.subrange(8 + i * w, 8 + (i + 1) * w)),
    )
}

/// The widths of the numbers that are kept, with their spans written out.
pub proof fn lemma_spans()
    ensures
        span(1) == 0x100,
        span(2) == 0x1_0000,
        span(4) == 0x1_0000_0000,
        span(8) == 0x1_0000_0000_0000_0000,
{
    reveal_with_fuel(span, 9);
}

/// A number takes as many bytes as it is given.
pub proof fn lemma_le_bytes_len(x: nat, n: nat)
    ensures
        le_bytes(x, n).len() == n,
    decreases n,
{
    if n > 0 {
        lemma_le_bytes_len(x / 256, (n - 1) as nat);
    }
}

/// A number that fits in `n` bytes is read back from them.
pub proof fn lemma_le_value_of_bytes(x: nat, n: nat)
    requires
        x < span(n),
    ensures
        le_value(le_bytes(x, n)) == x,
    decreases n,
{
    if n > 0 {
        let rest = le_bytes(x / 256, (n - 1) as nat);
        lemma_le_value_of_bytes(x / 256, (n - 1) as nat);
        assert(le_bytes(x, n).drop_first() =~= rest);
    } else {
        assert(le_bytes(x, n).len() == 0);
    }
}

/// Bytes are written back from the number that they hold, which fits in
/// as many bytes.
pub proof fn lemma_le_bytes_of_value(s: Seq<u8>)
    ensures
        le_value(s) < span(s.len()),
        le_bytes(le_value(s), s.len()) == s,
    decreases s.len(),
{
    if s.len() > 0 {
        lemma_le_bytes_of_value(s.drop_first());
        let v = le_value(s);
        let u = le_value(s.drop_first());
        assert(v % 256 == s[0] && v / 256 == u);
        assert(le_bytes(v, s.len()) =~= s);
    } else {
        assert(le_bytes(le_value(s), s.len()) =~= s);
    }
}

/// The elements of a vector take `w` bytes each, and each stands in its
/// place.
pub proof fn lemma_items_bytes(vals: Seq<nat>, w: nat, i: int)
    requires
        0 <= i < vals.len(),
    ensures
        items_bytes(vals, w).len() == vals.len() * w,
        i * w + w <= vals.len() * w,
        items_bytes(vals, w).subrange(i * w, i * w + w) == le_bytes(vals[i], w),
    decreases vals.len(),
{
    let front = vals.drop_last();
    let n = vals.len() as int;
    lemma_items_len(vals, w);
    lemma_items_len(front, w);
    lemma_le_bytes_len(vals.last(), w);
    assert((n - 1) * w + w == n * w) by (nonlinear_arith);
    if i == n - 1 {
        assert(items_bytes(vals, w).subrange(i * w, i * w + w) =~= le_bytes(vals[i], w));
    } else {
        lemma_items_bytes(front, w, i);
        assert(i * w + w <= (n - 1) * w) by (nonlinear_arith)
            requires
                i < n - 1,
                w >= 0,
        ;
        assert(items_bytes(vals, w).subrange(i * w, i * w + w) =~= items_bytes(front, w).subrange(
            i * w,
            i * w + w,
        ));
    }
}

/// The elements of a vector take `w` bytes each.
pub proof fn lemma_items_len(vals: Seq<nat>, w: nat)
    ensures
        items_bytes(vals, w).len() == vals.len() * w,
    decreases vals.len(),
{
    if vals.len() > 0 {
        let n = vals.len() as int;
        lemma_items_len(vals.drop_last(), w);
        lemma_le_bytes_len(vals.last(), w);
        assert((n - 1) * w + w == n * w) by (nonlinear_arith);
    } else {
        assert(vals.len() * w == 0) by (nonlinear_arith)
            requires
                vals.len() == 0,
        ;
    }
}

/// A vector whose length and elements fit is read back from its bytes, and
/// what follows the bytes is left over.
pub proof fn lemma_vec_round_trip(vals: Seq<nat>, w: nat, tail: Seq<u8>)
    requires
        vals.len() < span(8),
        forall|i: int| 0 <= i < vals.len() ==> #[trigger] vals[i] < span(w),
    ensures
        vec_rest(vec_bytes(vals, w) + tail, w) == Ok::<Seq<u8>, LoadError>(tail),
        vec_values(vec_bytes(vals, w) + tail, w) == vals,
{
    let s = vec_bytes(vals, w) + tail;
    let items = items_bytes(vals, w);
    lemma_le_bytes_len(vals.len(), 8);
    lemma_le_value_of_bytes(vals.len(), 8);
    lemma_items_len(vals, w);
    assert(s.take(8) =~= le_bytes(vals.len(), 8));
    assert(s.skip((8 + vals.len() * w) as int) =~= tail);
    assert forall|i: int| 0 <= i < vals.len() implies le_value(
        s.subrange(8 + i * w, 8 + (i + 1) * w),
    ) == vals[i] by {
        lemma_items_bytes(vals, w, i);
        assert((i + 1) * w == i * w + w) by (nonlinear_arith);
        assert(s.subrange(8 + i * w, 8 + (i + 1) * w) =~= items.subrange(i * w, i * w + w));
        lemma_le_value_of_bytes(vals[i], w);
    }
    assert(vec_values(s, w) =~= vals);
}

/// Bytes that begin with a vector are the bytes of its elements, followed
/// by what is left over.
pub proof fn lemma_vec_parsed(s: Seq<u8>, w: nat)
    requires
        vec_rest(s, w) is Ok,
    ensures
        s == vec_bytes(vec_values(s, w), w) + vec_rest(s, w)->Ok_0,
        vec_values(s, w).len() < span(8),
        forall|i: int| 0 <= i < vec_values(s, w).len() ==> #[trigger] vec_values(s, w)[i] < span(w),
{
    let vals = vec_values(s, w);
    let n = vals.len() as int;
    lemma_le_bytes_of_value(s.take(8));
    assert forall|i: int| 0 <= i < n implies #[trigger] vals[i] == le_value(
        s.skip(8).subrange(i * w, (i + 1) * w),
    ) by {
        assert((i + 1) * w == i * w + w) by (nonlinear_arith);
        assert(0 <= i * w && i * w + w <= n * w) by (nonlinear_arith)
            requires
                0 <= i < n,
                w >= 0,
        ;
        assert(s.skip(8).subrange(i * w, (i + 1) * w) =~= s.subrange(8 + i * w, 8 + (i + 1) * w));
    }
    lemma_items_parsed(s.skip(8), w, vals, n);
    assert(vals.take(n) =~= vals);
    assert forall|i: int| 0 <= i < n implies #[trigger] vals[i] < span(w) by {
        assert((i + 1) * w == i * w + w) by (nonlinear_arith);
        assert(i * w + w <= n * w) by (nonlinear_arith)
            requires
                0 <= i < n,
                w >= 0,
        ;
        lemma_le_bytes_of_value(s.subrange(8 + i * w, 8 + (i + 1) * w));
    }
    assert(s =~= s.take(8) + s.skip(8).take(n * w) + s.skip(8 + n * w));
}

/// The first `k` elements read from the bytes are written as the first
/// `k * w` bytes.
proof fn lemma_items_parsed(body: Seq<u8>, w: nat, vals: Seq<nat>, k: int)
    requires
        0 <= k <= vals.len(),
        vals.len() * w <= body.len(),
        forall|i: int|
            0 <= i < vals.len() ==> #[trigger] vals[i] == le_value(
                body.subrange(i * w, (i + 1) * w),
            ),
    ensures
        k * w <= body.len(),
        items_bytes(vals.take(k), w) == body.take(k * w),
    decreases k,
{
    let n = vals.len() as int;
    assert(k * w <= n * w) by (nonlinear_arith)
        requires
            0 <= k <= n,
            w >= 0,
    ;
    if k > 0 {
        lemma_items_parsed(body, w, vals, k - 1);
        let chunk = body.subrange((k - 1) * w, k * w);
        assert((k - 1) * w + w == k * w) by (nonlinear_arith);
        assert(vals[k - 1] == le_value(body.subrange((k - 1) * w, (k - 1 + 1) * w)));
        lemma_le_bytes_of_value(chunk);
        assert(vals.take(k).drop_last() =~= vals.take(k - 1));
        assert(body.take(k * w) =~= body.take((k - 1) * w) + chunk);
    } else {
        assert(k * w == 0) by (nonlinear_arith)
            requires
                k == 0,
        ;
        assert(body.take(k * w) =~= Seq::<u8>::empty());
    }
}

/// `num_traits::ToBytes::to_le_bytes` on `u8` gives the byte itself.
#[verifier::external_body]
fn u8_to_le(x: u8) -> (r: Vec<u8>)
    ensures
        r@ == le_bytes(x as nat, 1),
{
    num_traits::ToBytes::to_le_bytes(&x).to_vec()
}

/// `num_traits::ToBytes::to_le_bytes` on `u16` gives its 2 bytes, least
/// significant first.
#[verifier::external_body]
fn u16_to_le(x: u16) -> (r: Vec<u8>)
    ensures
        r@ == le_bytes(x as nat, 2),
{
    num_traits::ToBytes::to_le_bytes(&x).to_vec()
}

/// `num_traits::ToBytes::to_le_bytes` on `u32` gives its 4 bytes, least
/// significant first.
#[verifier::external_body]
fn u32_to_le(x: u32) -> (r: Vec<u8>)
    ensures
        r@ == le_bytes(x as nat, 4),
{
    num_traits::ToBytes::to_le_bytes(&x).to_vec()
}

/// `num_traits::ToBytes::to_le_bytes` on `u64` gives its 8 bytes, least
/// significant first.
#[verifier::external_body]
fn u64_to_le(x: u64) -> (r: Vec<u8>)
    ensures
        r@ == le_bytes(x as nat, 8),
{
    num_traits::ToBytes::to_le_bytes(&x).to_vec()
}

/// `num_traits::FromBytes::from_le_bytes` for `u8` gives the byte itself.
#[verifier::external_body]
fn u8_from_le(s: &[u8]) -> (r: u8)
    requires
        s@.len() == 1,
    ensures
        r == le_value(s@),
{
    let bytes: [u8; 1] = s.try_into().unwrap();
    num_traits::FromBytes::from_le_bytes(&bytes)
}

/// `num_traits::FromBytes::from_le_bytes` for `u16` gives the number whose
/// 2 bytes, least significant first, it is handed.
#[verifier::external_body]
fn u16_from_le(s: &[u8]) -> (r: u16)
    requires
        s@.len() == 2,
    ensures
        r == le_value(s@),
{
    let bytes: [u8; 2] = s.try_into().unwrap();
    num_traits::FromBytes::from_le_bytes(&bytes)
}

/// `num_traits::FromBytes::from_le_bytes` for `u32` gives the number whose
/// 4 bytes, least significant first, it is handed.
#[verifier::external_body]
fn u32_from_le(s: &[u8]) -> (r: u32)
    requires
        s@.len() == 4,
    ensures
        r == le_value(s@),
{
    let bytes: [u8; 4] = s.try_into().unwrap();
    num_traits::FromBytes::from_le_bytes(&bytes)
}

/// `num_traits::FromBytes::from_le_bytes` for `u64` gives the number whose
/// 8 bytes, least significant first, it is handed.
#[verifier::external_body]
fn u64_from_le(s: &[u8]) -> (r: u64)
    requires
        s@.len() == 8,
    ensures
        r == le_value(s@),
{
    let bytes: [u8; 8] = s.try_into().unwrap();
    num_traits::FromBytes::from_le_bytes(&bytes)
}

/// A number that can be written to a sink of bytes.
pub trait Scalar: Copy {
    /// The number of bytes that the number takes.
    spec fn width() -> nat;

    /// The number, as a natural number.
    spec fn value(self) -> nat;

    /// The number fits in its bytes.
    proof fn lemma_fits(self)
        ensures
            self.value() < span(Self::width()),
    ;

    /// Append the bytes of the number to the sink.
    fn put(self, sink: &mut Vec<u8>)
        ensures
            final(sink)@ == old(sink)@ + le_bytes(self.value(), Self::width()),
    ;
}

impl Scalar for u8 {
    open spec fn width() -> nat {
        1
    }

    open spec fn value(self) -> nat {
        self as nat
    }

    proof fn lemma_fits(self) {
        lemma_spans();
    }

    fn put(self, sink: &mut Vec<u8>) {
        let bytes = u8_to_le(self);
        sink.extend_from_slice(bytes.as_slice());
    }
}

impl Scalar for u16 {
    open spec fn width() -> nat {
        2
    }

    open spec fn value(self) -> nat {
        self as nat
    }

    proof fn lemma_fits(self) {
        lemma_spans();
    }

    fn put(self, sink: &mut Vec<u8>) {
        let bytes = u16_to_le(self);
        sink.extend_from_slice(bytes.as_slice());
    }
}

impl Scalar for u32 {
    open spec fn width() -> nat {
        4
    }

    open spec fn value(self) -> nat {
        self as nat
    }

    proof fn lemma_fits(self) {
        lemma_spans();
    }

    fn put(self, sink: &mut Vec<u8>) {
        let bytes = u32_to_le(self);
        sink.extend_from_slice(bytes.as_slice());
    }
}

impl Scalar for u64 {
    open spec fn width() -> nat {
        8
    }

    open spec fn value(self) -> nat {
        self as nat
    }

    proof fn lemma_fits(self) {
        lemma_spans();
    }

    fn put(self, sink: &mut Vec<u8>) {
        let bytes = u64_to_le(self);
        sink.extend_from_slice(bytes.as_slice());
    }
}

impl Scalar for usize {
    open spec fn width() -> nat {
        8
    }

    open spec fn value(self) -> nat {
        self as nat
    }

    proof fn lemma_fits(self) {
        lemma_spans();
    }

    fn put(self, sink: &mut Vec<u8>) {
        let bytes = u64_to_le(self as u64);
        sink.extend_from_slice(bytes.as_slice());
    }
}

/// The numbers of a sequence, as natural numbers.
pub open spec fn values_of<T: Scalar>(xs: Seq<T>) -> Seq<nat> {
    Seq::new(xs.len(), |i: int| xs[i].value())
}

/// Append a vector to the sink: its length, then its elements.
pub fn save_vec<T: Scalar>(sink: &mut Vec<u8>, xs: &[T])
    ensures
        final(sink)@ == old(sink)@ + vec_bytes(values_of(xs@), T::width()),
{
    let n = xs.len();
    n.put(sink);
    let ghost vals = values_of(xs@);
    let ghost start = sink@;
    let mut i: usize = 0;
    assert(vals.take(0) =~= Seq::<nat>::empty());
    assert(sink@ =~= start + items_bytes(vals.take(0), T::width()));
    while i < n
        invariant
            i <= n == xs@.len(),
            vals == values_of(xs@),
            sink@ == start + items_bytes(vals.take(i as int), T::width()),
        decreases n - i,
    {
        xs[i].put(sink);
        proof {
            assert(vals.take(i + 1).drop_last() =~= vals.take(i as int));
            assert(vals.take(i + 1).last() == xs@[i as int].value());
            assert(sink@ =~= start + items_bytes(vals.take(i + 1), T::width()));
        }
        i += 1;
    }
    proof {
        assert(vals.take(n as int) =~= vals);
        assert(sink@ =~= old(sink)@ + vec_bytes(vals, T::width()));
    }
}

/// The bytes that are still to be read.
pub struct Source<'a> {
    rest: &'a [u8],
}

impl<'a> View for Source<'a> {
    type V = Seq<u8>;

    closed spec fn view(&self) -> Seq<u8> {
        self.rest@
    }
}

impl<'a> Source<'a> {
    /// A source that reads the bytes given, from their start.
    pub fn new(bytes: &'a [u8]) -> (r: Self)
        ensures
            r@ == bytes@,
    {
        Source { rest: bytes }
    }

    /// The number of bytes that are still to be read.
    pub fn remaining(&self) -> (r: usize)
        ensures
            r == self@.len(),
    {
        self.rest.len()
    }

    /// Read the next `n` bytes; a short read, which reads nothing, where
    /// fewer are left.
    pub fn take(&mut self, n: usize) -> (r: Result<&'a [u8], LoadError>)
        ensures
            match r {
                Ok(bytes) => {
                    &&& n <= old(self)@.len()
                    &&& bytes@ == old(self)@.take(n as int)
                    &&& final(self)@ == old(self)@.skip(n as int)
                },
                Err(e) => {
                    &&& e == LoadError::ShortRead
                    &&& old(self)@.len() < n
                    &&& final(self)@ == old(self)@
                },
            },
    {
        let len = self.rest.len();
        if len < n {
            return Err(LoadError::ShortRead);
        }
        let head = slice_subrange(self.rest, 0, n);
        self.rest = slice_subrange(self.rest, n, len);
        Ok(head)
    }
}

/// Read a number of 8 bytes.
pub fn load_u64(source: &mut Source) -> (r: Result<u64, LoadError>)
    ensures
        match r {
            Ok(x) => {
                &&& old(source)@.len() >= 8
                &&& x == le_value(old(source)@.take(8))
                &&& final(source)@ == old(source)@.skip(8)
            },
            Err(e) => e == LoadError::ShortRead && old(source)@.len() < 8,
        },
{
    match source.take(8) {
        Ok(bytes) => Ok(u64_from_le(bytes)),
        Err(e) => Err(e),
    }
}

/// Read a count or a width: a number of 8 bytes that this machine can hold
/// in a `usize`.
pub fn load_usize(source: &mut Source) -> (r: Result<usize, LoadError>)
    ensures
        match r {
            Ok(x) => {
                &&& old(source)@.len() >= 8
                &&& x == le_value(old(source)@.take(8))
                &&& final(source)@ == old(source)@.skip(8)
            },
            Err(e) => if old(source)@.len() < 8 {
                e == LoadError::ShortRead
            } else {
                &&& e == LoadError::Inconsistent
                &&& le_value(old(source)@.take(8)) > usize::MAX
                &&& final(source)@ == old(source)@.skip(8)
            },
        },
{
    match load_u64(source) {
        Ok(x) => {
            if x > usize::MAX as u64 {
                Err(LoadError::Inconsistent)
            } else {
                Ok(x as usize)
            }
        },
        Err(e) => Err(e),
    }
}

/// Read a vector of `u8`: its length, then its elements. A short read
/// where the bytes end before the vector does.
pub fn load_vec_u8(source: &mut Source) -> (r: Result<Vec<u8>, LoadError>)
    ensures
        match r {
            Ok(v) => {
                &&& vec_rest(old(source)@, 1) == Ok::<Seq<u8>, LoadError>(final(source)@)
                &&& values_of(v@) == vec_values(old(source)@, 1)
            },
            Err(e) => e == LoadError::ShortRead && vec_rest(old(source)@, 1) is Err,
        },
{
    let n = match load_u64(source) {
        Ok(n) => n,
        Err(e) => {
            return Err(e);
        },
    };
    if n > (source.remaining() / 1) as u64 {
        return Err(LoadError::ShortRead);
    }
    let n = n as usize;
    let ghost body = source@;
    let mut res: Vec<u8> = Vec::new();
    res.reserve(n);
    let mut i: usize = 0;
    assert(body.skip(0) =~= body);
    while i < n
        invariant
            i <= n,
            n * 1 <= body.len(),
            source@ == body.skip(i * 1),
            res@.len() == i,
            forall|j: int|
                0 <= j < i ==> #[trigger] res@[j] == le_value(body.subrange(j * 1, (j + 1) * 1)),
        decreases n - i,
    {
        let x = match source.take(1) {
            Ok(bytes) => {
                assert(bytes@ =~= body.subrange(i * 1, (i + 1) * 1));
                u8_from_le(bytes)
            },
            Err(e) => {
                return Err(e);
            },
        };
        assert(source@ =~= body.skip((i + 1) * 1));
        res.push(x);
        i += 1;
    }
    proof {
        let from = old(source)@;
        assert(body == from.skip(8));
        assert forall|j: int| 0 <= j < n implies values_of(res@)[j] == vec_values(from, 1)[j] by {
            assert(body.subrange(j * 1, (j + 1) * 1) =~= from.subrange(
                8 + j * 1,
                8 + (j + 1) * 1,
            ));
        }
        assert(values_of(res@) =~= vec_values(from, 1));
        assert(source@ =~= from.skip(8 + n * 1));
    }
    Ok(res)
}

/// Read a vector of `u16`: its length, then its elements. A short read
/// where the bytes end before the vector does.
pub fn load_vec_u16(source: &mut Source) -> (r: Result<Vec<u16>, LoadError>)
    ensures
        match r {
            Ok(v) => {
                &&& vec_rest(old(source)@, 2) == Ok::<Seq<u8>, LoadError>(final(source)@)
                &&& values_of(v@) == vec_values(old(source)@, 2)
            },
            Err(e) => e == LoadError::ShortRead && vec_rest(old(source)@, 2) is Err,
        },
{
    let n = match load_u64(source) {
        Ok(n) => n,
        Err(e) => {
            return Err(e);
        },
    };
    if n > (source.remaining() / 2) as u64 {
        return Err(LoadError::ShortRead);
    }
    let n = n as usize;
    let ghost body = source@;
    let mut res: Vec<u16> = Vec::new();
    res.reserve(n);
    let mut i: usize = 0;
    assert(body.skip(0) =~= body);
    while i < n
        invariant
            i <= n,
            n * 2 <= body.len(),
            source@ == body.skip(i * 2),
            res@.len() == i,
            forall|j: int|
                0 <= j < i ==> #[trigger] res@[j] == le_value(body.subrange(j * 2, (j + 1) * 2)),
        decreases n - i,
    {
        let x = match source.take(2) {
            Ok(bytes) => {
                assert(bytes@ =~= body.subrange(i * 2, (i + 1) * 2));
                u16_from_le(bytes)
            },
            Err(e) => {
                return Err(e);
            },
        };
        assert(source@ =~= body.skip((i + 1) * 2));
        res.push(x);
        i += 1;
    }
    proof {
        let from = old(source)@;
        assert(body == from.skip(8));
        assert forall|j: int| 0 <= j < n implies values_of(res@)[j] == vec_values(from, 2)[j] by {
            assert(body.subrange(j * 2, (j + 1) * 2) =~= from.subrange(
                8 + j * 2,
                8 + (j + 1) * 2,
            ));
        }
        assert(values_of(res@) =~= vec_values(from, 2));
        assert(source@ =~= from.skip(8 + n * 2));
    }
    Ok(res)
}

/// Read a vector of `u32`: its length, then its elements. A short read
/// where the bytes end before the vector does.
pub fn load_vec_u32(source: &mut Source) -> (r: Result<Vec<u32>, LoadError>)
    ensures
        match r {
            Ok(v) => {
                &&& vec_rest(old(source)@, 4) == Ok::<Seq<u8>, LoadError>(final(source)@)
                &&& values_of(v@) == vec_values(old(source)@, 4)
            },
            Err(e) => e == LoadError::ShortRead && vec_rest(old(source)@, 4) is Err,
        },
{
    let n = match load_u64(source) {
        Ok(n) => n,
        Err(e) => {
            return Err(e);
        },
    };
    if n > (source.remaining() / 4) as u64 {
        return Err(LoadError::ShortRead);
    }
    let n = n as usize;
    let ghost body = source@;
    let mut res: Vec<u32> = Vec::new();
    res.reserve(n);
    let mut i: usize = 0;
    assert(body.skip(0) =~= body);
    while i < n
        invariant
            i <= n,
            n * 4 <= body.len(),
            source@ == body.skip(i * 4),
            res@.len() == i,
            forall|j: int|
                0 <= j < i ==> #[trigger] res@[j] == le_value(body.subrange(j * 4, (j + 1) * 4)),
        decreases n - i,
    {
        let x = match source.take(4) {
            Ok(bytes) => {
                assert(bytes@ =~= body.subrange(i * 4, (i + 1) * 4));
                u32_from_le(bytes)
            },
            Err(e) => {
                return Err(e);
            },
        };
        assert(source@ =~= body.skip((i + 1) * 4));
        res.push(x);
        i += 1;
    }
    proof {
        let from = old(source)@;
        assert(body == from.skip(8));
        assert forall|j: int| 0 <= j < n implies values_of(res@)[j] == vec_values(from, 4)[j] by {
            assert(body.subrange(j * 4, (j + 1) * 4) =~= from.subrange(
                8 + j * 4,
                8 + (j + 1) * 4,
            ));
        }
        assert(values_of(res@) =~= vec_values(from, 4));
        assert(source@ =~= from.skip(8 + n * 4));
    }
    Ok(res)
}

/// Read a vector of `u64`: its length, then its elements. A short read
/// where the bytes end before the vector does.
pub fn load_vec_u64(source: &mut Source) -> (r: Result<Vec<u64>, LoadError>)
    ensures
        match r {
            Ok(v) => {
                &&& vec_rest(old(source)@, 8) == Ok::<Seq<u8>, LoadError>(final(source)@)
                &&& values_of(v@) == vec_values(old(source)@, 8)
            },
            Err(e) => e == LoadError::ShortRead && vec_rest(old(source)@, 8) is Err,
        },
{
    let n = match load_u64(source) {
        Ok(n) => n,
        Err(e) => {
            return Err(e);
        },
    };
    if n > (source.remaining() / 8) as u64 {
        return Err(LoadError::ShortRead);
    }
    let n = n as usize;
    let ghost body = source@;
    let mut res: Vec<u64> = Vec::new();
    res.reserve(n);
    let mut i: usize = 0;
    assert(body.skip(0) =~= body);
    while i < n
        invariant
            i <= n,
            n * 8 <= body.len(),
            source@ == body.skip(i * 8),
            res@.len() == i,
            forall|j: int|
                0 <= j < i ==> #[trigger] res@[j] == le_value(body.subrange(j * 8, (j + 1) * 8)),
        decreases n - i,
    {
        let x = match source.take(8) {
            Ok(bytes) => {
                assert(bytes@ =~= body.subrange(i * 8, (i + 1) * 8));
                u64_from_le(bytes)
            },
            Err(e) => {
                return Err(e);
            },
        };
        assert(source@ =~= body.skip((i + 1) * 8));
        res.push(x);
        i += 1;
    }
    proof {
        let from = old(source)@;
        assert(body == from.skip(8));
        assert forall|j: int| 0 <= j < n implies values_of(res@)[j] == vec_values(from, 8)[j] by {
            assert(body.subrange(j * 8, (j + 1) * 8) =~= from.subrange(
                8 + j * 8,
                8 + (j + 1) * 8,
            ));
        }
        assert(values_of(res@) =~= vec_values(from, 8));
        assert(source@ =~= from.skip(8 + n * 8));
    }
    Ok(res)
}

/// A structure that can be written to bytes and read back from them.
pub trait Persistent: Sized {
    /// Whether the structure is valid, which is promised of one that was
    /// read, and asked of one that is to be read back as it was written.
    spec fn storable(&self) -> bool;

    /// The bytes of the structure.
    spec fn stored(&self) -> Seq<u8>;

    /// What is left of the bytes behind the valid structure at their front,
    /// or why there is no valid structure at their front.
    spec fn decoded(bytes: Seq<u8>) -> Result<Seq<u8>, LoadError>;

    /// Append the bytes of the structure to the sink.
    fn save(&self, sink: &mut Vec<u8>)
        ensures
            final(sink)@ == old(sink)@ + self.stored(),
    ;

    /// Read a structure from the front of the source. The structure read is
    /// valid, and the bytes read are its bytes.
    fn load(source: &mut Source) -> (r: Result<Box<Self>, LoadError>)
        ensures
            match r {
                Ok(x) => {
                    &&& x.storable()
                    &&& Self::decoded(old(source)@) == Ok::<Seq<u8>, LoadError>(final(source)@)
                    &&& old(source)@ == x.stored() + final(source)@
                },
                Err(e) => Self::decoded(old(source)@) == Err::<Seq<u8>, LoadError>(e),
            },
    ;
}

/// What a call of `load` promises, on the bytes `from`, of its result and
/// of the bytes that it leaves.
pub open spec fn loaded<T: Persistent>(
    from: Seq<u8>,
    r: Result<Box<T>, LoadError>,
    rest: Seq<u8>,
) -> bool {
    match r {
        Ok(x) => {
            &&& x.storable()
            &&& T::decoded(from) == Ok::<Seq<u8>, LoadError>(rest)
            &&& from == x.stored() + rest
        },
        Err(e) => T::decoded(from) == Err::<Seq<u8>, LoadError>(e),
    }
}

/// The first 8 bytes of bytes that begin with a number of 8 bytes hold
/// that number.
pub proof fn lemma_number_first(x: nat, tail: Seq<u8>)
    requires
        x < span(8),
    ensures
        (le_bytes(x, 8) + tail).len() >= 8,
        le_value((le_bytes(x, 8) + tail).take(8)) == x,
        (le_bytes(x, 8) + tail).skip(8) == tail,
{
    let s = le_bytes(x, 8) + tail;
    lemma_le_bytes_len(x, 8);
    lemma_le_value_of_bytes(x, 8);
    assert(s.take(8) =~= le_bytes(x, 8));
    assert(s.skip(8) =~= tail);
}

/// The numbers of a sequence as `u64`.
pub open spec fn as_u64s(vals: Seq<nat>) -> Seq<u64> {
    Seq::new(vals.len(), |i: int| vals[i] as u64)
}

/// The numbers of a sequence as `u32`.
pub open spec fn as_u32s(vals: Seq<nat>) -> Seq<u32> {
    Seq::new(vals.len(), |i: int| vals[i] as u32)
}

/// A sequence of `u64` is read back from its numbers.
pub proof fn lemma_as_u64s(xs: Seq<u64>)
    ensures
        as_u64s(values_of(xs)) == xs,
        values_of(xs).len() == xs.len(),
        forall|i: int| 0 <= i < xs.len() ==> #[trigger] values_of(xs)[i] < span(8),
{
    lemma_spans();
    assert(as_u64s(values_of(xs)) =~= xs);
}

/// A sequence of `u32` is read back from its numbers.
pub proof fn lemma_as_u32s(xs: Seq<u32>)
    ensures
        as_u32s(values_of(xs)) == xs,
        values_of(xs).len() == xs.len(),
        forall|i: int| 0 <= i < xs.len() ==> #[trigger] values_of(xs)[i] < span(4),
{
    lemma_spans();
    assert(as_u32s(values_of(xs)) =~= xs);
}

/// Parts that are joined one behind the other can be joined from the front
/// or from the back.
pub proof fn lemma_joined(a: Seq<u8>, b: Seq<u8>, c: Seq<u8>, d: Seq<u8>, e: Seq<u8>)
    ensures
        a + (b + (c + (d + e))) == a + b + c + d + e,
        a + (b + (c + d)) == a + b + c + d,
        a + (b + c) == a + b + c,
{
    assert(a + (b + (c + (d + e))) =~= a + b + c + d + e);
    assert(a + (b + (c + d)) =~= a + b + c + d);
    assert(a + (b + c) =~= a + b + c);
}

/// Bytes that begin with a number of 8 bytes are the bytes of that number,
/// followed by the others.
pub proof fn lemma_number_parsed(s: Seq<u8>)
    requires
        s.len() >= 8,
    ensures
        s == le_bytes(le_value(s.take(8)), 8) + s.skip(8),
        le_value(s.take(8)) < span(8),
{
    lemma_le_bytes_of_value(s.take(8));
    assert(s =~= s.take(8) + s.skip(8));
}

} // verus!
