//! The ways in which building a structure or reading one back can fail.

use vstd::prelude::*;

verus! {

/// Why a structure could not be built from the values given.
#[derive(Debug, Clone, Copy, PartialEq, Eq, Structural)]
pub enum BuildError {
    /// The size is above the number of bits that the words hold.
    SizeExceedsWords,
    /// A bit is set at the position of the size or behind it.
    BitsBeyondSize,
    /// The words or their set bits are too many for the 32-bit indexes.
    IndexOverflow,
    /// The domain width is above 63 bits.
    WidthTooLarge,
    /// The count given is not the number of elements given.
    CountMismatch,
    /// An element lies outside the domain.
    OutOfDomain,
    /// The elements are not in strictly increasing order.
    NotIncreasing,
}

/// Why a structure could not be read back from bytes.
#[derive(Debug, Clone, Copy, PartialEq, Eq, Structural)]
pub enum LoadError {
    /// The bytes end before the structure does.
    ShortRead,
    /// The width tag of an integer vector, which is carried along, is none
    /// of 8, 16, 24, 32, 48, 64.
    UnknownWidth(u64),
    /// The parts were read, and do not make up a valid structure.
    Inconsistent,
}

} // verus!
