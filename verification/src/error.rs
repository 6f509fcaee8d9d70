//! The error taxonomy of the write and read operations.
//!
//! `InvalidInput` marks a request that violates a structural invariant and
//! is rejected before any storage mutation; `StorageFailure` marks a write
//! the store itself refused, with the enclosing transaction rolled back.
//! Either way the store is left exactly as it was.

use vstd::prelude::*;

verus! {

/// The structural invariant a rejected request violated.
#[derive(Clone, Copy, Debug, PartialEq, Eq, Structural)]
pub enum InputFault {
    /// Both an existing color reference and a new color payload were given.
    ColorChoiceBoth,
    /// Neither an existing color reference nor a new color payload was given.
    ColorChoiceNeither,
    /// The end of the Scoville range lies below its start.
    ScovilleRangeInverted,
    /// A color code that is not exactly six hexadecimal digits.
    HexadecimalMalformed,
    /// A weight token that does not denote an in-range fixed-point value.
    WeightNotRepresentable,
}

/// The constraint the store found violated while writing.
#[derive(Clone, Copy, Debug, PartialEq, Eq, Structural)]
pub enum StorageFault {
    /// A referenced color row does not exist.
    UnknownColor,
    /// A referenced fruit row does not exist.
    UnknownFruit,
    /// A referenced plant row does not exist.
    UnknownPlant,
    /// Two line items of one harvest name the same plant.
    DuplicateLineItem,
    /// A generated key column has no values left.
    IdSpaceExhausted,
}

/// A failed operation: the request was invalid, or the store refused it.
#[derive(Clone, Copy, Debug, PartialEq, Eq, Structural)]
pub enum StoreError {
    InvalidInput(InputFault),
    StorageFailure(StorageFault),
}

} // verus!
