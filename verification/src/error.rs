//! The ways in which an operation of the engine can fail.

use vstd::prelude::*;

verus! {

/// Why an operation was refused.
#[derive(Clone, Copy, Debug, PartialEq, Eq, Structural)]
pub enum FfiError {
    /// The name is neither registered nor one of the built-in types, nor a
    /// pointer or array form of one.
    UnknownType,
    /// The brackets of an array type do not close, or hold no count.
    MalformedTypeSyntax,
    /// The struct or union has no field of that name.
    FieldNotFound,
    /// A field was asked of a value that is neither a struct nor a union.
    NotAnAggregate,
    /// An element was asked of a value that is neither an array nor a pointer.
    NotAnIndexable,
    /// The host value cannot be stored in a value of the target type.
    TypeMismatch,
    /// Fewer bytes are there than the operation needs.
    BufferTooSmall { available: usize, needed: usize },
    /// More bytes were to be written than the destination holds.
    BufferOverflow { requested: usize, capacity: usize },
    /// The length given for an array of unknown length is missing, negative
    /// or not a number.
    InvalidVlaSize,
    /// The address is null.
    NullPointerAccess,
    /// The bytes at the address are not held by the engine's memory.
    InvalidAddress,
    /// The memory cannot provide the storage asked for.
    AllocationFailure,
    /// A copy from foreign memory was asked without a length.
    LengthRequired,
    /// No zero byte ends the text.
    UnterminatedString,
    /// The declarations stop being recognised at `offset`; the span not
    /// consumed is `length` characters long.
    ParseError { offset: usize, length: usize },
}

} // verus!
