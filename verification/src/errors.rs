//! The error taxonomy of the core.
//!
//! Every fatal condition is surfaced as a typed result instead of a
//! process abort; execution stops at the first error and nothing is rolled
//! back.

use vstd::prelude::*;

verus! {

#[derive(Clone, Copy, Debug, PartialEq, Eq, Structural)]
pub enum VmError {
    /// Heap capacity would be exceeded by an allocation.
    OutOfMemory,
    /// A global was read before anything was assigned to it.
    UndefinedGlobal { id: u64 },
    /// A receiver's type id has no entry in the type registry.
    UnknownType { type_code: u64 },
    /// A type's handler table has no entry for the sent message id.
    UnknownMessage { type_code: u64, id: u64 },
    /// A pop or peek reached beyond the operand stack's depth.
    StackUnderflow,
    /// A handler received an argument count it does not support.
    ArityMismatch { arg_count: u64 },
    /// A handler read an operand whose category it does not support.
    TypeMismatch,
    /// A pointer did not lead to a well-formed object of the expected kind.
    MalformedObject,
    /// The interpreter's step budget ran out before the program finished.
    StepLimit,
}

} // verus!
