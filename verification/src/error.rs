//! The ways in which an operation of the store can fail.

use vstd::prelude::*;

verus! {

/// Why an operation did not take place.
#[derive(Clone, Copy, Debug, PartialEq, Eq, Structural)]
pub enum CircuitError {
    /// A position lies outside the sequence, after a negative one has been
    /// counted from the end.
    IndexOutOfRange,
    /// An extended slice was assigned a number of values other than the
    /// number of positions it selects.
    LengthMismatch,
    /// An operand names a resource that is not registered.
    UnknownResource,
    /// The resource is registered already.
    DuplicateResource,
    /// The handle names no occupied slot of the pool.
    InvalidHandle,
    /// Every handle is in use and the operand list is a new one.
    PoolExhausted,
}

} // verus!
