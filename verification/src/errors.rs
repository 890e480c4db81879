//! The ways in which an operation of this library fails.

use vstd::prelude::*;

verus! {

/// Why an operation failed.
#[derive(Clone, Copy, Debug, PartialEq, Eq, Structural)]
pub enum ZeiError {
    /// A byte string does not encode an element of the group.
    DecompressElementError,
    /// A proof does not hold of the statement it was checked against.
    ZKProofVerificationError,
    /// No proof could be made of the given witness.
    AXfrProofError,
    /// A value could not be turned into bytes.
    SerializationError,
    /// Bytes do not encode a value of the expected kind.
    DeserializationError,
}

} // verus!
