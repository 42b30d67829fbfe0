//! Typed failures reported by sketch operations.

use vstd::prelude::*;

verus! {

/// The error taxonomy of this library.
///
/// Every fallible operation reports one of these variants; validation
/// failures are detected before any state is touched, so an `Err` never
/// leaves a sketch in a partially-updated state.
#[derive(Debug, Clone, PartialEq, Eq)]
pub enum DataSketchesError {
    /// An error occurred during sketch creation.
    CreationError(String),
    /// An error occurred during serialization.
    SerializationError(String),
    /// An error occurred during deserialization.
    DeserializationError(String),
    /// An invalid parameter was provided.
    InvalidParameter(String),
    /// A null pointer was encountered.
    NullPointer,
    /// An unknown error occurred.
    Unknown(String),
}

} // verus!
