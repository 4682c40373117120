//! Why a map could not be built.
use vstd::prelude::*;
use std::collections::TryReserveError;

verus! {

/// Error returned when a static fuse map cannot be constructed.
#[derive(Debug)]
pub enum BuildError {
    /// Slice construction was called with different key and value lengths.
    MismatchedLengths { keys: usize, values: usize },
    /// The implementation uses 32-bit indexes internally.
    TooManyKeys { len: usize },
    /// A duplicate mixed key hash was detected.
    DuplicateHash,
    /// Peeling failed after repeated seed attempts.
    PeelFailed { attempts: u32 },
    /// Allocation failed while reserving memory.
    Reserve(TryReserveError),
}

impl BuildError {
    /// The text that describes this kind of error (the numbers that a
    /// displayed error adds are left out).
    pub fn message(&self) -> (m: &'static str)
        ensures
            *self is MismatchedLengths ==> m == "static-fuse-map: keys and values must have equal length",
            *self is TooManyKeys ==> m == "static-fuse-map: too many keys for 32-bit index space",
            *self is DuplicateHash ==> m == "static-fuse-map: duplicate key hash detected",
            *self is PeelFailed ==> m == "static-fuse-map: failed to construct map, possible duplicate keys",
            *self is Reserve ==> m == "static-fuse-map: allocation failed",
    {
        match self {
            BuildError::MismatchedLengths { .. } => "static-fuse-map: keys and values must have equal length",
            BuildError::TooManyKeys { .. } => "static-fuse-map: too many keys for 32-bit index space",
            BuildError::DuplicateHash => "static-fuse-map: duplicate key hash detected",
            BuildError::PeelFailed { .. } => "static-fuse-map: failed to construct map, possible duplicate keys",
            BuildError::Reserve(_) => "static-fuse-map: allocation failed",
        }
    }
}

} // verus!
