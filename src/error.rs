//! The library's error kinds.
use vstd::prelude::*;

verus! {

/// Why an operation of the library failed.
#[derive(Debug, Clone, Copy, PartialEq, Eq, Structural)]
pub enum StorageError {
    /// The bytes do not hold what their format demands.
    Corrupt,
    /// A caller broke a rule of the operation (keys out of order, an empty block).
    Invariant,
}

} // verus!
