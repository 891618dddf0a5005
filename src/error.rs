use vstd::prelude::*;

verus! {

/// Failures of the storage engine.
#[derive(Debug, Clone, Copy, PartialEq, Eq, Structural)]
pub enum StoreError {
    /// No object is stored under the requested digest.
    NotFound,
    /// A stored object does not decode to a valid block.
    DecodeFailure,
}

} // verus!
