use vstd::prelude::*;

verus! {

/// Failures surfaced by the region manager and the paged vector.
#[derive(Clone, Copy, Debug, PartialEq, Eq, Structural)]
pub enum Error {
    /// A read reaches past a region's currently allocated extent.
    OutOfBounds,
    /// A record was requested at an index at or past the current length.
    IndexOutOfRange,
    /// A record's encoded form exceeds the fixed maximum slot size.
    EncodingTooLarge,
    /// Persisted metadata (bootstrap header, length field, or a record frame)
    /// is malformed; the store cannot be trusted.
    StoreCorruption,
    /// The store cannot allocate the additional pages a write would need.
    RegionGrowthFailure,
}

} // verus!
