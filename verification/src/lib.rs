//! A paged, persistent, append-only vector of snapshot records.
//!
//! A single byte-addressable store is carved into named logical regions by the
//! region manager; the paged vector lays a growable sequence of bounded-size
//! encoded records over one such region, surviving detach/reattach cycles.

pub mod codec;
pub mod errors;
pub mod region;
pub mod snapshot;
pub mod store;
pub mod vector;

pub use errors::Error;
pub use region::RegionManager;
pub use snapshot::Snapshot;
pub use snapshot::SnapshotVec;
pub use store::StableStore;
pub use vector::PagedVec;
