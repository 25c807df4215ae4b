use vstd::prelude::*;

pub mod bytes;
pub mod collection;
pub mod error;
pub mod lease;
pub mod queue;
pub mod store;

verus! {

/// Largest time-to-live of a lease, in seconds.
pub const MAX_LEASE_TTL: i64 = 9_000_000_000;

/// Smallest time-to-live of a lease, in seconds.
pub const MIN_LEASE_TTL: i64 = 1;

} // verus!
