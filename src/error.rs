use vstd::prelude::*;

verus! {

/// Why a lease operation was refused.
#[derive(Debug, Clone, Copy, PartialEq, Eq, Structural)]
pub enum LeaseError {
    /// The operation names an id that holds no lease.
    LeaseNotFound,
    /// A grant names an id that already holds a lease.
    LeaseExists(i64),
    /// A renewal came after the lease ran out.
    LeaseExpired,
    /// A grant asks for a time-to-live above the largest one.
    TtlTooLarge(i64),
    /// A keep-alive reached a node that is not the leader.
    NotLeader,
}

} // verus!
