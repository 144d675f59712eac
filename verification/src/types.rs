//! Data carried by the registry: offerings, operation errors, and the
//! notifications that mutating operations emit.

use vstd::prelude::*;

verus! {

/// Lifecycle state of an offering. Every offering this core creates is
/// `Active`; the other states are reserved for future transitions.
#[derive(Clone, Copy, Debug, PartialEq, Eq, Structural)]
pub enum OfferingStatus {
    Active,
    Suspended,
    Closed,
}

/// One issuer's revenue-share terms for one token. Addresses are principal
/// and asset identities, carried as plain integers.
#[derive(Clone, Copy, Debug, PartialEq, Eq, Structural)]
pub struct Offering {
    pub issuer: u64,
    pub token: u64,
    /// Basis points, range-checked to [0, 10000] at creation.
    pub revenue_share_bps: u32,
    pub status: OfferingStatus,
}

/// Why a mutating operation was rejected. Rejections are atomic: no state
/// changes and no notification is emitted.
#[derive(Clone, Copy, Debug, PartialEq, Eq, Structural)]
pub enum Error {
    /// The authorization collaborator denied the caller.
    Unauthorized,
    /// `revenue_share_bps` exceeds 10000.
    InvalidParameter,
    /// An offering for the (issuer, token) pair already exists.
    AlreadyExists,
}

/// A notification published for off-chain consumption. Each mutating
/// operation that succeeds appends exactly one to the registry's event log.
#[derive(Debug, PartialEq, Eq)]
pub enum Event {
    OfferingRegistered { issuer: u64, token: u64, revenue_share_bps: u32 },
    RevenueReported {
        issuer: u64,
        token: u64,
        amount: i128,
        period_id: u64,
        /// Snapshot of the token's blacklist at the moment of the report.
        blacklist: Vec<u64>,
    },
    BlacklistAdded { token: u64, caller: u64, investor: u64 },
    BlacklistRemoved { token: u64, caller: u64, investor: u64 },
}

} // verus!
