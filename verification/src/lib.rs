//! A persisted registry of revenue-share offerings keyed by (issuer, token)
//! pairs, together with a per-token blacklist of investor addresses and a
//! revenue-reporting operation that emits a notification carrying the
//! blacklist snapshot taken at call time.
//!
//! Host concerns (authorization, durable storage, the notification channel)
//! are modeled as collaborators: authorization verdicts are passed in by the
//! caller, state is held by [`registry::RevoraRevenueShare`], and emitted
//! notifications accumulate in its event log.

pub mod laws;
pub mod model;
pub mod registry;
pub mod types;

pub use model::MAX_PAGE_LIMIT;
pub use registry::RevoraRevenueShare;
pub use types::Error;
pub use types::Event;
pub use types::Offering;
pub use types::OfferingStatus;
