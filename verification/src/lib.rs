//! Coordination rules for a pool of compute providers that talk only through
//! signed, content-addressed snapshots: the snapshot codec, signature checks,
//! the per-job ledger with its claim leases, and epoch settlement.

pub mod cli;
pub mod config;
pub mod digest;
pub mod epoch;
pub mod json;
pub mod lease;
pub mod ledger;
pub mod merkle;
pub mod order;
pub mod records;
pub mod settlement;
pub mod signing;
pub mod snapshot;
pub mod store;
