//! The command surface: one plain record per command, with the defaults the
//! commands fall back to.

use vstd::prelude::*;
use vstd::string::*;

verus! {

/// Lease length, in seconds, of a claim that names none.
pub const DEFAULT_LEASE_SECONDS: u64 = 900;

/// Seconds between two synchronisations of a watcher that names none.
pub const DEFAULT_WATCH_INTERVAL: u64 = 10;

/// A parsed command line.
pub struct Cli {
    pub command: Commands,
}

/// The commands of the tool.
pub enum Commands {
    /// Initialize a new miner identity
    Init(InitCmd),
    /// Watch the pool for available jobs
    Watch(WatchCmd),
    /// Submit a job snapshot
    Submit(SubmitCmd),
    /// Claim a job
    Claim(ClaimCmd),
    /// Submit proof of compute
    Prove(ProveCmd),
    /// Seal an epoch (controller only)
    Seal(SealCmd),
}

pub struct InitCmd {
    /// Identity handle of the miner
    pub ens: String,
    /// Pool to join
    pub pool: String,
}

pub struct WatchCmd {
    /// Pool to watch
    pub pool: String,
    /// Sync interval in seconds
    pub interval: u64,
}

pub struct SubmitCmd {
    /// Path to the job snapshot
    pub file: String,
}

pub struct ClaimCmd {
    /// Job to claim
    pub job_id: String,
    /// Lease duration in seconds
    pub lease: u64,
}

pub struct ProveCmd {
    /// Job that was computed
    pub job_id: String,
    /// Content address of the result
    pub result: String,
    /// Compute time in seconds
    pub compute_seconds: u64,
}

pub struct SealCmd {
    /// Epoch number to seal
    pub epoch: u64,
}

impl ClaimCmd {
    /// A claim on `job_id` with the default lease.
    pub fn with_default_lease(job_id: String) -> (cmd: ClaimCmd)
        ensures
            cmd.job_id == job_id,
            cmd.lease == DEFAULT_LEASE_SECONDS,
    {
        ClaimCmd { job_id, lease: DEFAULT_LEASE_SECONDS }
    }
}

impl WatchCmd {
    /// A watcher of `pool` with the default interval.
    pub fn with_default_interval(pool: String) -> (cmd: WatchCmd)
        ensures
            cmd.pool == pool,
            cmd.interval == DEFAULT_WATCH_INTERVAL,
    {
        WatchCmd { pool, interval: DEFAULT_WATCH_INTERVAL }
    }
}

} // verus!
