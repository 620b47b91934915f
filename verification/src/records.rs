//! The records that snapshots carry into the ledger and into settlement.

use vstd::prelude::*;

verus! {

/// A miner's bid to hold a job for a while.
pub struct Claim {
    pub id: String,
    pub job_id: String,
    pub miner: String,
    pub claim_ts: u64,
    pub lease_seconds: u64,
}

/// A miner's statement that it computed a job.
pub struct Proof {
    pub id: String,
    pub job_id: String,
    pub miner: String,
    pub ts: u64,
    pub compute_seconds: u64,
    /// Digest of the snapshot that carried the proof.
    pub payload_hash: Vec<u8>,
}

/// Whether two texts are the same.
pub fn same_text(a: &String, b: &String) -> (same: bool)
    ensures
        same == (a@ == b@),
{
    *a == *b
}

} // verus!
