//! The job ledger: the state of a job is never stored, it is replayed from the
//! snapshots that name the job. A claim holds a job until its lease runs out;
//! a proof from the holder, within the lease, settles it. Every reader that
//! replays the same history reaches the same state.
//!
//! A proof that does not come from the holder within the lease is a
//! mismatch: it leaves the state as it was and is reported to the caller.

use vstd::prelude::*;
use crate::records::{same_text, Claim, Proof};

verus! {

/// One snapshot of a job's history, as the ledger reads it.
pub enum Event {
    /// The job was published and assigned to an epoch.
    Job { id: String, job_id: String, ts: u64, epoch: u64 },
    /// A miner bid for the job.
    Claim(Claim),
    /// A miner reported the job done.
    Proof(Proof),
}

/// What the ledger knows of a job.
pub enum JobState {
    /// No snapshot has published the job.
    Unknown,
    /// The job can be claimed.
    Open,
    /// `miner` holds the job until `expiry`.
    Claimed { miner: String, expiry: u64 },
    /// `miner` proved the job with the proof `proof_id`.
    Proven { miner: String, proof_id: String },
}

/// The mathematical value of a `JobState`.
pub ghost enum Status {
    Unknown,
    Open,
    Claimed { miner: Seq<char>, expiry: nat },
    Proven { miner: Seq<char>, proof_id: Seq<char> },
}

/// Why a snapshot did not change the ledger.
#[derive(PartialEq, Eq, Structural, Clone, Copy, Debug)]
pub enum LedgerError {
    /// The snapshot's fields make no sense together.
    MalformedSnapshot,
    /// The claim names a job that is not open.
    LeaseConflict,
    /// The proof does not come from the job's holder within the lease.
    ProofMismatch,
}

impl View for JobState {
    type V = Status;

    open spec fn view(&self) -> Status {
        match *self {
            JobState::Unknown => Status::Unknown,
            JobState::Open => Status::Open,
            JobState::Claimed { miner, expiry } => Status::Claimed {
                miner: miner@,
                expiry: expiry as nat,
            },
            JobState::Proven { miner, proof_id } => Status::Proven {
                miner: miner@,
                proof_id: proof_id@,
            },
        }
    }
}

impl Event {
    /// The job that the event names.
    pub open spec fn job(self) -> Seq<char> {
        match self {
            Event::Job { job_id, .. } => job_id@,
            Event::Claim(c) => c.job_id@,
            Event::Proof(p) => p.job_id@,
        }
    }

    /// The id of the snapshot that carried the event.
    pub open spec fn id(self) -> Seq<char> {
        match self {
            Event::Job { id, .. } => id@,
            Event::Claim(c) => c.id@,
            Event::Proof(p) => p.id@,
        }
    }

    /// The time of the event.
    pub open spec fn at(self) -> nat {
        match self {
            Event::Job { ts, .. } => ts as nat,
            Event::Claim(c) => c.claim_ts as nat,
            Event::Proof(p) => p.ts as nat,
        }
    }
}

/// A state as a reader sees it at `now`: a claim whose lease has run out no
/// longer holds the job. The lease is active while `now < expiry`.
pub open spec fn seen_at(s: Status, now: nat) -> Status {
    match s {
        Status::Claimed { miner, expiry } => if now < expiry {
            s
        } else {
            Status::Open
        },
        _ => s,
    }
}

/// What a claim does to a job in state `s`: it takes the job if the job is
/// open at the claim's time, and is a conflict otherwise.
pub open spec fn claim_verdict(s: Status, c: Claim) -> Result<Status, LedgerError> {
    if c.claim_ts + c.lease_seconds > u64::MAX {
        Err(LedgerError::MalformedSnapshot)
    } else if seen_at(s, c.claim_ts as nat) == Status::Open {
        Ok(Status::Claimed { miner: c.miner@, expiry: (c.claim_ts + c.lease_seconds) as nat })
    } else {
        Err(LedgerError::LeaseConflict)
    }
}

/// What a proof does to a job in state `s`: it settles the job if its miner
/// holds the job and the lease has not run out at the proof's time.
pub open spec fn proof_verdict(s: Status, p: Proof) -> Result<Status, LedgerError> {
    match s {
        Status::Claimed { miner, expiry } => if miner == p.miner@ && p.ts < expiry {
            Ok(Status::Proven { miner, proof_id: p.id@ })
        } else {
            Err(LedgerError::ProofMismatch)
        },
        _ => Err(LedgerError::ProofMismatch),
    }
}

/// The state after `e`: a snapshot that is refused leaves the state as it was.
pub open spec fn after(s: Status, e: Event) -> Status {
    match e {
        Event::Job { .. } => if s == Status::Unknown {
            Status::Open
        } else {
            s
        },
        Event::Claim(c) => match claim_verdict(s, c) {
            Ok(next) => next,
            Err(_) => s,
        },
        Event::Proof(p) => match proof_verdict(s, p) {
            Ok(next) => next,
            Err(_) => s,
        },
    }
}

/// The state of `job` after those of `events`, in their order, that name it
/// and are not later than `now`.
pub open spec fn replayed(events: Seq<Event>, job: Seq<char>, now: nat) -> Status
    decreases events.len(),
{
    if events.len() == 0 {
        Status::Unknown
    } else {
        let before = replayed(events.drop_last(), job, now);
        let e = events.last();
        if e.job() == job && e.at() <= now {
            after(before, e)
        } else {
            before
        }
    }
}

/// A copy of `state`.
pub fn copy_state(state: &JobState) -> (copy: JobState)
    ensures
        copy@ == state@,
{
    match state {
        JobState::Unknown => JobState::Unknown,
        JobState::Open => JobState::Open,
        JobState::Claimed { miner, expiry } => JobState::Claimed {
            miner: miner.clone(),
            expiry: *expiry,
        },
        JobState::Proven { miner, proof_id } => JobState::Proven {
            miner: miner.clone(),
            proof_id: proof_id.clone(),
        },
    }
}

/// The state as a reader sees it at `now`.
pub fn status_at(state: &JobState, now: u64) -> (seen: JobState)
    ensures
        seen@ == seen_at(state@, now as nat),
{
    match state {
        JobState::Claimed { miner, expiry } => {
            if now < *expiry {
                copy_state(state)
            } else {
                JobState::Open
            }
        },
        _ => copy_state(state),
    }
}

/// Decides a claim against the state of its job: the state in which the
/// claimant holds the job, or the reason why the claim is void.
pub fn try_claim(state: &JobState, claim: &Claim) -> (r: Result<JobState, LedgerError>)
    ensures
        match r {
            Ok(next) => claim_verdict(state@, *claim) == Ok::<Status, LedgerError>(next@),
            Err(e) => claim_verdict(state@, *claim) == Err::<Status, LedgerError>(e),
        },
{
    if claim.lease_seconds > u64::MAX - claim.claim_ts {
        return Err(LedgerError::MalformedSnapshot);
    }
    let seen = status_at(state, claim.claim_ts);
    match seen {
        JobState::Open => Ok(
            JobState::Claimed {
                miner: claim.miner.clone(),
                expiry: claim.claim_ts + claim.lease_seconds,
            },
        ),
        _ => Err(LedgerError::LeaseConflict),
    }
}

/// Decides a proof against the state of its job: the state in which the job
/// is proven, or a mismatch.
pub fn try_prove(state: &JobState, proof: &Proof) -> (r: Result<JobState, LedgerError>)
    ensures
        match r {
            Ok(next) => proof_verdict(state@, *proof) == Ok::<Status, LedgerError>(next@),
            Err(e) => proof_verdict(state@, *proof) == Err::<Status, LedgerError>(e),
        },
{
    match state {
        JobState::Claimed { miner, expiry } => {
            if same_text(miner, &proof.miner) && proof.ts < *expiry {
                Ok(JobState::Proven { miner: miner.clone(), proof_id: proof.id.clone() })
            } else {
                Err(LedgerError::ProofMismatch)
            }
        },
        _ => Err(LedgerError::ProofMismatch),
    }
}

/// The state after one more snapshot.
pub fn apply(state: JobState, event: &Event) -> (next: JobState)
    ensures
        next@ == after(state@, *event),
{
    match event {
        Event::Job { .. } => match state {
            JobState::Unknown => JobState::Open,
            _ => state,
        },
        Event::Claim(c) => match try_claim(&state, c) {
            Ok(next) => next,
            Err(_) => state,
        },
        Event::Proof(p) => match try_prove(&state, p) {
            Ok(next) => next,
            Err(_) => state,
        },
    }
}

/// Whether `event` names `job_id` and is not later than `now`.
fn concerns(event: &Event, job_id: &String, now: u64) -> (yes: bool)
    ensures
        yes == (event.job() == job_id@ && event.at() <= now),
{
    match event {
        Event::Job { job_id: j, ts, .. } => same_text(j, job_id) && *ts <= now,
        Event::Claim(c) => same_text(&c.job_id, job_id) && c.claim_ts <= now,
        Event::Proof(p) => same_text(&p.job_id, job_id) && p.ts <= now,
    }
}

/// Replays the history of `job_id` up to `now`, leases not yet judged.
pub fn replay(events: &Vec<Event>, job_id: &String, now: u64) -> (state: JobState)
    ensures
        state@ == replayed(events@, job_id@, now as nat),
{
    let mut state = JobState::Unknown;
    let mut i: usize = 0;
    proof {
        assert(events@.take(0) =~= Seq::<Event>::empty());
    }
    while i < events.len()
        invariant
            i <= events@.len(),
            state@ == replayed(events@.take(i as int), job_id@, now as nat),
        decreases events@.len() - i,
    {
        proof {
            assert(events@.take(i + 1).drop_last() =~= events@.take(i as int));
            assert(events@.take(i + 1).last() == events@[i as int]);
        }
        if concerns(&events[i], job_id, now) {
            state = apply(state, &events[i]);
        }
        i += 1;
    }
    proof {
        assert(events@.take(i as int) =~= events@);
    }
    state
}

/// The state of `job_id` as a reader sees it at `now`: its history up to
/// `now` replayed, and a lease that has run out by `now` no longer counted.
pub fn job_status(events: &Vec<Event>, job_id: &String, now: u64) -> (state: JobState)
    ensures
        state@ == seen_at(replayed(events@, job_id@, now as nat), now as nat),
{
    let raw = replay(events, job_id, now);
    status_at(&raw, now)
}

/// On an open job a well-formed claim is accepted and holds the job; a second
/// claim, made before the first's lease has run out, is a lease conflict,
/// whoever makes it.
pub proof fn lemma_second_claim_conflicts(first: Claim, second: Claim)
    requires
        first.claim_ts + first.lease_seconds <= u64::MAX,
        second.claim_ts + second.lease_seconds <= u64::MAX,
        first.claim_ts <= second.claim_ts < first.claim_ts + first.lease_seconds,
    ensures
        claim_verdict(Status::Open, first) == Ok::<Status, LedgerError>(
            Status::Claimed {
                miner: first.miner@,
                expiry: (first.claim_ts + first.lease_seconds) as nat,
            },
        ),
        claim_verdict(after(Status::Open, Event::Claim(first)), second) == Err::<
            Status,
            LedgerError,
        >(LedgerError::LeaseConflict),
        after(after(Status::Open, Event::Claim(first)), Event::Claim(second)) == after(
            Status::Open,
            Event::Claim(first),
        ),
{
}

/// A claim whose lease has run out blocks nobody: a well-formed claim made at
/// or after the expiry is accepted, also from the miner that held the job.
pub proof fn lemma_expired_claim_does_not_block(held: Claim, fresh: Claim)
    requires
        held.claim_ts + held.lease_seconds <= u64::MAX,
        fresh.claim_ts + fresh.lease_seconds <= u64::MAX,
        held.claim_ts + held.lease_seconds <= fresh.claim_ts,
    ensures
        claim_verdict(after(Status::Open, Event::Claim(held)), fresh) == Ok::<Status, LedgerError>(
            Status::Claimed {
                miner: fresh.miner@,
                expiry: (fresh.claim_ts + fresh.lease_seconds) as nat,
            },
        ),
        seen_at(after(Status::Open, Event::Claim(held)), fresh.claim_ts as nat) == Status::Open,
{
}

} // verus!
