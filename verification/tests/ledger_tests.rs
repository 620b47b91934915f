use swarmhive::ledger::{
    apply, job_status, replay, status_at, try_claim, try_prove, Event, JobState, LedgerError,
};
use swarmhive::records::{Claim, Proof};

fn job_event(job: &str, ts: u64) -> Event {
    Event::Job { id: format!("job-{}", ts), job_id: job.to_string(), ts, epoch: 1 }
}

fn claim(job: &str, miner: &str, ts: u64, lease: u64) -> Claim {
    Claim {
        id: format!("claim-{}-{}", job, ts),
        job_id: job.to_string(),
        miner: miner.to_string(),
        claim_ts: ts,
        lease_seconds: lease,
    }
}

fn proved(job: &str, miner: &str, ts: u64, seconds: u64) -> Proof {
    Proof {
        id: format!("proof-{}-{}", job, ts),
        job_id: job.to_string(),
        miner: miner.to_string(),
        ts,
        compute_seconds: seconds,
        payload_hash: vec![ts as u8; 32],
    }
}

fn is_claimed_by(state: &JobState, who: &str, until: u64) -> bool {
    matches!(state, JobState::Claimed { miner, expiry } if miner == who && *expiry == until)
}

#[test]
fn second_claim_within_lease_is_a_conflict() {
    let job = "job-42".to_string();
    let events = vec![
        job_event("job-42", 900),
        Event::Claim(claim("job-42", "m1", 1000, 900)),
        Event::Claim(claim("job-42", "m2", 1050, 900)),
    ];
    assert!(is_claimed_by(&job_status(&events, &job, 1050), "m1", 1900));
    assert!(is_claimed_by(&job_status(&events, &job, 1899), "m1", 1900));

    let first_two = vec![job_event("job-42", 900), Event::Claim(claim("job-42", "m1", 1000, 900))];
    let held = replay(&first_two, &job, 1050);
    assert!(matches!(
        try_claim(&held, &claim("job-42", "m2", 1050, 900)),
        Err(LedgerError::LeaseConflict)
    ));
}

#[test]
fn job_reopens_when_lease_runs_out() {
    let job = "job-42".to_string();
    let events = vec![
        job_event("job-42", 900),
        Event::Claim(claim("job-42", "m1", 1000, 900)),
        Event::Claim(claim("job-42", "m2", 1050, 900)),
    ];
    assert!(matches!(job_status(&events, &job, 1900), JobState::Open));
    assert!(matches!(job_status(&events, &job, 1901), JobState::Open));
}

#[test]
fn history_before_publication() {
    let job = "job-42".to_string();
    let events = vec![job_event("job-42", 900), Event::Claim(claim("job-42", "m1", 1000, 900))];
    assert!(matches!(job_status(&events, &job, 899), JobState::Unknown));
    assert!(matches!(job_status(&events, &job, 900), JobState::Open));
    assert!(matches!(job_status(&events, &job, 999), JobState::Open));
    assert!(is_claimed_by(&job_status(&events, &job, 1000), "m1", 1900));
    assert!(matches!(job_status(&events, &"other".to_string(), 1000), JobState::Unknown));
    assert!(matches!(job_status(&Vec::new(), &job, 1000), JobState::Unknown));
}

#[test]
fn single_claim_on_open_job_is_accepted() {
    let next = try_claim(&JobState::Open, &claim("j", "m1", 10, 5)).ok().unwrap();
    assert!(is_claimed_by(&next, "m1", 15));
}

#[test]
fn claim_on_unknown_job_is_a_conflict() {
    assert!(matches!(
        try_claim(&JobState::Unknown, &claim("j", "m1", 10, 5)),
        Err(LedgerError::LeaseConflict)
    ));
}

#[test]
fn claim_on_proven_job_is_a_conflict() {
    let proven = JobState::Proven { miner: "m1".to_string(), proof_id: "p".to_string() };
    assert!(matches!(
        try_claim(&proven, &claim("j", "m2", 10_000, 5)),
        Err(LedgerError::LeaseConflict)
    ));
}

#[test]
fn expired_claim_does_not_block_anyone() {
    let held = JobState::Claimed { miner: "m1".to_string(), expiry: 1900 };
    let by_other = try_claim(&held, &claim("j", "m2", 1901, 60)).ok().unwrap();
    assert!(is_claimed_by(&by_other, "m2", 1961));
    let by_same = try_claim(&held, &claim("j", "m1", 1900, 60)).ok().unwrap();
    assert!(is_claimed_by(&by_same, "m1", 1960));
    assert!(matches!(
        try_claim(&held, &claim("j", "m1", 1899, 60)),
        Err(LedgerError::LeaseConflict)
    ));
}

#[test]
fn claim_whose_lease_overflows_is_malformed() {
    assert!(matches!(
        try_claim(&JobState::Open, &claim("j", "m1", u64::MAX, 1)),
        Err(LedgerError::MalformedSnapshot)
    ));
    let next = try_claim(&JobState::Open, &claim("j", "m1", u64::MAX - 1, 1)).ok().unwrap();
    assert!(is_claimed_by(&next, "m1", u64::MAX));
}

#[test]
fn proof_from_holder_settles_the_job() {
    let held = JobState::Claimed { miner: "m1".to_string(), expiry: 1900 };
    let p = proved("j", "m1", 1500, 300);
    let next = try_prove(&held, &p).ok().unwrap();
    assert!(matches!(&next, JobState::Proven { miner, proof_id } if miner == "m1" && *proof_id == p.id));
    // a proven job stays proven whatever the time
    assert!(matches!(status_at(&next, u64::MAX), JobState::Proven { .. }));
}

#[test]
fn proof_from_another_miner_is_a_mismatch() {
    let held = JobState::Claimed { miner: "m1".to_string(), expiry: 1900 };
    assert!(matches!(
        try_prove(&held, &proved("j", "m2", 1500, 300)),
        Err(LedgerError::ProofMismatch)
    ));
    let after = apply(held, &Event::Proof(proved("j", "m2", 1500, 300)));
    assert!(is_claimed_by(&after, "m1", 1900));
}

#[test]
fn proof_after_lease_or_without_claim_is_a_mismatch() {
    let held = JobState::Claimed { miner: "m1".to_string(), expiry: 1900 };
    assert!(matches!(
        try_prove(&held, &proved("j", "m1", 1900, 300)),
        Err(LedgerError::ProofMismatch)
    ));
    assert!(matches!(
        try_prove(&JobState::Open, &proved("j", "m1", 10, 300)),
        Err(LedgerError::ProofMismatch)
    ));
    assert!(matches!(
        try_prove(&JobState::Unknown, &proved("j", "m1", 10, 300)),
        Err(LedgerError::ProofMismatch)
    ));
}

#[test]
fn full_history_of_a_job() {
    let job = "job-1".to_string();
    let events = vec![
        job_event("job-1", 10),
        job_event("job-2", 11),
        Event::Claim(claim("job-1", "m1", 100, 50)),
        Event::Claim(claim("job-2", "m2", 100, 50)),
        Event::Proof(proved("job-1", "m2", 120, 9)),
        Event::Claim(claim("job-1", "m2", 150, 50)),
        Event::Proof(proved("job-1", "m2", 170, 20)),
        Event::Claim(claim("job-1", "m3", 180, 50)),
    ];
    assert!(is_claimed_by(&job_status(&events, &job, 149), "m1", 150));
    assert!(is_claimed_by(&job_status(&events, &job, 169), "m2", 200));
    assert!(matches!(
        job_status(&events, &job, 500),
        JobState::Proven { miner, proof_id } if miner == "m2" && proof_id == "proof-job-1-170"
    ));
    // replaying the same history gives the same state
    assert!(matches!(
        replay(&events, &job, 500),
        JobState::Proven { miner, proof_id } if miner == "m2" && proof_id == "proof-job-1-170"
    ));
    assert!(matches!(job_status(&events, &"job-2".to_string(), 500), JobState::Open));
}
