use swarmhive::epoch::{
    accepted_proofs, advance, are_in_order, canonical_order, check_seal_authority,
    flagged_proofs, job_epoch, seal_epoch,
    EpochStatus,
};
use swarmhive::epoch::seal_history;
use swarmhive::lease::{
    is_in_order, is_voided_by, job_status_of, ordered_job_status, replay_order,
};
use swarmhive::order::{key_before, sorted_order, SortKey};
use swarmhive::ledger::{Event, JobState};
use swarmhive::merkle::node_digest;
use swarmhive::records::{Claim, Proof};
use swarmhive::settlement::SealError;

fn bid(id: &str, job: &str, miner: &str, ts: u64, lease: u64) -> Claim {
    Claim {
        id: id.to_string(),
        job_id: job.to_string(),
        miner: miner.to_string(),
        claim_ts: ts,
        lease_seconds: lease,
    }
}

fn done(id: &str, job: &str, miner: &str, ts: u64, seconds: u64) -> Proof {
    Proof {
        id: id.to_string(),
        job_id: job.to_string(),
        miner: miner.to_string(),
        ts,
        compute_seconds: seconds,
        payload_hash: ethers::utils::keccak256(id.as_bytes()).to_vec(),
    }
}

fn published(job: &str, ts: u64) -> Event {
    Event::Job { id: format!("job-{}", job), job_id: job.to_string(), ts, epoch: 5 }
}

#[test]
fn earlier_claim_voids_later_claim() {
    let first = bid("c1", "job-42", "m1", 1000, 900);
    let second = bid("c2", "job-42", "m2", 1050, 900);
    assert!(is_voided_by(&second, &first));
    assert!(!is_voided_by(&first, &second));
}

#[test]
fn smaller_id_wins_a_tie() {
    let a = bid("claim-a", "job-42", "m1", 1000, 900);
    let b = bid("claim-b", "job-42", "m2", 1000, 900);
    assert!(is_voided_by(&b, &a));
    assert!(!is_voided_by(&a, &b));
    let short = bid("claim", "job-42", "m3", 1000, 900);
    assert!(is_voided_by(&a, &short));
    assert!(!is_voided_by(&a, &a));
}

#[test]
fn expired_or_foreign_claim_voids_nothing() {
    let old = bid("c1", "job-42", "m1", 1000, 900);
    assert!(!is_voided_by(&bid("c2", "job-42", "m2", 1900, 900), &old));
    assert!(is_voided_by(&bid("c2", "job-42", "m2", 1899, 900), &old));
    assert!(!is_voided_by(&bid("c2", "job-43", "m2", 1050, 900), &old));
    let forever = bid("c0", "job-42", "m1", u64::MAX, u64::MAX);
    assert!(is_voided_by(&bid("c1", "job-42", "m2", u64::MAX, 1), &forever));
}

#[test]
fn history_order_is_checked() {
    let ordered = vec![
        published("j", 10),
        Event::Claim(bid("a", "j", "m1", 20, 5)),
        Event::Claim(bid("b", "j", "m2", 20, 5)),
        Event::Proof(done("p", "j", "m1", 22, 1)),
    ];
    assert!(is_in_order(&ordered));
    assert!(is_in_order(&Vec::new()));
    let tie_reversed = vec![
        Event::Claim(bid("b", "j", "m2", 20, 5)),
        Event::Claim(bid("a", "j", "m1", 20, 5)),
    ];
    assert!(!is_in_order(&tie_reversed));
    let time_reversed = vec![published("j", 10), published("k", 9)];
    assert!(!is_in_order(&time_reversed));
    assert!(ordered_job_status(&tie_reversed, &"j".to_string(), 30).is_none());
    assert!(matches!(
        ordered_job_status(&ordered, &"j".to_string(), 30),
        Some(JobState::Proven { miner, .. }) if miner == "m1"
    ));
}

#[test]
fn only_the_holders_proof_is_accepted() {
    let events = vec![
        published("j1", 1),
        published("j2", 1),
        Event::Claim(bid("c1", "j1", "m1", 10, 100)),
        Event::Claim(bid("c2", "j2", "m2", 10, 100)),
        Event::Proof(done("p-thief", "j1", "m2", 20, 5)),
        Event::Proof(done("p1", "j1", "m1", 30, 300)),
        Event::Proof(done("p-late", "j2", "m2", 110, 7)),
        Event::Proof(done("p-again", "j1", "m1", 40, 300)),
    ];
    let accepted = accepted_proofs(&events, 5, 1000);
    assert_eq!(accepted.len(), 1);
    assert_eq!(accepted[0].id, "p1");
    assert_eq!(accepted[0].compute_seconds, 300);
    assert_eq!(accepted[0].payload_hash, ethers::utils::keccak256(b"p1").to_vec());
    let flagged: Vec<String> = flagged_proofs(&events, 5, 1000).into_iter().map(|p| p.id).collect();
    assert_eq!(flagged, vec!["p-thief", "p-late", "p-again"]);
    assert_eq!(flagged_proofs(&events, 6, 1000).len(), 0);
    assert_eq!(accepted_proofs(&events, 5, 29).len(), 0);
    assert_eq!(accepted_proofs(&events, 6, 1000).len(), 0);
    assert_eq!(accepted_proofs(&Vec::new(), 5, 29).len(), 0);
    assert_eq!(job_epoch(&events, &"j1".to_string()), Some(5));
    assert_eq!(job_epoch(&events, &"j9".to_string()), None);
}

#[test]
fn epoch_five_is_sealed() {
    let proofs = vec![done("p1", "job-a", "m1", 10, 300), done("p2", "job-b", "m2", 5, 700)];
    let seal = seal_epoch(5, &proofs, 75).ok().unwrap();
    assert_eq!(seal.epoch, 5);
    assert_eq!(seal.settlement.volume, 1000);
    assert_eq!(seal.settlement.payouts[0].amount, 225);
    assert_eq!(seal.settlement.payouts[1].amount, 525);
    assert_eq!(seal.settlement.pool_payout, 250);
    assert_eq!(seal.proof_ids, vec!["p1".to_string(), "p2".to_string()]);
    assert_eq!(seal.merkle_root, node_digest(&proofs[0].payload_hash, &proofs[1].payload_hash));
    let again = seal_epoch(5, &proofs, 75).ok().unwrap();
    assert_eq!(seal.merkle_root, again.merkle_root);
    assert_eq!(seal.proof_ids, again.proof_ids);
}

#[test]
fn empty_epoch_is_sealed() {
    let seal = seal_epoch(9, &Vec::new(), 75).ok().unwrap();
    assert_eq!(seal.settlement.volume, 0);
    assert!(seal.settlement.payouts.is_empty());
    assert!(seal.proof_ids.is_empty());
    assert_eq!(seal.merkle_root, ethers::utils::keccak256(b"").to_vec());
}

#[test]
fn proofs_out_of_order_are_not_sealed() {
    let by_job = vec![done("p2", "job-b", "m2", 5, 700), done("p1", "job-a", "m1", 10, 300)];
    assert!(!are_in_order(&by_job));
    assert!(matches!(seal_epoch(5, &by_job, 75), Err(SealError::ProofsOutOfOrder)));
    let by_time = vec![done("p2", "job-a", "m2", 11, 700), done("p1", "job-a", "m1", 10, 300)];
    assert!(matches!(seal_epoch(5, &by_time, 75), Err(SealError::ProofsOutOfOrder)));
    assert!(matches!(seal_epoch(5, &by_time, 101), Err(SealError::ProofsOutOfOrder)));
    let fine = vec![done("p1", "job-a", "m1", 10, 300), done("p2", "job-a", "m2", 10, 700)];
    assert!(are_in_order(&fine));
    assert!(matches!(seal_epoch(5, &fine, 101), Err(SealError::AggregationInconsistency)));
}

#[test]
fn only_the_controller_seals() {
    let controller = "merlin.swarmos.eth".to_string();
    assert_eq!(check_seal_authority(&controller.clone(), &controller), Ok(()));
    assert_eq!(
        check_seal_authority(&"m1.eth".to_string(), &controller),
        Err(SealError::SealAuthorityViolation)
    );
}

#[test]
fn epoch_never_steps_back() {
    assert_eq!(advance(EpochStatus::Open, EpochStatus::Closed), Some(EpochStatus::Closed));
    assert_eq!(advance(EpochStatus::Open, EpochStatus::Sealed), Some(EpochStatus::Sealed));
    assert_eq!(advance(EpochStatus::Closed, EpochStatus::Sealed), Some(EpochStatus::Sealed));
    assert_eq!(advance(EpochStatus::Sealed, EpochStatus::Sealed), Some(EpochStatus::Sealed));
    assert_eq!(advance(EpochStatus::Sealed, EpochStatus::Closed), None);
    assert_eq!(advance(EpochStatus::Sealed, EpochStatus::Open), None);
    assert_eq!(advance(EpochStatus::Closed, EpochStatus::Open), None);
}

#[test]
fn proofs_are_put_in_canonical_order() {
    let proofs = vec![
        done("p3", "job-b", "m1", 5, 1),
        done("p1", "job-a", "m2", 9, 2),
        done("p4", "job-b", "m3", 4, 3),
        done("p2", "job-a", "m4", 9, 4),
        done("p0", "job", "m5", 100, 5),
    ];
    let (sorted, order) = canonical_order(&proofs);
    let ids: Vec<&str> = sorted.iter().map(|p| p.id.as_str()).collect();
    assert_eq!(ids, vec!["p0", "p1", "p2", "p4", "p3"]);
    assert_eq!(order, vec![4, 1, 3, 2, 0]);
    assert_eq!(sorted[3].compute_seconds, 3);
    assert_eq!(sorted[3].payload_hash, proofs[2].payload_hash);
    assert!(are_in_order(&sorted));
    assert!(seal_epoch(1, &sorted, 75).is_ok());
    let (none, no_order) = canonical_order(&Vec::new());
    assert!(none.is_empty() && no_order.is_empty());
}

#[test]
fn history_is_put_in_replay_order() {
    let events = vec![
        Event::Claim(bid("claim-b", "j", "m2", 20, 50)),
        Event::Proof(done("p", "j", "m1", 30, 1)),
        Event::Claim(bid("claim-a", "j", "m1", 20, 50)),
        published("j", 10),
    ];
    assert!(!is_in_order(&events));
    let (sorted, order) = replay_order(&events);
    assert_eq!(order, vec![3, 2, 0, 1]);
    assert!(is_in_order(&sorted));
    // whatever order the snapshots arrived in, the smaller id holds the job
    assert!(matches!(
        ordered_job_status(&sorted, &"j".to_string(), 25),
        Some(JobState::Claimed { miner, expiry }) if miner == "m1" && expiry == 70
    ));
    let arrived_otherwise = vec![
        published("j", 10),
        Event::Claim(bid("claim-a", "j", "m1", 20, 50)),
        Event::Proof(done("p", "j", "m1", 30, 1)),
        Event::Claim(bid("claim-b", "j", "m2", 20, 50)),
    ];
    let (again, _) = replay_order(&arrived_otherwise);
    assert!(matches!(
        ordered_job_status(&again, &"j".to_string(), 40),
        Some(JobState::Proven { miner, proof_id }) if miner == "m1" && proof_id == "p"
    ));
}

#[test]
fn keys_are_ordered_by_number_text_number() {
    let key = |major: u64, text: &str, minor: u64| SortKey { major, text: text.to_string(), minor };
    assert!(key_before(&key(1, "z", 9), &key(2, "a", 0)));
    assert!(key_before(&key(1, "a", 9), &key(1, "b", 0)));
    assert!(key_before(&key(1, "a", 1), &key(1, "a", 2)));
    assert!(key_before(&key(1, "a", 1), &key(1, "ab", 0)));
    assert!(!key_before(&key(1, "a", 1), &key(1, "a", 1)));
    assert!(!key_before(&key(1, "b", 0), &key(1, "a", 9)));
    let keys = vec![key(2, "a", 0), key(1, "b", 0), key(1, "a", 5), key(1, "a", 5), key(0, "", 0)];
    assert_eq!(sorted_order(&keys), vec![4, 2, 3, 1, 0]);
}

#[test]
fn status_does_not_depend_on_arrival_order() {
    let later_first = vec![
        Event::Claim(bid("c2", "job-42", "m2", 1050, 900)),
        Event::Claim(bid("c1", "job-42", "m1", 1000, 900)),
        published("job-42", 900),
    ];
    let job = "job-42".to_string();
    assert!(matches!(
        job_status_of(&later_first, &job, 1050),
        JobState::Claimed { miner, expiry } if miner == "m1" && expiry == 1900
    ));
    assert!(matches!(job_status_of(&later_first, &job, 1901), JobState::Open));
    let tie = vec![
        Event::Claim(bid("claim-b", "job-42", "m2", 1000, 900)),
        published("job-42", 900),
        Event::Claim(bid("claim-a", "job-42", "m1", 1000, 900)),
    ];
    assert!(matches!(
        job_status_of(&tie, &job, 1000),
        JobState::Claimed { miner, .. } if miner == "m1"
    ));
}

#[test]
fn history_is_sealed_in_any_arrival_order() {
    let arrived = vec![
        Event::Proof(done("p2", "j2", "m2", 40, 700)),
        Event::Proof(done("p-thief", "j1", "m2", 20, 5)),
        Event::Proof(done("p1", "j1", "m1", 30, 300)),
        Event::Claim(bid("c2", "j2", "m2", 10, 100)),
        Event::Claim(bid("c1", "j1", "m1", 10, 100)),
        published("j2", 1),
        published("j1", 1),
    ];
    let seal = seal_history(&arrived, 5, 1000, 75).ok().unwrap();
    assert_eq!(seal.proof_ids, vec!["p1".to_string(), "p2".to_string()]);
    assert_eq!(seal.settlement.volume, 1000);
    assert_eq!(seal.settlement.payouts[0].amount, 225);
    assert_eq!(seal.settlement.payouts[1].amount, 525);
    assert_eq!(seal.settlement.pool_payout, 250);
    let mut reversed = Vec::new();
    for e in arrived.iter().rev() {
        reversed.push(swarmhive::lease::copy_event(e));
    }
    let again = seal_history(&reversed, 5, 1000, 75).ok().unwrap();
    assert_eq!(seal.merkle_root, again.merkle_root);
    assert_eq!(seal.proof_ids, again.proof_ids);
    assert!(matches!(
        seal_history(&arrived, 5, 1000, 101),
        Err(SealError::AggregationInconsistency)
    ));
    assert_eq!(seal_history(&arrived, 6, 1000, 75).ok().unwrap().settlement.volume, 0);
}
