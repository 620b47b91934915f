//! Closing an epoch: its accepted proofs, in their canonical order, are
//! committed to by a merkle root and settled into payouts, and the result is
//! the seal that the controller signs. The same proofs give the same seal.

use vstd::prelude::*;
use crate::lease::{replay_order, replays, text_before, text_lt};
use crate::ledger::{replay, replayed, Event, JobState, Status};
use crate::merkle::{copy_bytes, merkle_root, root_of, views};
use crate::order::{is_permutation, sorted_order, SortKey};
use crate::records::{same_text, Proof};
use crate::signing::{authentic, check_authentic};
use crate::snapshot::Envelope;
use crate::settlement::{
    lemma_settlement_is_repeatable, settle, settles, volume_of, SealError, Settlement,
};

verus! {

/// Where an epoch stands. An epoch only moves forward.
#[derive(PartialEq, Eq, Structural, Clone, Copy, Debug)]
pub enum EpochStatus {
    Open,
    Closed,
    Sealed,
}

/// What the controller signs to close an epoch.
pub struct EpochSeal {
    pub epoch: u64,
    pub merkle_root: Vec<u8>,
    pub settlement: Settlement,
    /// The ids of the accepted proofs, in the order of the commitment.
    pub proof_ids: Vec<String>,
}

/// How far an epoch has come.
pub open spec fn rank(status: EpochStatus) -> nat {
    match status {
        EpochStatus::Open => 0,
        EpochStatus::Closed => 1,
        EpochStatus::Sealed => 2,
    }
}

/// Whether proof `a` is ahead of proof `b`: by job id, then by time.
pub open spec fn proof_precedes(a: Proof, b: Proof) -> bool {
    text_lt(a.job_id@, b.job_id@) || (a.job_id@ == b.job_id@ && a.ts < b.ts)
}

/// Whether no proof of `proofs` is ahead of the one before it.
pub open spec fn proofs_in_order(proofs: Seq<Proof>) -> bool {
    forall|i: int| 1 <= i < proofs.len() ==> !proof_precedes(#[trigger] proofs[i], proofs[i - 1])
}

/// The payload digests of `proofs`, in their order.
pub open spec fn leaf_digests(proofs: Seq<Proof>) -> Seq<Seq<u8>> {
    Seq::new(proofs.len(), |i: int| proofs[i].payload_hash@)
}

/// `seal` closes `epoch` over `proofs` with `percent` of the volume for the
/// miners.
pub open spec fn seals(seal: EpochSeal, epoch: u64, proofs: Seq<Proof>, percent: nat) -> bool {
    &&& seal.epoch == epoch
    &&& seal.merkle_root@ == root_of(leaf_digests(proofs))
    &&& settles(seal.settlement, proofs, percent)
    &&& seal.proof_ids@.len() == proofs.len()
    &&& forall|i: int| 0 <= i < proofs.len() ==> (#[trigger] seal.proof_ids@[i])@ == proofs[i].id@
}

/// Whether two proofs hold the same values.
pub open spec fn same_proof(a: Proof, b: Proof) -> bool {
    &&& a.id@ == b.id@
    &&& a.job_id@ == b.job_id@
    &&& a.miner@ == b.miner@
    &&& a.ts == b.ts
    &&& a.compute_seconds == b.compute_seconds
    &&& a.payload_hash@ == b.payload_hash@
}

/// The epoch of `job`: the one that the first snapshot that publishes the
/// job assigns it to.
pub open spec fn epoch_of(events: Seq<Event>, job: Seq<char>) -> Option<u64>
    decreases events.len(),
{
    if events.len() == 0 {
        None
    } else if epoch_of(events.drop_last(), job).is_some() {
        epoch_of(events.drop_last(), job)
    } else {
        match events.last() {
            Event::Job { job_id, epoch, .. } => if job_id@ == job {
                Some(epoch)
            } else {
                None
            },
            _ => None,
        }
    }
}

/// Whether the event at `i` is a proof for a job of `epoch`, and one that
/// counts at `now` if `counted` is set, one that does not if it is not. A
/// proof counts where its job is proven by it. A proof that mismatches
/// never counts; it stays in the history for the controller to judge.
pub open spec fn chosen_at(events: Seq<Event>, i: int, epoch: u64, now: nat, counted: bool) -> bool {
    match events[i] {
        Event::Proof(p) => epoch_of(events, p.job_id@) == Some(epoch) && counted == (replayed(
            events,
            p.job_id@,
            now,
        ) == (Status::Proven { miner: p.miner@, proof_id: p.id@ })),
        _ => false,
    }
}

/// The places of the chosen proofs among the first `n` events, ascending.
pub open spec fn chosen_places(
    events: Seq<Event>,
    n: int,
    epoch: u64,
    now: nat,
    counted: bool,
) -> Seq<int>
    decreases n,
{
    if n <= 0 {
        Seq::empty()
    } else if chosen_at(events, n - 1, epoch, now, counted) {
        chosen_places(events, n - 1, epoch, now, counted).push(n - 1)
    } else {
        chosen_places(events, n - 1, epoch, now, counted)
    }
}

/// `picked` holds the chosen proofs of `events`, in the order of the history.
pub open spec fn picks(
    picked: Seq<Proof>,
    events: Seq<Event>,
    epoch: u64,
    now: nat,
    counted: bool,
) -> bool {
    &&& picked.len() == chosen_places(events, events.len() as int, epoch, now, counted).len()
    &&& forall|k: int|
        0 <= k < picked.len() ==> same_proof(
            #[trigger] picked[k],
            proof_at(events, chosen_places(events, events.len() as int, epoch, now, counted)[k]),
        )
}

proof fn epoch_stays(events: Seq<Event>, job: Seq<char>, n: int)
    requires
        0 <= n <= events.len(),
        epoch_of(events.take(n), job).is_some(),
    ensures
        epoch_of(events, job) == epoch_of(events.take(n), job),
    decreases events.len() - n,
{
    if n == events.len() {
        assert(events.take(n) =~= events);
    } else {
        assert(events.take(n + 1).drop_last() =~= events.take(n));
        epoch_stays(events, job, n + 1);
    }
}

/// The epoch that `events` assign `job_id` to, if they publish the job.
pub fn job_epoch(events: &Vec<Event>, job_id: &String) -> (epoch: Option<u64>)
    ensures
        epoch == epoch_of(events@, job_id@),
{
    let mut i: usize = 0;
    proof {
        assert(events@.take(0) =~= Seq::<Event>::empty());
    }
    while i < events.len()
        invariant
            i <= events@.len(),
            epoch_of(events@.take(i as int), job_id@).is_none(),
        decreases events@.len() - i,
    {
        proof {
            assert(events@.take(i + 1).drop_last() =~= events@.take(i as int));
            assert(events@.take(i + 1).last() == events@[i as int]);
        }
        match &events[i] {
            Event::Job { job_id: named, epoch, .. } => {
                if same_text(named, job_id) {
                    proof {
                        epoch_stays(events@, job_id@, i + 1);
                    }
                    return Some(*epoch);
                }
            },
            _ => {},
        }
        i += 1;
    }
    proof {
        assert(events@.take(i as int) =~= events@);
    }
    None
}

/// The proof that the event at `i` carries.
pub open spec fn proof_at(events: Seq<Event>, i: int) -> Proof
    recommends
        events[i] is Proof,
{
    events[i]->Proof_0
}

/// A copy of `proof`.
pub fn copy_proof(proof: &Proof) -> (copy: Proof)
    ensures
        same_proof(copy, *proof),
{
    Proof {
        id: proof.id.clone(),
        job_id: proof.job_id.clone(),
        miner: proof.miner.clone(),
        ts: proof.ts,
        compute_seconds: proof.compute_seconds,
        payload_hash: copy_bytes(&proof.payload_hash),
    }
}

/// The proofs of `events` for jobs of `epoch` that count at `now`, or with
/// `counted` unset those that do not, in the order of the history.
fn pick_proofs(events: &Vec<Event>, epoch: u64, now: u64, counted: bool) -> (picked: Vec<Proof>)
    ensures
        picks(picked@, events@, epoch, now as nat, counted),
{
    let mut picked: Vec<Proof> = Vec::new();
    let mut i: usize = 0;
    while i < events.len()
        invariant
            i <= events@.len(),
            picked@.len() == chosen_places(events@, i as int, epoch, now as nat, counted).len(),
            forall|k: int|
                0 <= k < picked@.len() ==> same_proof(
                    #[trigger] picked@[k],
                    proof_at(
                        events@,
                        chosen_places(events@, i as int, epoch, now as nat, counted)[k],
                    ),
                ),
        decreases events@.len() - i,
    {
        match &events[i] {
            Event::Proof(p) => {
                let state = replay(events, &p.job_id, now);
                let in_epoch = match job_epoch(events, &p.job_id) {
                    Some(e) => e == epoch,
                    None => false,
                };
                let counts = match &state {
                    JobState::Proven { miner, proof_id } => same_text(miner, &p.miner) && same_text(
                        proof_id,
                        &p.id,
                    ),
                    _ => false,
                };
                let is_it = in_epoch && counts == counted;
                proof {
                    assert(is_it == chosen_at(events@, i as int, epoch, now as nat, counted));
                }
                if is_it {
                    picked.push(copy_proof(p));
                }
            },
            _ => {},
        }
        i += 1;
    }
    picked
}

/// The proofs of `events` that count for `epoch` at `now`, in the order of
/// the history: those by which a job of the epoch is proven.
pub fn accepted_proofs(events: &Vec<Event>, epoch: u64, now: u64) -> (accepted: Vec<Proof>)
    ensures
        picks(accepted@, events@, epoch, now as nat, true),
{
    pick_proofs(events, epoch, now, true)
}

/// The proofs of `events` for jobs of `epoch` that do not count at `now`, in
/// the order of the history: they are flagged for the controller and never
/// enter a settlement.
pub fn flagged_proofs(events: &Vec<Event>, epoch: u64, now: u64) -> (flagged: Vec<Proof>)
    ensures
        picks(flagged@, events@, epoch, now as nat, false),
{
    pick_proofs(events, epoch, now, false)
}

/// The status of an epoch that moves from `from` to `to`; `None` where that
/// would be a step back.
pub fn advance(from: EpochStatus, to: EpochStatus) -> (next: Option<EpochStatus>)
    ensures
        next == if rank(from) <= rank(to) {
            Some(to)
        } else {
            None
        },
{
    match (from, to) {
        (EpochStatus::Closed, EpochStatus::Open) => None,
        (EpochStatus::Sealed, EpochStatus::Open) => None,
        (EpochStatus::Sealed, EpochStatus::Closed) => None,
        _ => Some(to),
    }
}

/// Whether a seal signed by `signer` is signed by the controller.
pub fn check_seal_authority(signer: &String, controller: &String) -> (r: Result<(), SealError>)
    ensures
        r == if signer@ == controller@ {
            Ok::<(), SealError>(())
        } else {
            Err::<(), SealError>(SealError::SealAuthorityViolation)
        },
{
    if same_text(signer, controller) {
        Ok(())
    } else {
        Err(SealError::SealAuthorityViolation)
    }
}

/// Whether the seal `e` is the controller's: issued under the controller's
/// name and authentic for the controller's address.
pub open spec fn sealed_by_controller(e: Envelope, controller: Seq<char>, address: Seq<char>) -> bool {
    e.issuer@ == controller && authentic(e, address)
}

/// Checks a seal before it is trusted as final: it must be issued under the
/// controller's name, store its own digest and be signed by the controller's
/// address. Any other seal is refused entirely.
pub fn check_seal(envelope: &Envelope, controller: &String, controller_address: &str) -> (r: Result<
    (),
    SealError,
>)
    ensures
        r == if sealed_by_controller(*envelope, controller@, controller_address@) {
            Ok::<(), SealError>(())
        } else {
            Err::<(), SealError>(SealError::SealAuthorityViolation)
        },
{
    if !same_text(&envelope.issuer, controller) {
        return Err(SealError::SealAuthorityViolation);
    }
    match check_authentic(envelope, controller_address) {
        Ok(_) => Ok(()),
        Err(_) => Err(SealError::SealAuthorityViolation),
    }
}

/// Whether `proofs` are in the order in which they are committed to.
pub fn are_in_order(proofs: &Vec<Proof>) -> (ordered: bool)
    ensures
        ordered == proofs_in_order(proofs@),
{
    let mut i: usize = 1;
    while i < proofs.len()
        invariant
            1 <= i,
            forall|k: int| 1 <= k < i && k < proofs@.len() ==> !proof_precedes(
                #[trigger] proofs@[k],
                proofs@[k - 1],
            ),
        decreases proofs@.len() - i,
    {
        let here = &proofs[i];
        let before = &proofs[i - 1];
        if text_before(here.job_id.as_str(), before.job_id.as_str()) || (same_text(
            &here.job_id,
            &before.job_id,
        ) && here.ts < before.ts) {
            return false;
        }
        i += 1;
    }
    true
}

/// The keys by which proofs are ordered: job id, then time.
fn proof_keys(proofs: &Vec<Proof>) -> (keys: Vec<SortKey>)
    ensures
        keys@.len() == proofs@.len(),
        forall|k: int|
            0 <= k < keys@.len() ==> (#[trigger] keys@[k]).major == 0 && keys@[k].text@
                == proofs@[k].job_id@ && keys@[k].minor == proofs@[k].ts,
{
    let mut keys: Vec<SortKey> = Vec::new();
    let mut i: usize = 0;
    while i < proofs.len()
        invariant
            i <= proofs@.len(),
            keys@.len() == i,
            forall|k: int|
                0 <= k < i ==> (#[trigger] keys@[k]).major == 0 && keys@[k].text@
                    == proofs@[k].job_id@ && keys@[k].minor == proofs@[k].ts,
        decreases proofs@.len() - i,
    {
        keys.push(SortKey { major: 0, text: proofs[i].job_id.clone(), minor: proofs[i].ts });
        i += 1;
    }
    keys
}

/// Whether proofs with the same job id and time stand in `sorted` as they
/// came, `places` naming the place each came from.
pub open spec fn proofs_keep_arrival(sorted: Seq<Proof>, places: Seq<usize>) -> bool {
    forall|a: int, b: int|
        0 <= a < b < sorted.len() ==> proof_precedes(#[trigger] sorted[a], #[trigger] sorted[b])
            || places[a] < places[b]
}

/// Puts `proofs` in canonical order, by job id and then by time: the proofs
/// in that order, and for each the place it came from. Every proof is taken
/// once, and proofs with the same job id and time keep the order in which
/// they came.
pub fn canonical_order(proofs: &Vec<Proof>) -> (r: (Vec<Proof>, Vec<usize>))
    ensures
        is_permutation(r.1@, proofs@.len()),
        r.0@.len() == proofs@.len(),
        forall|k: int|
            0 <= k < r.0@.len() ==> same_proof(#[trigger] r.0@[k], proofs@[r.1@[k] as int]),
        proofs_in_order(r.0@),
        proofs_keep_arrival(r.0@, r.1@),
{
    let keys = proof_keys(proofs);
    let order = sorted_order(&keys);
    let mut sorted: Vec<Proof> = Vec::new();
    let mut i: usize = 0;
    while i < order.len()
        invariant
            i <= order@.len(),
            sorted@.len() == i,
            is_permutation(order@, proofs@.len()),
            forall|k: int|
                0 <= k < i ==> same_proof(#[trigger] sorted@[k], proofs@[order@[k] as int]),
        decreases order@.len() - i,
    {
        sorted.push(copy_proof(&proofs[order[i]]));
        i += 1;
    }
    proof {
        assert forall|i: int| 1 <= i < sorted@.len() implies !proof_precedes(
            #[trigger] sorted@[i],
            sorted@[i - 1],
        ) by {
            let here = order@[i];
            let before = order@[i - 1];
            assert(!crate::order::key_precedes(keys@[here as int], keys@[before as int]));
            assert(same_proof(sorted@[i], proofs@[here as int]));
            assert(same_proof(sorted@[i - 1], proofs@[before as int]));
        }
        assert forall|a: int, b: int| 0 <= a < b < sorted@.len() implies proof_precedes(
            #[trigger] sorted@[a],
            #[trigger] sorted@[b],
        ) || order@[a] < order@[b] by {
            let first = order@[a];
            let second = order@[b];
            assert(crate::order::key_precedes(keys@[first as int], keys@[second as int]) || first
                < second);
            assert(same_proof(sorted@[a], proofs@[first as int]));
            assert(same_proof(sorted@[b], proofs@[second as int]));
        }
    }
    (sorted, order)
}

/// The payload digests and the ids of `proofs`, in their order.
fn leaves_and_ids(proofs: &Vec<Proof>) -> (r: (Vec<Vec<u8>>, Vec<String>))
    ensures
        views(r.0@) == leaf_digests(proofs@),
        r.1@.len() == proofs@.len(),
        forall|i: int| 0 <= i < proofs@.len() ==> (#[trigger] r.1@[i])@ == proofs@[i].id@,
{
    let mut leaves: Vec<Vec<u8>> = Vec::new();
    let mut ids: Vec<String> = Vec::new();
    let mut i: usize = 0;
    while i < proofs.len()
        invariant
            i <= proofs@.len(),
            leaves@.len() == i,
            ids@.len() == i,
            forall|k: int| 0 <= k < i ==> (#[trigger] leaves@[k])@ == proofs@[k].payload_hash@,
            forall|k: int| 0 <= k < i ==> (#[trigger] ids@[k])@ == proofs@[k].id@,
        decreases proofs@.len() - i,
    {
        leaves.push(copy_bytes(&proofs[i].payload_hash));
        ids.push(proofs[i].id.clone());
        i += 1;
    }
    proof {
        assert(views(leaves@) =~= leaf_digests(proofs@));
    }
    (leaves, ids)
}

/// Seals `epoch` over its accepted proofs. The proofs must come in canonical
/// order, by job id and then by time; the miners get `miner_percent` of the
/// volume. Nothing is sealed where the proofs are out of order or the payouts
/// cannot be reconciled.
pub fn seal_epoch(epoch: u64, proofs: &Vec<Proof>, miner_percent: u64) -> (r: Result<
    EpochSeal,
    SealError,
>)
    ensures
        r.is_ok() == (proofs_in_order(proofs@) && miner_percent <= 100 && volume_of(proofs@)
            <= u64::MAX),
        match r {
            Ok(seal) => seals(seal, epoch, proofs@, miner_percent as nat),
            Err(e) => e == if proofs_in_order(proofs@) {
                SealError::AggregationInconsistency
            } else {
                SealError::ProofsOutOfOrder
            },
        },
{
    if !are_in_order(proofs) {
        return Err(SealError::ProofsOutOfOrder);
    }
    match settle(proofs, miner_percent) {
        Err(e) => Err(e),
        Ok(settlement) => {
            let (leaves, proof_ids) = leaves_and_ids(proofs);
            let merkle_root = merkle_root(&leaves);
            Ok(EpochSeal { epoch, merkle_root, settlement, proof_ids })
        },
    }
}

/// Whether `r` is what sealing `epoch` gives for the accepted proofs of
/// `history`, put in canonical order as `proofs`.
pub open spec fn sealed_from(
    r: Result<EpochSeal, SealError>,
    history: Seq<Event>,
    accepted: Seq<Proof>,
    proofs: Seq<Proof>,
    places: Seq<usize>,
    epoch: u64,
    now: nat,
    percent: nat,
) -> bool {
    &&& picks(accepted, history, epoch, now, true)
    &&& is_permutation(places, accepted.len())
    &&& proofs.len() == accepted.len()
    &&& forall|k: int|
        0 <= k < proofs.len() ==> same_proof(#[trigger] proofs[k], accepted[places[k] as int])
    &&& proofs_in_order(proofs)
    &&& r.is_ok() == (percent <= 100 && volume_of(proofs) <= u64::MAX)
    &&& match r {
        Ok(seal) => seals(seal, epoch, proofs, percent),
        Err(e) => e == SealError::AggregationInconsistency,
    }
}

/// Seals `epoch` from a history, whatever the order in which its events
/// arrived: the history is put in replay order, the proofs that count for
/// the epoch at `now` are put in canonical order, and the epoch is sealed
/// over them.
pub fn seal_history(events: &Vec<Event>, epoch: u64, now: u64, miner_percent: u64) -> (r: Result<
    EpochSeal,
    SealError,
>)
    ensures
        exists|
            history: Seq<Event>,
            order: Seq<usize>,
            accepted: Seq<Proof>,
            proofs: Seq<Proof>,
            places: Seq<usize>,
        |
            #[trigger] replays(history, events@, order) && #[trigger] sealed_from(
                r,
                history,
                accepted,
                proofs,
                places,
                epoch,
                now as nat,
                miner_percent as nat,
            ),
{
    let (history, order) = replay_order(events);
    let accepted = accepted_proofs(&history, epoch, now);
    let (proofs, places) = canonical_order(&accepted);
    let r = seal_epoch(epoch, &proofs, miner_percent);
    proof {
        assert(replays(history@, events@, order@));
        assert(sealed_from(
            r,
            history@,
            accepted@,
            proofs@,
            places@,
            epoch,
            now as nat,
            miner_percent as nat,
        ));
    }
    r
}

/// Sealing is repeatable: two seals of the same epoch over the same proofs
/// carry the same root, the same proof ids, the same volume and the same
/// payouts, row by row.
pub proof fn lemma_seal_is_repeatable(
    first: EpochSeal,
    second: EpochSeal,
    epoch: u64,
    proofs: Seq<Proof>,
    percent: nat,
)
    requires
        seals(first, epoch, proofs, percent),
        seals(second, epoch, proofs, percent),
    ensures
        first.merkle_root@ == second.merkle_root@,
        first.proof_ids@.len() == second.proof_ids@.len(),
        forall|i: int|
            0 <= i < first.proof_ids@.len() ==> (#[trigger] first.proof_ids@[i])@
                == second.proof_ids@[i]@,
        first.settlement.volume == second.settlement.volume,
        first.settlement.pool_payout == second.settlement.pool_payout,
        first.settlement.payouts@.len() == second.settlement.payouts@.len(),
        forall|j: int|
            0 <= j < first.settlement.payouts@.len() ==> {
                &&& (#[trigger] first.settlement.payouts@[j]).miner@
                    == second.settlement.payouts@[j].miner@
                &&& first.settlement.payouts@[j].seconds == second.settlement.payouts@[j].seconds
                &&& first.settlement.payouts@[j].amount == second.settlement.payouts@[j].amount
            },
{
    lemma_settlement_is_repeatable(first.settlement, second.settlement, proofs, percent);
}

} // verus!
