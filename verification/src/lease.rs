//! The race for a job. There is no lock: two miners may both publish a claim
//! before either sees the other's. Every reader settles the race by the same
//! rule, so that all agree without talking: the earlier claim wins, and of
//! two claims of the same second the one whose id comes first in
//! lexicographic order.

use vstd::prelude::*;
use crate::ledger::{job_status, Event, JobState};
use crate::merkle::copy_bytes;
use crate::order::{is_permutation, key_precedes, sorted_order, SortKey};
use crate::records::{same_text, Claim, Proof};

verus! {

/// Whether `a` comes before `b` in lexicographic order, character by
/// character.
pub open spec fn text_lt(a: Seq<char>, b: Seq<char>) -> bool
    decreases a.len(),
{
    if b.len() == 0 {
        false
    } else if a.len() == 0 {
        true
    } else if a[0] != b[0] {
        a[0] < b[0]
    } else {
        text_lt(a.skip(1), b.skip(1))
    }
}

/// Whether claim `a` is ahead of claim `b`: earlier, or of the same second
/// with the smaller id.
pub open spec fn claim_precedes(a: Claim, b: Claim) -> bool {
    a.claim_ts < b.claim_ts || (a.claim_ts == b.claim_ts && text_lt(a.id@, b.id@))
}

/// Whether `winner` makes `loser` void: both name the same job, `winner` is
/// ahead, and its lease has not run out when `loser` is made.
pub open spec fn voids(winner: Claim, loser: Claim) -> bool {
    &&& winner.job_id@ == loser.job_id@
    &&& claim_precedes(winner, loser)
    &&& loser.claim_ts < winner.claim_ts + winner.lease_seconds
}

/// Whether event `a` is ahead of event `b` in the order in which a history
/// is replayed: by time, then by id.
pub open spec fn event_precedes(a: Event, b: Event) -> bool {
    a.at() < b.at() || (a.at() == b.at() && text_lt(a.id(), b.id()))
}

/// Whether no event of `events` is ahead of the one before it.
pub open spec fn in_order(events: Seq<Event>) -> bool {
    forall|i: int| 1 <= i < events.len() ==> !event_precedes(#[trigger] events[i], events[i - 1])
}

/// Compares two texts with `<` of `str`, which orders texts
/// lexicographically by their bytes, and so by their characters.
#[verifier::external_body]
pub(crate) fn text_before(a: &str, b: &str) -> (before: bool)
    ensures
        before == text_lt(a@, b@),
{
    a < b
}

/// Whether `other` makes the claim `mine` void.
pub fn is_voided_by(mine: &Claim, other: &Claim) -> (void: bool)
    ensures
        void == voids(*other, *mine),
{
    if !same_text(&other.job_id, &mine.job_id) {
        return false;
    }
    let ahead = other.claim_ts < mine.claim_ts || (other.claim_ts == mine.claim_ts && text_before(
        other.id.as_str(),
        mine.id.as_str(),
    ));
    let expiry: u128 = other.claim_ts as u128 + other.lease_seconds as u128;
    ahead && (mine.claim_ts as u128) < expiry
}

/// The id of an event.
fn event_id(event: &Event) -> (id: &String)
    ensures
        id@ == event.id(),
{
    match event {
        Event::Job { id, .. } => id,
        Event::Claim(c) => &c.id,
        Event::Proof(p) => &p.id,
    }
}

/// The time of an event.
fn event_time(event: &Event) -> (ts: u64)
    ensures
        ts == event.at(),
{
    match event {
        Event::Job { ts, .. } => *ts,
        Event::Claim(c) => c.claim_ts,
        Event::Proof(p) => p.ts,
    }
}

/// Whether the history `events` is in the order in which it is replayed.
pub fn is_in_order(events: &Vec<Event>) -> (ordered: bool)
    ensures
        ordered == in_order(events@),
{
    let mut i: usize = 1;
    while i < events.len()
        invariant
            1 <= i,
            forall|k: int| 1 <= k < i && k < events@.len() ==> !event_precedes(
                #[trigger] events@[k],
                events@[k - 1],
            ),
        decreases events@.len() - i,
    {
        let here = &events[i];
        let before = &events[i - 1];
        let (t1, t0) = (event_time(here), event_time(before));
        if t1 < t0 || (t1 == t0 && text_before(event_id(here).as_str(), event_id(before).as_str())) {
            return false;
        }
        i += 1;
    }
    true
}

/// The state of `job_id` at `now` from a history in replay order; `None`
/// where `events` is not in that order.
pub fn ordered_job_status(events: &Vec<Event>, job_id: &String, now: u64) -> (state: Option<
    JobState,
>)
    ensures
        state.is_some() == in_order(events@),
        state.is_some() ==> state.unwrap()@ == crate::ledger::seen_at(
            crate::ledger::replayed(events@, job_id@, now as nat),
            now as nat,
        ),
{
    if is_in_order(events) {
        Some(job_status(events, job_id, now))
    } else {
        None
    }
}

/// Whether two events hold the same values.
pub open spec fn same_event(a: Event, b: Event) -> bool {
    match (a, b) {
        (
            Event::Job { id, job_id, ts, epoch },
            Event::Job { id: id2, job_id: job_id2, ts: ts2, epoch: epoch2 },
        ) => id@ == id2@ && job_id@ == job_id2@ && ts == ts2 && epoch == epoch2,
        (Event::Claim(c), Event::Claim(d)) => c.id@ == d.id@ && c.job_id@ == d.job_id@ && c.miner@
            == d.miner@ && c.claim_ts == d.claim_ts && c.lease_seconds == d.lease_seconds,
        (Event::Proof(p), Event::Proof(q)) => p.id@ == q.id@ && p.job_id@ == q.job_id@ && p.miner@
            == q.miner@ && p.ts == q.ts && p.compute_seconds == q.compute_seconds
            && p.payload_hash@ == q.payload_hash@,
        _ => false,
    }
}

/// A copy of `event`.
pub fn copy_event(event: &Event) -> (copy: Event)
    ensures
        same_event(copy, *event),
{
    match event {
        Event::Job { id, job_id, ts, epoch } => Event::Job {
            id: id.clone(),
            job_id: job_id.clone(),
            ts: *ts,
            epoch: *epoch,
        },
        Event::Claim(c) => Event::Claim(
            Claim {
                id: c.id.clone(),
                job_id: c.job_id.clone(),
                miner: c.miner.clone(),
                claim_ts: c.claim_ts,
                lease_seconds: c.lease_seconds,
            },
        ),
        Event::Proof(p) => Event::Proof(
            Proof {
                id: p.id.clone(),
                job_id: p.job_id.clone(),
                miner: p.miner.clone(),
                ts: p.ts,
                compute_seconds: p.compute_seconds,
                payload_hash: copy_bytes(&p.payload_hash),
            },
        ),
    }
}

/// The keys by which events are ordered: time, then id.
fn event_keys(events: &Vec<Event>) -> (keys: Vec<SortKey>)
    ensures
        keys@.len() == events@.len(),
        forall|k: int|
            0 <= k < keys@.len() ==> (#[trigger] keys@[k]).major == events@[k].at() && keys@[k].text@
                == events@[k].id() && keys@[k].minor == 0,
{
    let mut keys: Vec<SortKey> = Vec::new();
    let mut i: usize = 0;
    while i < events.len()
        invariant
            i <= events@.len(),
            keys@.len() == i,
            forall|k: int|
                0 <= k < i ==> (#[trigger] keys@[k]).major == events@[k].at() && keys@[k].text@
                    == events@[k].id() && keys@[k].minor == 0,
        decreases events@.len() - i,
    {
        keys.push(
            SortKey { major: event_time(&events[i]), text: event_id(&events[i]).clone(), minor: 0 },
        );
        i += 1;
    }
    keys
}

/// Whether events with the same time and id stand in `sorted` as they
/// came, `places` naming the place each came from.
pub open spec fn events_keep_arrival(sorted: Seq<Event>, places: Seq<usize>) -> bool {
    forall|a: int, b: int|
        0 <= a < b < sorted.len() ==> event_precedes(#[trigger] sorted[a], #[trigger] sorted[b])
            || places[a] < places[b]
}

/// Puts a history in the order in which it is replayed, by time and then by
/// id: the events in that order, and for each the place it came from. Every
/// event is taken once.
pub fn replay_order(events: &Vec<Event>) -> (r: (Vec<Event>, Vec<usize>))
    ensures
        is_permutation(r.1@, events@.len()),
        r.0@.len() == events@.len(),
        forall|k: int|
            0 <= k < r.0@.len() ==> same_event(#[trigger] r.0@[k], events@[r.1@[k] as int]),
        in_order(r.0@),
        events_keep_arrival(r.0@, r.1@),
{
    let keys = event_keys(events);
    let order = sorted_order(&keys);
    let mut sorted: Vec<Event> = Vec::new();
    let mut i: usize = 0;
    while i < order.len()
        invariant
            i <= order@.len(),
            sorted@.len() == i,
            is_permutation(order@, events@.len()),
            forall|k: int|
                0 <= k < i ==> same_event(#[trigger] sorted@[k], events@[order@[k] as int]),
        decreases order@.len() - i,
    {
        sorted.push(copy_event(&events[order[i]]));
        i += 1;
    }
    proof {
        assert forall|i: int| 1 <= i < sorted@.len() implies !event_precedes(
            #[trigger] sorted@[i],
            sorted@[i - 1],
        ) by {
            let here = order@[i];
            let before = order@[i - 1];
            assert(!key_precedes(keys@[here as int], keys@[before as int]));
            assert(same_event(sorted@[i], events@[here as int]));
            assert(same_event(sorted@[i - 1], events@[before as int]));
        }
        assert forall|a: int, b: int| 0 <= a < b < sorted@.len() implies event_precedes(
            #[trigger] sorted@[a],
            #[trigger] sorted@[b],
        ) || order@[a] < order@[b] by {
            let first = order@[a];
            let second = order@[b];
            assert(key_precedes(keys@[first as int], keys@[second as int]) || first < second);
            assert(same_event(sorted@[a], events@[first as int]));
            assert(same_event(sorted@[b], events@[second as int]));
        }
    }
    (sorted, order)
}

/// Whether `history` holds the events `events`, each once, in the order
/// `order`, and is in replay order.
pub open spec fn replays(history: Seq<Event>, events: Seq<Event>, order: Seq<usize>) -> bool {
    &&& is_permutation(order, events.len())
    &&& history.len() == events.len()
    &&& forall|k: int|
        0 <= k < history.len() ==> same_event(#[trigger] history[k], events[order[k] as int])
    &&& in_order(history)
}

/// The state of `job_id` at `now`, whatever the order in which the events
/// arrived: they are put in replay order first, and then replayed.
pub fn job_status_of(events: &Vec<Event>, job_id: &String, now: u64) -> (state: JobState)
    ensures
        exists|history: Seq<Event>, order: Seq<usize>| #[trigger]
            replays(history, events@, order) && state@ == crate::ledger::seen_at(
                crate::ledger::replayed(history, job_id@, now as nat),
                now as nat,
            ),
{
    let (history, order) = replay_order(events);
    let state = job_status(&history, job_id, now);
    proof {
        assert(replays(history@, events@, order@));
    }
    state
}

/// Of two different texts one comes before the other.
pub proof fn lemma_text_order_total(a: Seq<char>, b: Seq<char>)
    ensures
        a == b || text_lt(a, b) || text_lt(b, a),
    decreases a.len(),
{
    if a.len() == 0 || b.len() == 0 {
        if a.len() == 0 && b.len() == 0 {
            assert(a =~= b);
        }
    } else if a[0] == b[0] {
        lemma_text_order_total(a.skip(1), b.skip(1));
        if a.skip(1) == b.skip(1) {
            assert(a.len() == b.len()) by {
                assert(a.skip(1).len() == b.skip(1).len());
            }
            assert forall|i: int| 0 <= i < a.len() implies a[i] == b[i] by {
                if i > 0 {
                    assert(a.skip(1)[i - 1] == b.skip(1)[i - 1]);
                }
            }
            assert(a =~= b);
        }
    }
}

/// No text comes before a text that comes before it.
pub proof fn lemma_text_order_strict(a: Seq<char>, b: Seq<char>)
    ensures
        !(text_lt(a, b) && text_lt(b, a)),
    decreases a.len(),
{
    if a.len() > 0 && b.len() > 0 && a[0] == b[0] {
        lemma_text_order_strict(a.skip(1), b.skip(1));
    }
}

/// Every reader names the same winner: of two claims on one job, made in
/// the same second under different ids with leases that last, exactly one
/// makes the other void.
pub proof fn lemma_one_claim_wins(a: Claim, b: Claim)
    requires
        a.job_id@ == b.job_id@,
        a.id@ != b.id@,
        a.claim_ts == b.claim_ts,
        a.lease_seconds > 0,
        b.lease_seconds > 0,
    ensures
        voids(a, b) != voids(b, a),
{
    lemma_text_order_total(a.id@, b.id@);
    lemma_text_order_strict(a.id@, b.id@);
}

/// A claim whose lease has run out makes no later claim void.
pub proof fn lemma_expired_claim_voids_nothing(held: Claim, fresh: Claim)
    requires
        held.claim_ts + held.lease_seconds <= fresh.claim_ts,
    ensures
        !voids(held, fresh),
{
}

} // verus!
