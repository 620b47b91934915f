//! Payouts of an epoch: the volume of its accepted proofs is split between
//! the miners, in proportion to the seconds each computed, and the pool,
//! which also takes every remainder.

use vstd::prelude::*;
use crate::records::{same_text, Proof};

verus! {

/// The default share of the volume that goes to the miners, in percent.
pub const DEFAULT_MINER_PERCENT: u64 = 75;

/// Why an epoch could not be settled.
#[derive(PartialEq, Eq, Structural, Clone, Copy, Debug)]
pub enum SealError {
    /// The payouts cannot be made to add up to the volume.
    AggregationInconsistency,
    /// The proofs are not in the order in which they are committed to.
    ProofsOutOfOrder,
    /// The seal is not signed by the controller.
    SealAuthorityViolation,
}

/// One line of the payout table.
pub struct Payout {
    pub miner: String,
    /// Seconds of compute the miner proved in the epoch.
    pub seconds: u64,
    /// What the miner is paid.
    pub amount: u64,
}

/// The settlement of one epoch.
pub struct Settlement {
    pub volume: u64,
    pub payouts: Vec<Payout>,
    pub pool_payout: u64,
}

/// Sum of the compute seconds of `proofs`.
pub open spec fn volume_of(proofs: Seq<Proof>) -> nat
    decreases proofs.len(),
{
    if proofs.len() == 0 {
        0
    } else {
        volume_of(proofs.drop_last()) + proofs.last().compute_seconds as nat
    }
}

/// Sum of the compute seconds of those of `proofs` that `miner` issued.
pub open spec fn seconds_of(proofs: Seq<Proof>, miner: Seq<char>) -> nat
    decreases proofs.len(),
{
    if proofs.len() == 0 {
        0
    } else {
        seconds_of(proofs.drop_last(), miner) + if proofs.last().miner@ == miner {
            proofs.last().compute_seconds as nat
        } else {
            0
        }
    }
}

/// A miner's payout for `seconds` of compute: its part of the miners' share,
/// rounded down.
pub open spec fn share(seconds: nat, percent: nat) -> nat {
    seconds * percent / 100
}

/// Sum of the seconds in a payout table.
pub open spec fn seconds_sum(rows: Seq<Payout>) -> nat
    decreases rows.len(),
{
    if rows.len() == 0 {
        0
    } else {
        seconds_sum(rows.drop_last()) + rows.last().seconds as nat
    }
}

/// Sum of the amounts in a payout table.
pub open spec fn paid_sum(rows: Seq<Payout>) -> nat
    decreases rows.len(),
{
    if rows.len() == 0 {
        0
    } else {
        paid_sum(rows.drop_last()) + rows.last().amount as nat
    }
}

/// Whether `rows` has a row for `miner`.
pub open spec fn has_row(rows: Seq<Payout>, miner: Seq<char>) -> bool {
    exists|j: int| 0 <= j < rows.len() && (#[trigger] rows[j]).miner@ == miner
}

/// Whether one of `proofs` was issued by `miner`.
pub open spec fn issued_by(proofs: Seq<Proof>, miner: Seq<char>) -> bool {
    exists|k: int| 0 <= k < proofs.len() && (#[trigger] proofs[k]).miner@ == miner
}

/// `rows` lists each miner of `proofs` once, with the seconds it proved.
pub open spec fn tallies(rows: Seq<Payout>, proofs: Seq<Proof>) -> bool {
    &&& forall|i: int, j: int|
        0 <= i < j < rows.len() ==> (#[trigger] rows[i]).miner@ != (#[trigger] rows[j]).miner@
    &&& forall|j: int|
        0 <= j < rows.len() ==> (#[trigger] rows[j]).seconds == seconds_of(proofs, rows[j].miner@)
    &&& forall|k: int| 0 <= k < proofs.len() ==> has_row(rows, (#[trigger] proofs[k]).miner@)
    &&& forall|j: int| 0 <= j < rows.len() ==> issued_by(proofs, (#[trigger] rows[j]).miner@)
}

/// What a row of the payout table says before amounts are set.
pub ghost struct Row {
    pub miner: Seq<char>,
    pub seconds: nat,
}

/// The place of the row of `miner` in `table`; the length of `table` where
/// it has none.
pub open spec fn row_index(table: Seq<Row>, miner: Seq<char>) -> int
    decreases table.len(),
{
    if table.len() == 0 {
        0
    } else if row_index(table.drop_last(), miner) < table.len() - 1 {
        row_index(table.drop_last(), miner)
    } else if table.last().miner == miner {
        table.len() - 1
    } else {
        table.len() as int
    }
}

/// The table of `proofs`: the miners in the order in which they first
/// occur, each with the sum of the seconds it proved.
pub open spec fn table_of(proofs: Seq<Proof>) -> Seq<Row>
    decreases proofs.len(),
{
    if proofs.len() == 0 {
        Seq::empty()
    } else {
        let table = table_of(proofs.drop_last());
        let p = proofs.last();
        let j = row_index(table, p.miner@);
        if j < table.len() {
            table.update(
                j,
                Row { miner: p.miner@, seconds: table[j].seconds + p.compute_seconds as nat },
            )
        } else {
            table.push(Row { miner: p.miner@, seconds: p.compute_seconds as nat })
        }
    }
}

/// The rows of a payout table without their amounts.
pub open spec fn rows_view(rows: Seq<Payout>) -> Seq<Row> {
    Seq::new(rows.len(), |i: int| Row { miner: rows[i].miner@, seconds: rows[i].seconds as nat })
}

/// `s` settles `proofs` with `percent` of the volume for the miners.
pub open spec fn settles(s: Settlement, proofs: Seq<Proof>, percent: nat) -> bool {
    &&& s.volume == volume_of(proofs)
    &&& tallies(s.payouts@, proofs)
    &&& rows_view(s.payouts@) == table_of(proofs)
    &&& seconds_sum(s.payouts@) == s.volume
    &&& forall|j: int|
        0 <= j < s.payouts@.len() ==> (#[trigger] s.payouts@[j]).amount == share(
            s.payouts@[j].seconds as nat,
            percent,
        )
    &&& paid_sum(s.payouts@) + s.pool_payout == s.volume
}

proof fn volume_grows(proofs: Seq<Proof>, n: int)
    requires
        0 <= n <= proofs.len(),
    ensures
        volume_of(proofs.take(n)) <= volume_of(proofs),
    decreases proofs.len() - n,
{
    if n == proofs.len() {
        assert(proofs.take(n) =~= proofs);
    } else {
        volume_grows(proofs, n + 1);
        assert(proofs.take(n + 1).drop_last() =~= proofs.take(n));
    }
}

proof fn seconds_within_volume(proofs: Seq<Proof>, miner: Seq<char>)
    ensures
        seconds_of(proofs, miner) <= volume_of(proofs),
    decreases proofs.len(),
{
    if proofs.len() > 0 {
        seconds_within_volume(proofs.drop_last(), miner);
    }
}

proof fn seconds_sum_after_update(rows: Seq<Payout>, j: int, row: Payout)
    requires
        0 <= j < rows.len(),
    ensures
        seconds_sum(rows.update(j, row)) == seconds_sum(rows) - rows[j].seconds + row.seconds,
    decreases rows.len(),
{
    if j == rows.len() - 1 {
        assert(rows.update(j, row).drop_last() =~= rows.drop_last());
    } else {
        seconds_sum_after_update(rows.drop_last(), j, row);
        assert(rows.update(j, row).drop_last() =~= rows.drop_last().update(j, row));
    }
}

proof fn row_index_is(table: Seq<Row>, miner: Seq<char>, j: int)
    requires
        0 <= j <= table.len(),
        forall|k: int| 0 <= k < j ==> (#[trigger] table[k]).miner != miner,
        j < table.len() ==> table[j].miner == miner,
    ensures
        row_index(table, miner) == j,
    decreases table.len(),
{
    if table.len() > 0 {
        let shorter = table.drop_last();
        assert forall|k: int| 0 <= k < shorter.len() implies #[trigger] shorter[k] == table[k] by {}
        if j < table.len() - 1 {
            assert(shorter[j] == table[j]);
            row_index_is(shorter, miner, j);
        } else {
            assert forall|k: int| 0 <= k < shorter.len() implies (#[trigger] shorter[k]).miner
                != miner by {
                assert(shorter[k] == table[k]);
            }
            row_index_is(shorter, miner, table.len() - 1);
        }
    }
}

proof fn seconds_sum_same(first: Seq<Payout>, second: Seq<Payout>)
    requires
        first.len() == second.len(),
        forall|j: int| 0 <= j < first.len() ==> (#[trigger] first[j]).seconds == second[j].seconds,
    ensures
        seconds_sum(first) == seconds_sum(second),
    decreases first.len(),
{
    if first.len() > 0 {
        assert forall|j: int| 0 <= j < first.drop_last().len() implies (
        #[trigger] first.drop_last()[j]).seconds == second.drop_last()[j].seconds by {
            assert(first.drop_last()[j] == first[j]);
            assert(second.drop_last()[j] == second[j]);
        }
        seconds_sum_same(first.drop_last(), second.drop_last());
    }
}

proof fn paid_within_share(rows: Seq<Payout>, percent: nat)
    requires
        forall|j: int|
            0 <= j < rows.len() ==> (#[trigger] rows[j]).amount == share(
                rows[j].seconds as nat,
                percent,
            ),
    ensures
        paid_sum(rows) <= share(seconds_sum(rows), percent),
    decreases rows.len(),
{
    if rows.len() > 0 {
        assert forall|j: int| 0 <= j < rows.drop_last().len() implies (
        #[trigger] rows.drop_last()[j]).amount == share(
            rows.drop_last()[j].seconds as nat,
            percent,
        ) by {
            assert(rows.drop_last()[j] == rows[j]);
        }
        paid_within_share(rows.drop_last(), percent);
        let x = seconds_sum(rows.drop_last()) as int;
        let y = rows.last().seconds as int;
        let p = percent as int;
        assert(rows.last() == rows[rows.len() - 1]);
        assert((x * p) / 100 + (y * p) / 100 <= ((x + y) * p) / 100) by (nonlinear_arith)
            requires
                0 <= x,
                0 <= y,
                0 <= p,
        ;
    }
}

proof fn paid_sum_same(first: Seq<Payout>, second: Seq<Payout>)
    requires
        first.len() == second.len(),
        forall|j: int| 0 <= j < first.len() ==> (#[trigger] first[j]).amount == second[j].amount,
    ensures
        paid_sum(first) == paid_sum(second),
    decreases first.len(),
{
    if first.len() > 0 {
        assert forall|j: int| 0 <= j < first.drop_last().len() implies (
        #[trigger] first.drop_last()[j]).amount == second.drop_last()[j].amount by {
            assert(first.drop_last()[j] == first[j]);
            assert(second.drop_last()[j] == second[j]);
        }
        paid_sum_same(first.drop_last(), second.drop_last());
    }
}

/// Index of the row of `miner` in `rows`, if it has one.
fn find_row(rows: &Vec<Payout>, miner: &String) -> (found: Option<usize>)
    ensures
        match found {
            Some(j) => j < rows@.len() && rows@[j as int].miner@ == miner@ && forall|k: int|
                0 <= k < j ==> (#[trigger] rows@[k]).miner@ != miner@,
            None => forall|j: int| 0 <= j < rows@.len() ==> (#[trigger] rows@[j]).miner@ != miner@,
        },
{
    let mut j: usize = 0;
    while j < rows.len()
        invariant
            j <= rows@.len(),
            forall|k: int| 0 <= k < j ==> (#[trigger] rows@[k]).miner@ != miner@,
        decreases rows@.len() - j,
    {
        if same_text(&rows[j].miner, miner) {
            return Some(j);
        }
        j += 1;
    }
    None
}

proof fn tallies_after_update(rows: Seq<Payout>, before: Seq<Proof>, p: Proof, j: int, row: Payout)
    requires
        tallies(rows, before),
        0 <= j < rows.len(),
        rows[j].miner@ == p.miner@,
        row.miner@ == p.miner@,
        row.seconds == rows[j].seconds + p.compute_seconds,
    ensures
        tallies(rows.update(j, row), before.push(p)),
{
    let new = rows.update(j, row);
    let after = before.push(p);
    assert(after.drop_last() =~= before);
    assert forall|a: int| 0 <= a < new.len() implies (#[trigger] new[a]).miner@ == rows[a].miner@ by {}
    assert forall|a: int| 0 <= a < new.len() implies (#[trigger] new[a]).seconds == seconds_of(
        after,
        new[a].miner@,
    ) by {
        if a != j {
            assert(rows[a].miner@ != rows[j].miner@);
        }
    }
    assert forall|k: int| 0 <= k < after.len() implies has_row(new, (#[trigger] after[k]).miner@) by {
        if k < before.len() {
            assert(has_row(rows, before[k].miner@));
            let j0 = choose|j0: int|
                0 <= j0 < rows.len() && (#[trigger] rows[j0]).miner@ == before[k].miner@;
            assert(new[j0].miner@ == after[k].miner@);
        } else {
            assert(new[j].miner@ == after[k].miner@);
        }
    }
    assert forall|a: int| 0 <= a < new.len() implies issued_by(after, (#[trigger] new[a]).miner@) by {
        assert(issued_by(before, rows[a].miner@));
        let k0 = choose|k0: int|
            0 <= k0 < before.len() && (#[trigger] before[k0]).miner@ == rows[a].miner@;
        assert(after[k0].miner@ == new[a].miner@);
    }
}

proof fn tallies_after_push(rows: Seq<Payout>, before: Seq<Proof>, p: Proof, row: Payout)
    requires
        tallies(rows, before),
        !has_row(rows, p.miner@),
        row.miner@ == p.miner@,
        row.seconds == p.compute_seconds,
    ensures
        tallies(rows.push(row), before.push(p)),
        seconds_of(before, p.miner@) == 0,
{
    let new = rows.push(row);
    let after = before.push(p);
    assert(after.drop_last() =~= before);
    assert forall|k: int| 0 <= k < before.len() implies (#[trigger] before[k]).miner@ != p.miner@ by {
        assert(has_row(rows, before[k].miner@));
    }
    seconds_absent(before, p.miner@);
    assert forall|a: int, b: int| 0 <= a < b < new.len() implies (#[trigger] new[a]).miner@ != (
    #[trigger] new[b]).miner@ by {
        if b == rows.len() {
            assert(new[a] == rows[a]);
        } else {
            assert(new[a] == rows[a] && new[b] == rows[b]);
        }
    }
    assert forall|a: int| 0 <= a < new.len() implies (#[trigger] new[a]).seconds == seconds_of(
        after,
        new[a].miner@,
    ) by {
        if a < rows.len() {
            assert(new[a] == rows[a]);
        }
    }
    assert forall|k: int| 0 <= k < after.len() implies has_row(new, (#[trigger] after[k]).miner@) by {
        if k < before.len() {
            assert(has_row(rows, before[k].miner@));
            let j0 = choose|j0: int|
                0 <= j0 < rows.len() && (#[trigger] rows[j0]).miner@ == before[k].miner@;
            assert(new[j0].miner@ == after[k].miner@);
        } else {
            assert(new[rows.len() as int].miner@ == after[k].miner@);
        }
    }
    assert forall|a: int| 0 <= a < new.len() implies issued_by(after, (#[trigger] new[a]).miner@) by {
        if a < rows.len() {
            assert(new[a] == rows[a]);
            assert(issued_by(before, rows[a].miner@));
            let k0 = choose|k0: int|
                0 <= k0 < before.len() && (#[trigger] before[k0]).miner@ == rows[a].miner@;
            assert(after[k0].miner@ == new[a].miner@);
        } else {
            assert(after[before.len() as int].miner@ == new[a].miner@);
        }
    }
}

proof fn seconds_absent(proofs: Seq<Proof>, miner: Seq<char>)
    requires
        forall|k: int| 0 <= k < proofs.len() ==> (#[trigger] proofs[k]).miner@ != miner,
    ensures
        seconds_of(proofs, miner) == 0,
    decreases proofs.len(),
{
    if proofs.len() > 0 {
        assert(proofs.last() == proofs[proofs.len() - 1]);
        assert forall|k: int| 0 <= k < proofs.drop_last().len() implies (
        #[trigger] proofs.drop_last()[k]).miner@ != miner by {
            assert(proofs.drop_last()[k] == proofs[k]);
        }
        seconds_absent(proofs.drop_last(), miner);
    }
}

proof fn seconds_sum_grows(rows: Seq<Payout>, n: int)
    requires
        0 <= n <= rows.len(),
    ensures
        seconds_sum(rows.take(n)) <= seconds_sum(rows),
    decreases rows.len() - n,
{
    if n == rows.len() {
        assert(rows.take(n) =~= rows);
    } else {
        seconds_sum_grows(rows, n + 1);
        assert(rows.take(n + 1).drop_last() =~= rows.take(n));
    }
}

proof fn tallies_carry_over(rows: Seq<Payout>, out: Seq<Payout>, proofs: Seq<Proof>)
    requires
        tallies(rows, proofs),
        out.len() == rows.len(),
        forall|j: int|
            0 <= j < rows.len() ==> (#[trigger] out[j]).miner@ == rows[j].miner@ && out[j].seconds
                == rows[j].seconds,
    ensures
        tallies(out, proofs),
{
    assert forall|i: int, j: int| 0 <= i < j < out.len() implies (#[trigger] out[i]).miner@ != (
    #[trigger] out[j]).miner@ by {
        assert(rows[i].miner@ != rows[j].miner@);
    }
    assert forall|j: int| 0 <= j < out.len() implies (#[trigger] out[j]).seconds == seconds_of(
        proofs,
        out[j].miner@,
    ) by {
        assert(rows[j].seconds == seconds_of(proofs, rows[j].miner@));
    }
    assert forall|k: int| 0 <= k < proofs.len() implies has_row(out, (#[trigger] proofs[k]).miner@) by {
        assert(has_row(rows, proofs[k].miner@));
        let j0 = choose|j0: int|
            0 <= j0 < rows.len() && (#[trigger] rows[j0]).miner@ == proofs[k].miner@;
        assert(out[j0].miner@ == proofs[k].miner@);
    }
    assert forall|j: int| 0 <= j < out.len() implies issued_by(proofs, (#[trigger] out[j]).miner@) by {
        assert(issued_by(proofs, rows[j].miner@));
    }
}

/// The seconds that each miner proved, one row for each miner, and the
/// volume; `None` where the volume exceeds what a `u64` holds. No amount is
/// set yet.
pub fn tally(proofs: &Vec<Proof>) -> (r: Option<(Vec<Payout>, u64)>)
    ensures
        r.is_some() == (volume_of(proofs@) <= u64::MAX),
        match r {
            Some((rows, volume)) => {
                &&& volume == volume_of(proofs@)
                &&& tallies(rows@, proofs@)
                &&& rows_view(rows@) == table_of(proofs@)
                &&& seconds_sum(rows@) == volume
                &&& forall|j: int| 0 <= j < rows@.len() ==> (#[trigger] rows@[j]).amount == 0
            },
            None => true,
        },
{
    let mut rows: Vec<Payout> = Vec::new();
    let mut volume: u64 = 0;
    let mut i: usize = 0;
    proof {
        assert(proofs@.take(0) =~= Seq::<Proof>::empty());
    }
    while i < proofs.len()
        invariant
            i <= proofs@.len(),
            volume == volume_of(proofs@.take(i as int)),
            tallies(rows@, proofs@.take(i as int)),
            rows_view(rows@) == table_of(proofs@.take(i as int)),
            seconds_sum(rows@) == volume,
            forall|j: int| 0 <= j < rows@.len() ==> (#[trigger] rows@[j]).amount == 0,
        decreases proofs@.len() - i,
    {
        let ghost before = proofs@.take(i as int);
        let ghost after = proofs@.take(i + 1);
        let ghost old_rows = rows@;
        let p = &proofs[i];
        proof {
            assert(after =~= before.push(*p));
            assert(after.drop_last() =~= before);
            volume_grows(proofs@, i + 1);
        }
        if p.compute_seconds > u64::MAX - volume {
            return None;
        }
        volume = volume + p.compute_seconds;
        match find_row(&rows, &p.miner) {
            Some(j) => {
                proof {
                    seconds_within_volume(after, p.miner@);
                }
                let row = Payout {
                    miner: rows[j].miner.clone(),
                    seconds: rows[j].seconds + p.compute_seconds,
                    amount: 0,
                };
                proof {
                    seconds_sum_after_update(old_rows, j as int, row);
                    tallies_after_update(old_rows, before, *p, j as int, row);
                    row_index_is(rows_view(old_rows), p.miner@, j as int);
                    assert(rows_view(old_rows.update(j as int, row)) =~= table_of(after));
                }
                rows.set(j, row);
            },
            None => {
                let row = Payout { miner: p.miner.clone(), seconds: p.compute_seconds, amount: 0 };
                proof {
                    tallies_after_push(old_rows, before, *p, row);
                    row_index_is(rows_view(old_rows), p.miner@, old_rows.len() as int);
                    assert(rows_view(old_rows.push(row)) =~= table_of(after));
                }
                rows.push(row);
                proof {
                    assert(rows@.drop_last() =~= old_rows);
                }
            },
        }
        i += 1;
    }
    proof {
        assert(proofs@.take(i as int) =~= proofs@);
    }
    Some((rows, volume))
}

/// Settles an epoch from its accepted proofs: every miner is paid
/// `miner_percent` of the seconds it proved, rounded down, and the pool takes
/// the rest of the volume. An epoch without proofs settles with volume 0 and
/// an empty table. Fails where the miners' share is more than the whole, or
/// the volume more than a `u64` holds.
pub fn settle(proofs: &Vec<Proof>, miner_percent: u64) -> (r: Result<Settlement, SealError>)
    ensures
        r.is_ok() == (miner_percent <= 100 && volume_of(proofs@) <= u64::MAX),
        match r {
            Ok(s) => settles(s, proofs@, miner_percent as nat),
            Err(e) => e == SealError::AggregationInconsistency,
        },
{
    if miner_percent > 100 {
        return Err(SealError::AggregationInconsistency);
    }
    match tally(proofs) {
        None => Err(SealError::AggregationInconsistency),
        Some((rows, volume)) => {
            let mut out: Vec<Payout> = Vec::new();
            let mut paid: u64 = 0;
            let mut j: usize = 0;
            proof {
                assert(rows@.take(0) =~= Seq::<Payout>::empty());
            }
            while j < rows.len()
                invariant
                    j <= rows@.len(),
                    out@.len() == j,
                    miner_percent <= 100,
                    seconds_sum(rows@) == volume,
                    forall|k: int|
                        0 <= k < j ==> (#[trigger] out@[k]).miner@ == rows@[k].miner@
                            && out@[k].seconds == rows@[k].seconds && out@[k].amount == share(
                            out@[k].seconds as nat,
                            miner_percent as nat,
                        ),
                    paid == paid_sum(out@),
                    paid <= seconds_sum(rows@.take(j as int)),
                decreases rows@.len() - j,
            {
                let seconds: u64 = rows[j].seconds;
                let ghost old_out = out@;
                proof {
                    seconds_sum_grows(rows@, j + 1);
                    assert(rows@.take(j + 1).drop_last() =~= rows@.take(j as int));
                    assert(rows@.take(j + 1).last() == rows@[j as int]);
                    let s = seconds as int;
                    let p = miner_percent as int;
                    assert(0 <= s * p <= s * 100 && s * p / 100 <= s) by (nonlinear_arith)
                        requires
                            0 <= s,
                            0 <= p <= 100,
                    ;
                }
                let product: u128 = (seconds as u128) * (miner_percent as u128);
                let amount: u64 = (product / 100) as u64;
                out.push(Payout { miner: rows[j].miner.clone(), seconds, amount });
                proof {
                    assert(out@.drop_last() =~= old_out);
                }
                paid = paid + amount;
                j += 1;
            }
            proof {
                assert(rows@.take(j as int) =~= rows@);
                tallies_carry_over(rows@, out@, proofs@);
                assert(rows_view(out@) =~= rows_view(rows@));
                seconds_sum_same(out@, rows@);
            }
            Ok(Settlement { volume, payouts: out, pool_payout: volume - paid })
        },
    }
}

/// Payouts reconcile: in every settlement of `proofs` what the miners are
/// paid and what the pool is paid add up to the volume of `proofs` exactly.
/// No miner is paid more than the seconds it proved, and the miners together
/// are paid no more than their share of the volume: what rounding takes from
/// them goes to the pool.
pub proof fn lemma_payouts_reconcile(s: Settlement, proofs: Seq<Proof>, percent: nat)
    requires
        percent <= 100,
        settles(s, proofs, percent),
    ensures
        paid_sum(s.payouts@) + s.pool_payout == volume_of(proofs),
        paid_sum(s.payouts@) <= share(volume_of(proofs), percent),
        s.pool_payout >= volume_of(proofs) - share(volume_of(proofs), percent),
        forall|j: int|
            0 <= j < s.payouts@.len() ==> (#[trigger] s.payouts@[j]).amount <= seconds_of(
                proofs,
                s.payouts@[j].miner@,
            ),
{
    assert forall|j: int| 0 <= j < s.payouts@.len() implies (#[trigger] s.payouts@[j]).amount
        <= seconds_of(proofs, s.payouts@[j].miner@) by {
        let n = s.payouts@[j].seconds as int;
        let p = percent as int;
        assert(n * p / 100 <= n) by (nonlinear_arith)
            requires
                0 <= n,
                0 <= p <= 100,
        ;
    }
    paid_within_share(s.payouts@, percent);
}

/// Settling is repeatable: two settlements of the same proofs with the same
/// split hold the same volume, the same pool payout and the same table, row
/// by row.
pub proof fn lemma_settlement_is_repeatable(
    first: Settlement,
    second: Settlement,
    proofs: Seq<Proof>,
    percent: nat,
)
    requires
        settles(first, proofs, percent),
        settles(second, proofs, percent),
    ensures
        first.volume == second.volume,
        first.pool_payout == second.pool_payout,
        first.payouts@.len() == second.payouts@.len(),
        forall|j: int|
            0 <= j < first.payouts@.len() ==> {
                &&& (#[trigger] first.payouts@[j]).miner@ == second.payouts@[j].miner@
                &&& first.payouts@[j].seconds == second.payouts@[j].seconds
                &&& first.payouts@[j].amount == second.payouts@[j].amount
            },
{
    let a = first.payouts@;
    let b = second.payouts@;
    assert(rows_view(a).len() == rows_view(b).len());
    assert forall|j: int| 0 <= j < a.len() implies {
        &&& (#[trigger] a[j]).miner@ == b[j].miner@
        &&& a[j].seconds == b[j].seconds
        &&& a[j].amount == b[j].amount
    } by {
        assert(rows_view(a)[j] == rows_view(b)[j]);
    }
    paid_sum_same(a, b);
}

} // verus!
