//! What holds of every transaction that is recognized: settlements are claims of
//! the pinned splitter, each backed by a transfer of its own, so that reputation
//! never exceeds really-moved money.

use crate::count::{count, lemma_count_positive, lemma_count_push, lemma_count_update};
use crate::recognize::{backs, transfers_in, Scan, TransferSpec};
use crate::reduce::SettledSpec;
use vstd::prelude::*;

verus! {

/// How many settlements are of `gross` from `donor`.
pub open spec fn settled_times(settlements: Seq<SettledSpec>, donor: Seq<u8>, gross: u128) -> nat {
    count(settlements, |s: SettledSpec| s.donor == donor && s.gross == gross)
}

/// What the settlements of `donor` come to.
pub open spec fn settled_by(settlements: Seq<SettledSpec>, donor: Seq<u8>) -> nat
    decreases settlements.len(),
{
    if settlements.len() == 0 {
        0
    } else {
        settled_by(settlements.drop_last(), donor) + if settlements.last().donor == donor {
            settlements.last().gross as nat
        } else {
            0nat
        }
    }
}

/// How much of `mint` the transfers move by authority of `donor`.
pub open spec fn moved_by(transfers: Seq<TransferSpec>, mint: Seq<u8>, donor: Seq<u8>) -> nat
    decreases transfers.len(),
{
    if transfers.len() == 0 {
        0
    } else {
        moved_by(transfers.drop_last(), mint, donor) + if transfers.last().mint == mint
            && transfers.last().authority == donor {
            transfers.last().amount as nat
        } else {
            0nat
        }
    }
}

/// Of `gross` from `donor` there are as many settlements as claims, but no more
/// than transfers that moved it.
proof fn lemma_settled_times(scan: Scan, n: nat, donor: Seq<u8>, gross: u128)
    ensures
        settled_times(scan.settlements(n), donor, gross) == if scan.claims(n, donor, gross)
            <= scan.moved(donor, gross) {
            scan.claims(n, donor, gross)
        } else {
            scan.moved(donor, gross)
        },
    decreases n,
{
    if n > 0 {
        let m = (n - 1) as nat;
        lemma_settled_times(scan, m, donor, gross);
        if scan.backed(m as int) {
            lemma_count_push(
                scan.settlements(m),
                scan.claim(m as int)->0,
                |s: SettledSpec| s.donor == donor && s.gross == gross,
            );
        }
    }
}

/// Of `gross` from `donor` exactly as many are settled as there are both claims and
/// transfers: the smaller of the two numbers.
pub proof fn settled_as_often_as_claimed_and_moved(scan: Scan, donor: Seq<u8>, gross: u128)
    ensures
        ({
            let claimed = scan.claims(scan.tx.instrs.len(), donor, gross);
            let moved = scan.moved(donor, gross);
            settled_times(scan.recognized().settlements, donor, gross) == if claimed <= moved {
                claimed
            } else {
                moved
            }
        }),
{
    lemma_settled_times(scan, scan.tx.instrs.len(), donor, gross);
}

/// No transfer backs two settlements: of `gross` from `donor` no more are settled
/// than transfers of the transaction moved.
pub proof fn no_transfer_backs_two_settlements(scan: Scan, donor: Seq<u8>, gross: u128)
    ensures
        settled_times(scan.recognized().settlements, donor, gross) <= scan.moved(donor, gross),
{
    settled_as_often_as_claimed_and_moved(scan, donor, gross);
}

/// Replacing a transfer takes its amount out of the sum and puts the
/// replacement's in.
proof fn lemma_moved_update(
    transfers: Seq<TransferSpec>,
    i: int,
    x: TransferSpec,
    mint: Seq<u8>,
    donor: Seq<u8>,
)
    requires
        0 <= i < transfers.len(),
        x.mint != mint,
        transfers[i].mint == mint,
        transfers[i].authority == donor,
    ensures
        moved_by(transfers.update(i, x), mint, donor) + transfers[i].amount == moved_by(
            transfers,
            mint,
            donor,
        ),
    decreases transfers.len(),
{
    if i == transfers.len() - 1 {
        assert(transfers.update(i, x).drop_last() =~= transfers.drop_last());
    } else {
        lemma_moved_update(transfers.drop_last(), i, x, mint, donor);
        assert(transfers.update(i, x).drop_last() =~= transfers.drop_last().update(i, x));
    }
}

/// Where every amount is settled no more often than moved, no more is settled
/// than moved.
proof fn lemma_settled_within_moved(
    settlements: Seq<SettledSpec>,
    transfers: Seq<TransferSpec>,
    mint: Seq<u8>,
    donor: Seq<u8>,
)
    requires
        forall|gross: u128| #[trigger]
            settled_times(settlements, donor, gross) <= count(
                transfers,
                |t: TransferSpec| backs(t, mint, donor, gross),
            ),
    ensures
        settled_by(settlements, donor) <= moved_by(transfers, mint, donor),
    decreases settlements.len(),
{
    if settlements.len() > 0 {
        let last = settlements.last();
        let before = settlements.drop_last();
        if last.donor != donor {
            assert forall|gross: u128| #[trigger]
                settled_times(before, donor, gross) <= count(
                    transfers,
                    |t: TransferSpec| backs(t, mint, donor, gross),
                ) by {
                assert(settled_times(settlements, donor, gross) == settled_times(
                    before,
                    donor,
                    gross,
                ));
            }
            lemma_settled_within_moved(before, transfers, mint, donor);
        } else {
            let p = |t: TransferSpec| backs(t, mint, donor, last.gross);
            assert(settled_times(settlements, donor, last.gross) > 0);
            lemma_count_positive(transfers, p);
            let i = choose|i: int| 0 <= i < transfers.len() && p(#[trigger] transfers[i]);
            let spent = TransferSpec { mint: mint.push(0u8), amount: 0, authority: donor };
            assert(spent.mint.len() != mint.len());
            let rest = transfers.update(i, spent);
            assert forall|gross: u128| #[trigger]
                settled_times(before, donor, gross) <= count(
                    rest,
                    |t: TransferSpec| backs(t, mint, donor, gross),
                ) by {
                let q = |t: TransferSpec| backs(t, mint, donor, gross);
                lemma_count_update(transfers, i, spent, q);
                assert(settled_times(settlements, donor, gross) <= count(transfers, q));
                assert(q(transfers[i]) == (gross == last.gross));
            }
            lemma_settled_within_moved(before, rest, mint, donor);
            lemma_moved_update(transfers, i, spent, mint, donor);
        }
    }
}

/// Reputation never exceeds really-moved money: what a transaction settles of a
/// donor is no more than what its transfers of the mint moved by that donor's
/// authority.
pub proof fn settled_never_exceeds_moved(scan: Scan, donor: Seq<u8>)
    ensures
        settled_by(scan.recognized().settlements, donor) <= moved_by(
            transfers_in(scan.tx.instrs),
            scan.cfg.usdc,
            donor,
        ),
{
    assert forall|gross: u128| #[trigger]
        settled_times(scan.recognized().settlements, donor, gross) <= count(
            transfers_in(scan.tx.instrs),
            |t: TransferSpec| backs(t, scan.cfg.usdc, donor, gross),
        ) by {
        no_transfer_backs_two_settlements(scan, donor, gross);
    }
    lemma_settled_within_moved(
        scan.recognized().settlements,
        transfers_in(scan.tx.instrs),
        scan.cfg.usdc,
        donor,
    );
}

/// Whether instruction `j` is where a settlement was claimed.
pub open spec fn claimed_at(scan: Scan, j: int, s: SettledSpec) -> bool {
    &&& scan.tx.instrs[j].program == scan.cfg.splitter
    &&& scan.claim(j) == Some(s)
    &&& s.chain == scan.cfg.chain
    &&& s.gross >= scan.cfg.min_gross
}

/// The settlements of the first `n` instructions were claimed there.
proof fn lemma_settlements_claimed(scan: Scan, n: nat, i: int)
    requires
        0 <= i < scan.settlements(n).len(),
    ensures
        exists|j: int| 0 <= j < n && #[trigger] claimed_at(scan, j, scan.settlements(n)[i]),
    decreases n,
{
    if n > 0 {
        let m = (n - 1) as nat;
        if i < scan.settlements(m).len() {
            lemma_settlements_claimed(scan, m, i);
            let j = choose|j: int|
                0 <= j < m && #[trigger] claimed_at(scan, j, scan.settlements(m)[i]);
            assert(claimed_at(scan, j, scan.settlements(n)[i]));
        } else {
            assert(claimed_at(scan, m as int, scan.settlements(n)[i]));
        }
    }
}

/// Nothing but an event of the pinned splitter is reputation, and none below the
/// floor is: every settlement is such a claim of some instruction.
pub proof fn only_the_splitter_settles(scan: Scan, i: int)
    requires
        0 <= i < scan.recognized().settlements.len(),
    ensures
        exists|j: int|
            0 <= j < scan.tx.instrs.len() && #[trigger] claimed_at(
                scan,
                j,
                scan.recognized().settlements[i],
            ),
{
    lemma_settlements_claimed(scan, scan.tx.instrs.len(), i);
}

/// Whether instruction `j` is where an escrow was born.
pub open spec fn born_at(scan: Scan, j: int, escrow: Seq<u8>, donor: Seq<u8>, slot: u64) -> bool {
    let instr = scan.tx.instrs[j];
    &&& scan.cfg.factories.contains(instr.program)
    &&& scan.pdas[j] == Some(escrow)
    &&& instr.accounts.len() >= 2
    &&& instr.accounts[1] == escrow
    &&& instr.accounts[0] == donor
    &&& slot == scan.tx.slot
}

/// The births of the first `n` instructions happened there.
proof fn lemma_births_born(scan: Scan, n: nat, i: int)
    requires
        0 <= i < scan.births(n).len(),
    ensures
        exists|j: int|
            0 <= j < n && #[trigger] born_at(
                scan,
                j,
                scan.births(n)[i].0,
                scan.births(n)[i].1.donor,
                scan.births(n)[i].1.slot,
            ),
    decreases n,
{
    if n > 0 {
        let m = (n - 1) as nat;
        let b = scan.births(n)[i];
        if i < scan.births(m).len() {
            lemma_births_born(scan, m, i);
            let j = choose|j: int|
                0 <= j < m && #[trigger] born_at(
                    scan,
                    j,
                    scan.births(m)[i].0,
                    scan.births(m)[i].1.donor,
                    scan.births(m)[i].1.slot,
                );
            assert(born_at(scan, j, b.0, b.1.donor, b.1.slot));
        } else {
            assert(born_at(scan, m as int, b.0, b.1.donor, b.1.slot));
        }
    }
}

/// A spoofed escrow is never recorded: every birth is of a pinned factory, and its
/// escrow is the address derived for that instruction.
pub proof fn only_pinned_factories_bear(scan: Scan, i: int)
    requires
        0 <= i < scan.recognized().births.len(),
    ensures
        exists|j: int|
            0 <= j < scan.tx.instrs.len() && #[trigger] born_at(
                scan,
                j,
                scan.recognized().births[i].0,
                scan.recognized().births[i].1.donor,
                scan.recognized().births[i].1.slot,
            ),
{
    lemma_births_born(scan, scan.tx.instrs.len(), i);
}

/// How many of the first `n` instructions make a claim that is not dust.
pub open spec fn claims_counted(scan: Scan, n: nat) -> nat
    decreases n,
{
    if n == 0 {
        0
    } else {
        claims_counted(scan, (n - 1) as nat) + if scan.counts((n - 1) as int) {
            1nat
        } else {
            0nat
        }
    }
}

/// Every claim above the floor is either settled or counted as an anomaly: a
/// batch loses none.
pub proof fn every_claim_is_settled_or_an_anomaly(scan: Scan, n: nat)
    ensures
        scan.settlements(n).len() + scan.unbacked(n) == claims_counted(scan, n),
    decreases n,
{
    if n > 0 {
        every_claim_is_settled_or_an_anomaly(scan, (n - 1) as nat);
    }
}

} // verus!
