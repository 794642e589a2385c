//! What programs write is what is recognized: events, transfers and births read
//! back as they were written, and none that counts is passed over.

use crate::certified::{capped, BirthSpec};
use crate::count::count;
use crate::derive::program_address;
use crate::digest::sha256_of;
use crate::recognition_laws::{claims_counted, every_claim_is_settled_or_an_anomaly};
use crate::recognize::{
    backs, escrow_salt_of, scan_of, settled_claim, transfer_of, transfers_in, ChainConfigSpec,
    InstrSpec, Scan, TransferSpec, TxSpec,
};
use crate::reduce::SettledSpec;
use vstd::bytes::{lemma_auto_spec_u64_to_from_le_bytes, spec_u64_to_le_bytes};
use vstd::prelude::*;
use vstd::string::*;

verus! {

// ----- events -----

/// The front of every `Settled` event: the tag of a self-CPI, then the
/// discriminator of the event.
pub open spec fn event_head(disc: Seq<u8>) -> Seq<u8> {
    seq![0xe4u8, 0x45u8, 0xa5u8, 0x2eu8, 0x51u8, 0xcbu8, 0x9au8, 0x1du8] + disc
}

/// A `Settled` event as it is written: the head, the donor, the recipient, and the
/// gross in little-endian.
pub open spec fn event_written(
    disc: Seq<u8>,
    donor: Seq<u8>,
    recipient: Seq<u8>,
    gross: u64,
) -> Seq<u8> {
    event_head(disc) + donor + recipient + spec_u64_to_le_bytes(gross)
}

/// An event reads back as it was written: the donor, the recipient and the gross,
/// byte for byte, whatever follows.
pub proof fn an_event_reads_back(
    disc: Seq<u8>,
    chain: Seq<u8>,
    donor: Seq<u8>,
    recipient: Seq<u8>,
    gross: u64,
    rest: Seq<u8>,
)
    requires
        disc.len() == 8,
        donor.len() == 32,
        recipient.len() == 32,
    ensures
        settled_claim(event_written(disc, donor, recipient, gross) + rest, disc, chain) == Some(
            SettledSpec { chain, donor, recipient, gross: gross as u128 },
        ),
{
    lemma_auto_spec_u64_to_from_le_bytes();
    let d = event_written(disc, donor, recipient, gross) + rest;
    assert(spec_u64_to_le_bytes(gross).len() == 8);
    assert(d.subrange(0, 8) =~= crate::recognize::EVENT_IX_TAG_LE@);
    assert(d.subrange(8, 16) =~= disc);
    assert(d.subrange(16, 48) =~= donor);
    assert(d.subrange(48, 80) =~= recipient);
    assert(d.subrange(80, 88) =~= spec_u64_to_le_bytes(gross));
}

/// Nothing but a written event is a claim: what is claimed is what the bytes say.
pub proof fn only_a_written_event_is_a_claim(d: Seq<u8>, disc: Seq<u8>, chain: Seq<u8>)
    requires
        disc.len() == 8,
    ensures
        settled_claim(d, disc, chain) is Some <==> d.len() >= 88 && d.take(16) == event_head(disc),
        settled_claim(d, disc, chain) matches Some(s) ==> {
            &&& s.chain == chain
            &&& s.donor.len() == 32
            &&& s.recipient.len() == 32
            &&& s.gross <= u64::MAX
            &&& d.take(88) == event_written(disc, s.donor, s.recipient, s.gross as u64)
        },
{
    lemma_auto_spec_u64_to_from_le_bytes();
    if d.len() >= 88 {
        let tag = crate::recognize::EVENT_IX_TAG_LE@;
        assert(tag =~= seq![0xe4u8, 0x45u8, 0xa5u8, 0x2eu8, 0x51u8, 0xcbu8, 0x9au8, 0x1du8]);
        if d.subrange(0, 8) == tag && d.subrange(8, 16) == disc {
            assert(d.take(16) =~= d.subrange(0, 8) + d.subrange(8, 16));
            let s = settled_claim(d, disc, chain)->0;
            assert(d.take(88) =~= d.take(16) + d.subrange(16, 48) + d.subrange(48, 80)
                + d.subrange(80, 88));
            assert(spec_u64_to_le_bytes(s.gross as u64) == d.subrange(80, 88));
        }
        if d.take(16) == event_head(disc) {
            assert(d.subrange(0, 8) =~= d.take(16).subrange(0, 8));
            assert(d.subrange(8, 16) =~= d.take(16).subrange(8, 16));
            assert(event_head(disc).subrange(0, 8) =~= tag);
            assert(event_head(disc).subrange(8, 16) =~= disc);
        }
    }
}

// ----- transfers -----

/// The address of the SPL token program.
pub open spec fn token_program() -> Seq<u8> {
    seq![
        6u8, 221u8, 246u8, 225u8, 215u8, 101u8, 161u8, 147u8, 217u8, 203u8, 225u8, 70u8, 206u8,
        235u8, 121u8, 172u8, 28u8, 180u8, 133u8, 237u8, 95u8, 91u8, 55u8, 145u8, 58u8, 140u8,
        245u8, 133u8, 126u8, 255u8, 0u8, 169u8,
    ]
}

/// Whether an instruction moves `amount` of `mint` by authority of `authority`: a
/// `TransferChecked` of the token program over the accounts `[source, mint,
/// destination, authority]`, with the amount in little-endian behind its tag.
pub open spec fn moves(i: InstrSpec, mint: Seq<u8>, amount: u64, authority: Seq<u8>) -> bool {
    &&& i.program == token_program()
    &&& i.data.len() >= 9
    &&& i.data.take(9) == seq![12u8] + spec_u64_to_le_bytes(amount)
    &&& i.accounts.len() >= 4
    &&& i.accounts[1] == mint
    &&& i.accounts[3] == authority
}

/// A transfer reads back as it was written, and nothing else is a transfer.
pub proof fn a_transfer_reads_back(
    i: InstrSpec,
    mint: Seq<u8>,
    amount: u64,
    authority: Seq<u8>,
)
    ensures
        moves(i, mint, amount, authority) <==> transfer_of(i) == Some(
            TransferSpec { mint, amount, authority },
        ),
{
    lemma_auto_spec_u64_to_from_le_bytes();
    assert(token_program() =~= crate::recognize::TOKEN_PROGRAM_ID@);
    if i.data.len() >= 9 {
        let front = i.data.take(9);
        assert(front =~= seq![i.data[0]] + i.data.subrange(1, 9));
        let written = seq![12u8] + spec_u64_to_le_bytes(amount);
        assert(written.subrange(1, 9) =~= spec_u64_to_le_bytes(amount));
        assert(front.subrange(1, 9) =~= i.data.subrange(1, 9));
        assert(written[0] == 12u8);
        assert(front[0] == i.data[0]);
    }
}

/// Every transfer is collected, once and in its place: the transfers of one part of
/// a transaction, then those of the other; and of one instruction exactly the one
/// that it makes.
pub proof fn transfers_are_collected_one_by_one(a: Seq<InstrSpec>, b: Seq<InstrSpec>, i: InstrSpec)
    ensures
        transfers_in(a + b) == transfers_in(a) + transfers_in(b),
        forall|mint: Seq<u8>, amount: u64, authority: Seq<u8>| #[trigger]
            moves(i, mint, amount, authority) ==> transfers_in(seq![i]) == seq![
                TransferSpec { mint, amount, authority },
            ],
        (forall|mint: Seq<u8>, amount: u64, authority: Seq<u8>|
            !#[trigger] moves(i, mint, amount, authority)) ==> transfers_in(seq![i]).len() == 0,
    decreases b.len(),
{
    if b.len() == 0 {
        assert(a + b =~= a);
        assert(transfers_in(a) =~= transfers_in(a) + transfers_in(b));
    } else {
        transfers_are_collected_one_by_one(a, b.drop_last(), i);
        assert((a + b).drop_last() =~= a + b.drop_last());
        assert((a + b).last() == b.last());
        assert(transfers_in(a + b) =~= transfers_in(a) + transfers_in(b));
    }
    let one = seq![i];
    assert(one.drop_last() =~= Seq::<InstrSpec>::empty());
    assert(transfers_in(one.drop_last()) =~= Seq::<TransferSpec>::empty());
    assert forall|mint: Seq<u8>, amount: u64, authority: Seq<u8>| #[trigger]
        moves(i, mint, amount, authority) implies transfers_in(one) == seq![
        TransferSpec { mint, amount, authority },
    ] by {
        a_transfer_reads_back(i, mint, amount, authority);
        assert(transfers_in(one) =~= seq![TransferSpec { mint, amount, authority }]);
    }
    if let Some(t) = transfer_of(i) {
        a_transfer_reads_back(i, t.mint, t.amount, t.authority);
        assert(moves(i, t.mint, t.amount, t.authority));
    }
}

// ----- the roots of a reading -----

/// ASCII texts one after the other are written by the bytes of the whole.
proof fn lemma_joined(a: &str, b: &str, c: &str, whole: &str)
    requires
        a.is_ascii(),
        b.is_ascii(),
        c.is_ascii(),
        whole.is_ascii(),
        whole@ == a@ + b@ + c@,
    ensures
        a.spec_bytes() + b.spec_bytes() + c.spec_bytes() == whole.spec_bytes(),
{
    broadcast use is_ascii_spec_bytes;

    assert(a.spec_bytes() + b.spec_bytes() + c.spec_bytes() =~= whole.spec_bytes());
}

/// A transaction is read by the discriminators that the programs write: the first
/// eight bytes of `sha256("event:Settled")` and of `sha256("global:create_escrow")`.
pub proof fn discriminators_are_those_of_the_programs(tx: TxSpec, cfg: ChainConfigSpec)
    ensures
        scan_of(tx, cfg).tx == tx,
        scan_of(tx, cfg).cfg == cfg,
        scan_of(tx, cfg).settled_disc == sha256_of("event:Settled".spec_bytes()).subrange(0, 8),
        scan_of(tx, cfg).create_disc == sha256_of("global:create_escrow".spec_bytes()).subrange(
            0,
            8,
        ),
{
    reveal_strlit("event");
    reveal_strlit(":");
    reveal_strlit("Settled");
    reveal_strlit("event:Settled");
    reveal_strlit("global");
    reveal_strlit("create_escrow");
    reveal_strlit("global:create_escrow");
    assert("event:Settled"@ =~= "event"@ + ":"@ + "Settled"@);
    assert("global:create_escrow"@ =~= "global"@ + ":"@ + "create_escrow"@);
    lemma_joined("event", ":", "Settled", "event:Settled");
    lemma_joined("global", ":", "create_escrow", "global:create_escrow");
}

// ----- settlements -----

/// Whether an instruction is a `Settled` event of the splitter, whatever it says.
pub open spec fn is_event(i: InstrSpec, splitter: Seq<u8>, disc: Seq<u8>) -> bool {
    &&& i.program == splitter
    &&& i.data.len() >= 88
    &&& i.data.subrange(0, 8) == event_head(Seq::empty())
    &&& i.data.subrange(8, 16) == disc
}

/// Whether an instruction is a `Settled` event of the splitter that says `gross`
/// from `donor`.
pub open spec fn says(
    i: InstrSpec,
    splitter: Seq<u8>,
    disc: Seq<u8>,
    donor: Seq<u8>,
    gross: u128,
) -> bool {
    &&& is_event(i, splitter, disc)
    &&& i.data.subrange(16, 48) == donor
    &&& gross <= u64::MAX
    &&& i.data.subrange(80, 88) == spec_u64_to_le_bytes(gross as u64)
}

/// How many of the instructions say `gross` from `donor`.
pub open spec fn said(scan: Scan, instrs: Seq<InstrSpec>, donor: Seq<u8>, gross: u128) -> nat {
    instrs.filter(
        |i: InstrSpec| says(i, scan.cfg.splitter, scan.settled_disc, donor, gross),
    ).len()
}

/// How many of the instructions move `gross` of the mint by authority of `donor`.
pub open spec fn times_moved(
    scan: Scan,
    instrs: Seq<InstrSpec>,
    donor: Seq<u8>,
    gross: u128,
) -> nat {
    instrs.filter(
        |i: InstrSpec| gross <= u64::MAX && moves(i, scan.cfg.usdc, gross as u64, donor),
    ).len()
}

/// How many of the settlements are of `gross` from `donor`.
pub open spec fn times_settled(
    settlements: Seq<SettledSpec>,
    donor: Seq<u8>,
    gross: u128,
) -> nat {
    settlements.filter(|s: SettledSpec| s.donor == donor && s.gross == gross).len()
}

/// Whether the event at `n` that says `gross` from `donor` is settled: it is at or
/// above the floor, and fewer events before it say the same than transfers moved it.
pub open spec fn settles_at(scan: Scan, n: int, donor: Seq<u8>, gross: u128) -> bool {
    &&& says(scan.tx.instrs[n], scan.cfg.splitter, scan.settled_disc, donor, gross)
    &&& gross >= scan.cfg.min_gross
    &&& said(scan, scan.tx.instrs.take(n), donor, gross) < times_moved(
        scan,
        scan.tx.instrs,
        donor,
        gross,
    )
}

/// Whether instruction `n` is settled.
pub open spec fn is_settled(scan: Scan, n: int) -> bool {
    exists|donor: Seq<u8>, gross: u128| #[trigger] settles_at(scan, n, donor, gross)
}

/// How many of the first `n` instructions are settled.
pub open spec fn settled_before(scan: Scan, n: nat) -> nat
    decreases n,
{
    if n == 0 {
        0
    } else {
        settled_before(scan, (n - 1) as nat) + if is_settled(scan, n - 1) {
            1nat
        } else {
            0nat
        }
    }
}

/// How many of the first `n` instructions are events at or above the floor.
pub open spec fn events_before(scan: Scan, n: nat) -> nat
    decreases n,
{
    if n == 0 {
        0
    } else {
        events_before(scan, (n - 1) as nat) + if exists|donor: Seq<u8>, gross: u128|
            gross >= scan.cfg.min_gross && #[trigger] says(
                scan.tx.instrs[n - 1],
                scan.cfg.splitter,
                scan.settled_disc,
                donor,
                gross,
            ) {
            1nat
        } else {
            0nat
        }
    }
}

/// Counting items is counting those that a filter leaves.
pub proof fn counting_is_filtering<T>(s: Seq<T>, p: spec_fn(T) -> bool)
    ensures
        count(s, p) == s.filter(p).len(),
    decreases s.len(),
{
    reveal(Seq::filter);
    if s.len() > 0 {
        counting_is_filtering(s.drop_last(), p);
    }
}

/// An instruction claims what it says, and only an event claims anything.
proof fn lemma_claim(scan: Scan, n: int)
    requires
        0 <= n < scan.tx.instrs.len(),
    ensures
        scan.claim(n) is Some <==> is_event(
            scan.tx.instrs[n],
            scan.cfg.splitter,
            scan.settled_disc,
        ),
        scan.claim(n) matches Some(s) ==> {
            &&& s.chain == scan.cfg.chain
            &&& s.recipient == scan.tx.instrs[n].data.subrange(48, 80)
            &&& says(scan.tx.instrs[n], scan.cfg.splitter, scan.settled_disc, s.donor, s.gross)
        },
        forall|donor: Seq<u8>, gross: u128| #[trigger]
            says(scan.tx.instrs[n], scan.cfg.splitter, scan.settled_disc, donor, gross) ==> {
                &&& scan.claim(n) is Some
                &&& scan.claim(n)->0.donor == donor
                &&& scan.claim(n)->0.gross == gross
            },
{
    lemma_auto_spec_u64_to_from_le_bytes();
    let d = scan.tx.instrs[n].data;
    assert(event_head(Seq::empty()) =~= crate::recognize::EVENT_IX_TAG_LE@);
    if d.len() >= 88 {
        assert(d.subrange(80, 88).len() == 8);
    }
}

/// The first `n` instructions claim as often as they say.
proof fn lemma_claims(scan: Scan, n: nat, donor: Seq<u8>, gross: u128)
    requires
        n <= scan.tx.instrs.len(),
    ensures
        gross >= scan.cfg.min_gross ==> scan.claims(n, donor, gross) == said(
            scan,
            scan.tx.instrs.take(n as int),
            donor,
            gross,
        ),
        gross < scan.cfg.min_gross ==> scan.claims(n, donor, gross) == 0,
    decreases n,
{
    reveal(Seq::filter);
    if n > 0 {
        let m = (n - 1) as nat;
        lemma_claims(scan, m, donor, gross);
        lemma_claim(scan, m as int);
        let front = scan.tx.instrs.take(n as int);
        assert(front.drop_last() =~= scan.tx.instrs.take(m as int));
        assert(front.last() == scan.tx.instrs[m as int]);
        assert(says(
            scan.tx.instrs[m as int],
            scan.cfg.splitter,
            scan.settled_disc,
            donor,
            gross,
        ) <==> (scan.claim(m as int) matches Some(s) && s.donor == donor && s.gross == gross));
    }
}

/// As many transfers back a claim as instructions moved it.
proof fn lemma_moved(instrs: Seq<InstrSpec>, usdc: Seq<u8>, donor: Seq<u8>, gross: u128)
    ensures
        count(transfers_in(instrs), |t: TransferSpec| backs(t, usdc, donor, gross))
            == instrs.filter(
            |i: InstrSpec| gross <= u64::MAX && moves(i, usdc, gross as u64, donor),
        ).len(),
    decreases instrs.len(),
{
    reveal(Seq::filter);
    if instrs.len() > 0 {
        let last = instrs.last();
        lemma_moved(instrs.drop_last(), usdc, donor, gross);
        if gross <= u64::MAX {
            a_transfer_reads_back(last, usdc, gross as u64, donor);
        }
        let before = transfers_in(instrs.drop_last());
        if let Some(t) = transfer_of(last) {
            assert(before.push(t).drop_last() =~= before);
            assert(backs(t, usdc, donor, gross) <==> gross <= u64::MAX && t == (TransferSpec {
                mint: usdc,
                amount: gross as u64,
                authority: donor,
            }));
        }
    }
}

/// An instruction is settled where its claim is backed.
proof fn lemma_backed(scan: Scan, n: int)
    requires
        0 <= n < scan.tx.instrs.len(),
    ensures
        scan.backed(n) <==> is_settled(scan, n),
        scan.backed(n) ==> scan.claim(n) is Some && settles_at(
            scan,
            n,
            scan.claim(n)->0.donor,
            scan.claim(n)->0.gross,
        ),
{
    lemma_claim(scan, n);
    if let Some(s) = scan.claim(n) {
        lemma_claims(scan, n as nat, s.donor, s.gross);
        lemma_moved(scan.tx.instrs, scan.cfg.usdc, s.donor, s.gross);
        if scan.backed(n) {
            assert(settles_at(scan, n, s.donor, s.gross));
        }
    }
    if is_settled(scan, n) {
        let (donor, gross) = choose|donor: Seq<u8>, gross: u128| #[trigger]
            settles_at(scan, n, donor, gross);
        assert(says(scan.tx.instrs[n], scan.cfg.splitter, scan.settled_disc, donor, gross));
    }
}

/// First come, first backed: the event at `n` that says `gross` from `donor` is
/// settled in its place among the settled ones, to the recipient it names, where
/// fewer events before it say the same than transfers moved it; and there are no
/// settlements but of such events.
pub proof fn first_come_first_backed(scan: Scan, n: int, donor: Seq<u8>, gross: u128)
    requires
        0 <= n < scan.tx.instrs.len(),
    ensures
        ({
            let settlements = scan.recognized().settlements;
            &&& settlements.len() == settled_before(scan, scan.tx.instrs.len())
            &&& settles_at(scan, n, donor, gross) ==> {
                &&& settled_before(scan, n as nat) < settlements.len()
                &&& settlements[settled_before(scan, n as nat) as int] == (SettledSpec {
                    chain: scan.cfg.chain,
                    donor,
                    recipient: scan.tx.instrs[n].data.subrange(48, 80),
                    gross,
                })
            }
        }),
{
    lemma_settled_in_place(scan, scan.tx.instrs.len());
    if settles_at(scan, n, donor, gross) {
        assert(is_settled(scan, n));
        lemma_backed(scan, n);
        lemma_claim(scan, n);
        assert(says(scan.tx.instrs[n], scan.cfg.splitter, scan.settled_disc, donor, gross));
        lemma_settled_stays(scan, n, scan.tx.instrs.len());
    }
}

/// There are as many settlements as settled instructions.
proof fn lemma_settled_in_place(scan: Scan, n: nat)
    requires
        n <= scan.tx.instrs.len(),
    ensures
        scan.settlements(n).len() == settled_before(scan, n),
    decreases n,
{
    if n > 0 {
        lemma_settled_in_place(scan, (n - 1) as nat);
        lemma_backed(scan, n - 1);
    }
}

/// A settlement stays in its place as more instructions are read.
proof fn lemma_settled_stays(scan: Scan, i: int, n: nat)
    requires
        0 <= i < n <= scan.tx.instrs.len(),
        scan.backed(i),
    ensures
        settled_before(scan, i as nat) < scan.settlements(n).len(),
        scan.settlements(n)[settled_before(scan, i as nat) as int] == scan.claim(i)->0,
    decreases n,
{
    lemma_settled_in_place(scan, i as nat);
    if i < n - 1 {
        lemma_settled_stays(scan, i, (n - 1) as nat);
    }
}

/// As often settled as said and moved: of every gross from every donor, exactly as
/// many are settled as there are both events that say it and transfers that moved
/// it; of one below the floor, none.
pub proof fn settled_as_often_as_said_and_moved(scan: Scan, donor: Seq<u8>, gross: u128)
    ensures
        times_settled(scan.recognized().settlements, donor, gross) == if gross
            < scan.cfg.min_gross {
            0
        } else if said(scan, scan.tx.instrs, donor, gross) <= times_moved(
            scan,
            scan.tx.instrs,
            donor,
            gross,
        ) {
            said(scan, scan.tx.instrs, donor, gross)
        } else {
            times_moved(scan, scan.tx.instrs, donor, gross)
        },
{
    let n = scan.tx.instrs.len();
    assert(scan.tx.instrs.take(n as int) =~= scan.tx.instrs);
    lemma_claims(scan, n, donor, gross);
    lemma_moved(scan.tx.instrs, scan.cfg.usdc, donor, gross);
    crate::recognition_laws::settled_as_often_as_claimed_and_moved(scan, donor, gross);
    counting_is_filtering(
        scan.recognized().settlements,
        |s: SettledSpec| s.donor == donor && s.gross == gross,
    );
}

/// No event is lost: every event at or above the floor is settled or counted as an
/// anomaly.
pub proof fn every_event_is_settled_or_an_anomaly(scan: Scan)
    ensures
        scan.recognized().settlements.len() <= events_before(scan, scan.tx.instrs.len()),
        scan.recognized().anomalies == capped(
            (events_before(scan, scan.tx.instrs.len()) - scan.recognized().settlements.len())
                as nat,
        ),
{
    let n = scan.tx.instrs.len();
    lemma_events(scan, n);
    every_claim_is_settled_or_an_anomaly(scan, n);
}

/// The claims that count are the events at or above the floor.
proof fn lemma_events(scan: Scan, n: nat)
    requires
        n <= scan.tx.instrs.len(),
    ensures
        claims_counted(scan, n) == events_before(scan, n),
    decreases n,
{
    if n > 0 {
        lemma_events(scan, (n - 1) as nat);
        lemma_claim(scan, n - 1);
        if scan.counts(n - 1) {
            let s = scan.claim(n - 1)->0;
            assert(says(
                scan.tx.instrs[n - 1],
                scan.cfg.splitter,
                scan.settled_disc,
                s.donor,
                s.gross,
            ));
        }
    }
}

// ----- births -----

/// Whether an instruction bears `escrow` of `donor`: a `create_escrow` of any of the
/// factories, its accounts `[donor, escrow]`, its salt behind the discriminator, and
/// the escrow the address that this very factory derives from the salt.
pub open spec fn bears(
    i: InstrSpec,
    cfg: ChainConfigSpec,
    settled_disc: Seq<u8>,
    create_disc: Seq<u8>,
    escrow: Seq<u8>,
    donor: Seq<u8>,
) -> bool {
    &&& exists|f: int| 0 <= f < cfg.factories.len() && #[trigger] cfg.factories[f] == i.program
    &&& i.data.len() >= 40
    &&& i.data.subrange(0, 8) == create_disc
    &&& i.accounts.len() >= 2
    &&& i.accounts[0] == donor
    &&& i.accounts[1] == escrow
    &&& program_address(i.program, "escrow".spec_bytes(), i.data.subrange(8, 40)) == Some(escrow)
    &&& !is_event(i, cfg.splitter, settled_disc)
}

/// An instruction is a birth where it bears.
proof fn lemma_birth(tx: TxSpec, cfg: ChainConfigSpec, n: int, escrow: Seq<u8>, donor: Seq<u8>)
    requires
        0 <= n < tx.instrs.len(),
    ensures
        ({
            let scan = scan_of(tx, cfg);
            bears(tx.instrs[n], cfg, scan.settled_disc, scan.create_disc, escrow, donor)
                <==> scan.birth(n) == Some((escrow, BirthSpec { donor, slot: tx.slot }))
        }),
{
    let scan = scan_of(tx, cfg);
    let i = tx.instrs[n];
    lemma_claim(scan, n);
    assert(scan.pdas[n] == crate::recognize::derived_escrow(i, scan.create_disc, cfg.factories));
    assert(cfg.factories.contains(i.program) <==> exists|f: int|
        0 <= f < cfg.factories.len() && #[trigger] cfg.factories[f] == i.program);
    assert(escrow_salt_of(i, scan.create_disc, cfg.factories) is Some
        ==> escrow_salt_of(i, scan.create_disc, cfg.factories)->0 == i.data.subrange(8, 40));
}

/// Every escrow that is born is recorded, with its donor and the slot of the
/// transaction, whichever of the factories bears it.
pub proof fn every_birth_is_recorded(
    tx: TxSpec,
    cfg: ChainConfigSpec,
    n: int,
    escrow: Seq<u8>,
    donor: Seq<u8>,
)
    requires
        0 <= n < tx.instrs.len(),
        ({
            let scan = scan_of(tx, cfg);
            bears(tx.instrs[n], cfg, scan.settled_disc, scan.create_disc, escrow, donor)
        }),
    ensures
        scan_of(tx, cfg).recognized().births.contains(
            (escrow, BirthSpec { donor, slot: tx.slot }),
        ),
{
    lemma_birth(tx, cfg, n, escrow, donor);
    lemma_born_stays(scan_of(tx, cfg), n, tx.instrs.len());
}

/// A birth stays recorded as more instructions are read.
proof fn lemma_born_stays(scan: Scan, i: int, n: nat)
    requires
        0 <= i < n <= scan.tx.instrs.len(),
        scan.birth(i) is Some,
    ensures
        scan.births(n).contains(scan.birth(i)->0),
    decreases n,
{
    if i == n - 1 {
        let all = scan.births(n);
        assert(all[all.len() - 1] == scan.birth(i)->0);
    } else {
        let before = scan.births((n - 1) as nat);
        lemma_born_stays(scan, i, (n - 1) as nat);
        let k = choose|k: int| 0 <= k < before.len() && before[k] == scan.birth(i)->0;
        assert(scan.births(n)[k] == scan.birth(i)->0);
    }
}

/// The births at the first instructions do not depend on what follows.
proof fn lemma_births_of_front(a: TxSpec, b: TxSpec, cfg: ChainConfigSpec, n: nat)
    requires
        n <= a.instrs.len(),
        n <= b.instrs.len(),
        a.slot == b.slot,
        forall|i: int| 0 <= i < n ==> a.instrs[i] == b.instrs[i],
    ensures
        scan_of(a, cfg).births(n) == scan_of(b, cfg).births(n),
    decreases n,
{
    if n > 0 {
        lemma_births_of_front(a, b, cfg, (n - 1) as nat);
        assert(a.instrs[n - 1] == b.instrs[n - 1]);
        assert(scan_of(a, cfg).birth(n - 1) == scan_of(b, cfg).birth(n - 1));
    }
}

/// Births are recorded one by one, each once and in its place: a transaction with one
/// instruction more has one birth more, at the end, where that instruction bears, and
/// the same births where it does not.
pub proof fn births_are_recorded_one_by_one(tx: TxSpec, cfg: ChainConfigSpec, i: InstrSpec)
    ensures
        ({
            let longer = TxSpec { instrs: tx.instrs.push(i), slot: tx.slot };
            let scan = scan_of(tx, cfg);
            let before = scan.recognized().births;
            let after = scan_of(longer, cfg).recognized().births;
            &&& tx.instrs.len() == 0 ==> before.len() == 0
            &&& forall|escrow: Seq<u8>, donor: Seq<u8>| #[trigger]
                bears(i, cfg, scan.settled_disc, scan.create_disc, escrow, donor) ==> after
                    == before.push((escrow, BirthSpec { donor, slot: tx.slot }))
            &&& (forall|escrow: Seq<u8>, donor: Seq<u8>|
                !#[trigger] bears(i, cfg, scan.settled_disc, scan.create_disc, escrow, donor))
                ==> after == before
        }),
{
    let longer = TxSpec { instrs: tx.instrs.push(i), slot: tx.slot };
    let scan = scan_of(tx, cfg);
    let next = scan_of(longer, cfg);
    let n = tx.instrs.len();
    lemma_births_of_front(tx, longer, cfg, n);
    assert(longer.instrs[n as int] == i);
    assert forall|escrow: Seq<u8>, donor: Seq<u8>| #[trigger]
        bears(i, cfg, scan.settled_disc, scan.create_disc, escrow, donor) implies next.birth(
        n as int,
    ) == Some((escrow, BirthSpec { donor, slot: tx.slot })) by {
        lemma_birth(longer, cfg, n as int, escrow, donor);
    }
    if let Some(b) = next.birth(n as int) {
        lemma_birth(longer, cfg, n as int, b.0, b.1.donor);
        assert(b == (b.0, BirthSpec { donor: b.1.donor, slot: tx.slot }));
        assert(bears(i, cfg, scan.settled_disc, scan.create_disc, b.0, b.1.donor));
    }
}

} // verus!
