//! Recognition: a finalized transaction → recognized settlements and escrow
//! births.
//!
//! Two recognition roots and nothing else counts:
//! - **Settlement** — a `Settled` event-CPI from the *pinned* splitter, backed by
//!   an executed `TransferChecked` of its own in the same transaction.
//! - **Birth** — a `create_escrow` of a *pinned* factory, whose escrow account is
//!   the address the factory derives from its salt.

use crate::bytes::{arr32, field_u64, same, u64le, Address};
use crate::certified::{births_listed, capped, Birth, BirthSpec};
use crate::count::{count, lemma_count_positive, lemma_count_update};
use crate::derive::{
    address_bytes, derived_addresses_are_off_the_curve, off_curve, program_address,
    solana_pda_address,
};
use crate::digest::{sha256, sha256_of};
use crate::reduce::{ChainId, Settled, SettledSpec};
use vstd::prelude::*;
use vstd::slice::slice_subrange;
use vstd::string::*;

verus! {

/// Anchor's `emit_cpi!` self-CPI tag: the first 8 bytes of an event-CPI
/// instruction, before the event discriminator.
pub const EVENT_IX_TAG_LE: [u8; 8] = [0xe4, 0x45, 0xa5, 0x2e, 0x51, 0xcb, 0x9a, 0x1d];

/// SPL Token `TransferChecked` instruction tag (data byte 0).
pub const TRANSFER_CHECKED_TAG: u8 = 12;

/// SPL Token program id (`Tokenkeg…`).
pub const TOKEN_PROGRAM_ID: Address = [
    6, 221, 246, 225, 215, 101, 161, 147, 217, 203, 225, 70, 206, 235, 121, 172, 28, 180, 133, 237,
    95, 91, 55, 145, 58, 140, 245, 133, 126, 255, 0, 169,
];

/// A flattened instruction from a parsed transaction — top-level or inner (CPI),
/// with resolved account pubkeys and decoded instruction data.
#[derive(Clone, Debug)]
pub struct Instr {
    pub program: Address,
    pub accounts: Vec<Address>,
    pub data: Vec<u8>,
}

/// The recognition-relevant view of one finalized transaction.
#[derive(Clone, Debug)]
pub struct Tx {
    /// Instructions in execution order (top-level and inner, flattened).
    pub instrs: Vec<Instr>,
    /// Slot of the transaction, stamped into births.
    pub slot: u64,
}

/// Per-chain recognition roots: the pinned splitter, the USDC mint, the pinned
/// factories whose `create_escrow` yields a birth, and the reputation dust floor.
#[derive(Clone, Debug)]
pub struct ChainConfig {
    pub chain: ChainId,
    pub splitter: Address,
    pub usdc: Address,
    pub factories: Vec<Address>,
    /// A settlement below this `gross` is not reputation.
    pub min_gross: u128,
}

/// What one transaction contributes: settlements to fold, births to record, and
/// a count of cross-check anomalies (event without a matching real transfer).
#[derive(Clone, Debug)]
pub struct Recognized {
    pub settlements: Vec<Settled>,
    pub births: Vec<(Address, Birth)>,
    pub anomalies: u64,
}

impl Default for Recognized {
    fn default() -> (r: Self)
        ensures
            r@ == (RecognizedSpec {
                settlements: Seq::empty(),
                births: Seq::empty(),
                anomalies: 0,
            }),
    {
        let r = Recognized { settlements: Vec::new(), births: Vec::new(), anomalies: 0 };
        assert(r@ =~= (RecognizedSpec {
            settlements: Seq::empty(),
            births: Seq::empty(),
            anomalies: 0,
        }));
        r
    }
}

/// What an instruction says.
#[verifier::ext_equal]
pub struct InstrSpec {
    pub program: Seq<u8>,
    pub accounts: Seq<Seq<u8>>,
    pub data: Seq<u8>,
}

/// What a transaction says.
#[verifier::ext_equal]
pub struct TxSpec {
    pub instrs: Seq<InstrSpec>,
    pub slot: u64,
}

/// The recognition roots.
#[verifier::ext_equal]
pub struct ChainConfigSpec {
    pub chain: Seq<u8>,
    pub splitter: Seq<u8>,
    pub usdc: Seq<u8>,
    pub factories: Seq<Seq<u8>>,
    pub min_gross: u128,
}

/// What is recognized.
#[verifier::ext_equal]
pub struct RecognizedSpec {
    pub settlements: Seq<SettledSpec>,
    pub births: Seq<(Seq<u8>, BirthSpec)>,
    pub anomalies: u64,
}

/// An executed token transfer.
pub struct TransferSpec {
    pub mint: Seq<u8>,
    pub amount: u64,
    pub authority: Seq<u8>,
}

/// A list of addresses as byte strings.
pub open spec fn addresses(v: Seq<Address>) -> Seq<Seq<u8>> {
    Seq::new(v.len(), |i: int| v[i]@)
}

impl View for Instr {
    type V = InstrSpec;

    open spec fn view(&self) -> InstrSpec {
        InstrSpec { program: self.program@, accounts: addresses(self.accounts@), data: self.data@ }
    }
}

/// A list of instructions as what they say.
pub open spec fn instructions(v: Seq<Instr>) -> Seq<InstrSpec> {
    Seq::new(v.len(), |i: int| v[i]@)
}

impl View for Tx {
    type V = TxSpec;

    open spec fn view(&self) -> TxSpec {
        TxSpec { instrs: instructions(self.instrs@), slot: self.slot }
    }
}

impl View for ChainConfig {
    type V = ChainConfigSpec;

    open spec fn view(&self) -> ChainConfigSpec {
        ChainConfigSpec {
            chain: self.chain.0@,
            splitter: self.splitter@,
            usdc: self.usdc@,
            factories: addresses(self.factories@),
            min_gross: self.min_gross,
        }
    }
}

/// A list of settlements as what they say.
pub open spec fn settlements_listed(v: Seq<Settled>) -> Seq<SettledSpec> {
    Seq::new(v.len(), |i: int| v[i]@)
}

impl View for Recognized {
    type V = RecognizedSpec;

    open spec fn view(&self) -> RecognizedSpec {
        RecognizedSpec {
            settlements: settlements_listed(self.settlements@),
            births: births_listed(self.births@),
            anomalies: self.anomalies,
        }
    }
}

/// The discriminator of an event or instruction: the first 8 bytes of
/// `sha256("<namespace>:<name>")`.
pub open spec fn discriminator(namespace: &str, name: &str) -> Seq<u8> {
    sha256_of(namespace.spec_bytes() + ":".spec_bytes() + name.spec_bytes()).subrange(0, 8)
}

/// The transfer an instruction executes: a `TransferChecked` of the token
/// program, over accounts `[source, mint, destination, authority]`.
pub open spec fn transfer_of(i: InstrSpec) -> Option<TransferSpec> {
    if i.program == TOKEN_PROGRAM_ID@ && i.data.len() >= 9 && i.data[0] == TRANSFER_CHECKED_TAG
        && i.accounts.len() >= 4 {
        Some(
            TransferSpec {
                mint: i.accounts[1],
                amount: field_u64(i.data, 1)->0,
                authority: i.accounts[3],
            },
        )
    } else {
        None
    }
}

/// The claim of a `Settled` event-CPI: `tag ‖ disc ‖ donor ‖ recipient ‖ gross`.
pub open spec fn settled_claim(d: Seq<u8>, disc: Seq<u8>, chain: Seq<u8>) -> Option<SettledSpec> {
    if d.len() >= 88 && d.subrange(0, 8) == EVENT_IX_TAG_LE@ && d.subrange(8, 16) == disc {
        Some(
            SettledSpec {
                chain,
                donor: d.subrange(16, 48),
                recipient: d.subrange(48, 80),
                gross: field_u64(d, 80)->0 as u128,
            },
        )
    } else {
        None
    }
}

/// The salt of a `create_escrow`: its first argument.
pub open spec fn escrow_salt_of(i: InstrSpec, disc: Seq<u8>, factories: Seq<Seq<u8>>) -> Option<
    Seq<u8>,
> {
    if factories.contains(i.program) && i.data.len() >= 40 && i.data.subrange(0, 8) == disc
        && i.accounts.len() >= 2 {
        Some(i.data.subrange(8, 40))
    } else {
        None
    }
}

/// The transfers that the instructions execute, in their order.
pub open spec fn transfers_in(instrs: Seq<InstrSpec>) -> Seq<TransferSpec>
    decreases instrs.len(),
{
    if instrs.len() == 0 {
        Seq::empty()
    } else {
        let before = transfers_in(instrs.drop_last());
        match transfer_of(instrs.last()) {
            Some(t) => before.push(t),
            None => before,
        }
    }
}

/// Whether a transfer backs a claim: `gross` of the mint, by authority of the
/// donor.
pub open spec fn backs(t: TransferSpec, usdc: Seq<u8>, donor: Seq<u8>, gross: u128) -> bool {
    t.mint == usdc && t.amount == gross && t.authority == donor
}

/// A transaction read against the recognition roots: with the discriminators that
/// events and births are told by, and for each instruction the escrow address
/// derived for it.
pub struct Scan {
    pub tx: TxSpec,
    pub cfg: ChainConfigSpec,
    pub settled_disc: Seq<u8>,
    pub create_disc: Seq<u8>,
    pub pdas: Seq<Option<Seq<u8>>>,
}

impl Scan {
    /// The settlement that instruction `i` claims: a `Settled` of the pinned
    /// splitter.
    pub open spec fn claim(self, i: int) -> Option<SettledSpec> {
        if self.tx.instrs[i].program == self.cfg.splitter {
            settled_claim(self.tx.instrs[i].data, self.settled_disc, self.cfg.chain)
        } else {
            None
        }
    }

    /// Whether instruction `i` makes a claim that is not dust.
    pub open spec fn counts(self, i: int) -> bool {
        self.claim(i) matches Some(s) && s.gross >= self.cfg.min_gross
    }

    /// How many of the first `n` instructions claim `gross` of `donor`.
    pub open spec fn claims(self, n: nat, donor: Seq<u8>, gross: u128) -> nat
        decreases n,
    {
        if n == 0 {
            0
        } else {
            let i = (n - 1) as int;
            self.claims((n - 1) as nat, donor, gross) + if self.counts(i) && self.claim(i)->0.donor
                == donor && self.claim(i)->0.gross == gross {
                1nat
            } else {
                0nat
            }
        }
    }

    /// How many transfers of the transaction moved `gross` of `donor`.
    pub open spec fn moved(self, donor: Seq<u8>, gross: u128) -> nat {
        count(
            transfers_in(self.tx.instrs),
            |t: TransferSpec| backs(t, self.cfg.usdc, donor, gross),
        )
    }

    /// Whether the claim of instruction `i` is backed by a transfer of its own:
    /// fewer instructions before it claim the same than transfers moved it.
    pub open spec fn backed(self, i: int) -> bool {
        self.counts(i) && self.claims(i as nat, self.claim(i)->0.donor, self.claim(i)->0.gross)
            < self.moved(self.claim(i)->0.donor, self.claim(i)->0.gross)
    }

    /// The settlements of the first `n` instructions: the backed claims.
    pub open spec fn settlements(self, n: nat) -> Seq<SettledSpec>
        decreases n,
    {
        if n == 0 {
            Seq::empty()
        } else if self.backed((n - 1) as int) {
            self.settlements((n - 1) as nat).push(self.claim((n - 1) as int)->0)
        } else {
            self.settlements((n - 1) as nat)
        }
    }

    /// How many of the first `n` instructions make a claim that nothing backs.
    pub open spec fn unbacked(self, n: nat) -> nat
        decreases n,
    {
        if n == 0 {
            0
        } else {
            self.unbacked((n - 1) as nat) + if self.counts((n - 1) as int) && !self.backed(
                (n - 1) as int,
            ) {
                1nat
            } else {
                0nat
            }
        }
    }

    /// The birth at instruction `i`: a `create_escrow` of a pinned factory whose
    /// escrow account is the derived one.
    pub open spec fn birth(self, i: int) -> Option<(Seq<u8>, BirthSpec)> {
        let instr = self.tx.instrs[i];
        if self.claim(i) is None && escrow_salt_of(instr, self.create_disc, self.cfg.factories)
            is Some && self.pdas[i] == Some(instr.accounts[1]) {
            Some(
                (instr.accounts[1], BirthSpec { donor: instr.accounts[0], slot: self.tx.slot }),
            )
        } else {
            None
        }
    }

    /// The births at the first `n` instructions.
    pub open spec fn births(self, n: nat) -> Seq<(Seq<u8>, BirthSpec)>
        decreases n,
    {
        if n == 0 {
            Seq::empty()
        } else {
            match self.birth((n - 1) as int) {
                Some(b) => self.births((n - 1) as nat).push(b),
                None => self.births((n - 1) as nat),
            }
        }
    }

    /// How many transfers that back a claim are left once the first `n`
    /// instructions have taken theirs.
    pub open spec fn left_over(self, n: nat, donor: Seq<u8>, gross: u128) -> nat {
        let moved = self.moved(donor, gross);
        let claimed = self.claims(n, donor, gross);
        if claimed < moved {
            (moved - claimed) as nat
        } else {
            0
        }
    }

    /// What the transaction contributes.
    pub open spec fn recognized(self) -> RecognizedSpec {
        let n = self.tx.instrs.len();
        RecognizedSpec {
            settlements: self.settlements(n),
            births: self.births(n),
            anomalies: capped(self.unbacked(n)),
        }
    }
}

impl Scan {
    /// Taking the transfer of a backed claim leaves one fewer for that claim and
    /// as many for every other.
    proof fn lemma_taken(self, n: nat, before: Seq<Option<Transfer>>, i: int)
        requires
            self.counts(n as int),
            0 <= i < before.len(),
            before[i] is Some,
            backs(
                before[i]->0@,
                self.cfg.usdc,
                self.claim(n as int)->0.donor,
                self.claim(n as int)->0.gross,
            ),
            forall|donor: Seq<u8>, gross: u128| #[trigger]
                unused(before, self.cfg.usdc, donor, gross) == self.left_over(n, donor, gross),
        ensures
            forall|donor: Seq<u8>, gross: u128| #[trigger]
                unused(before.update(i, None), self.cfg.usdc, donor, gross) == self.left_over(
                    n + 1,
                    donor,
                    gross,
                ),
    {
        assert forall|donor: Seq<u8>, gross: u128| #[trigger]
            unused(before.update(i, None), self.cfg.usdc, donor, gross) == self.left_over(
                n + 1,
                donor,
                gross,
            ) by {
            let p = |o: Option<Transfer>|
                o matches Some(t) && backs(t@, self.cfg.usdc, donor, gross);
            lemma_count_update(before, i, None, p);
            lemma_count_positive(before, p);
            assert(unused(before, self.cfg.usdc, donor, gross) == self.left_over(n, donor, gross));
            assert(p(before[i]) == (donor == self.claim(n as int)->0.donor && gross == self.claim(
                n as int,
            )->0.gross));
        }
    }

    /// Every birth is of a derived address.
    proof fn lemma_births_derived(self, n: nat)
        requires
            n <= self.tx.instrs.len(),
            forall|i: int|
                0 <= i < self.tx.instrs.len() && self.pdas[i] is Some ==> off_curve(
                    #[trigger] self.pdas[i]->0,
                ),
        ensures
            forall|i: int| 0 <= i < self.births(n).len() ==> off_curve(
                (#[trigger] self.births(n)[i]).0,
            ),
        decreases n,
    {
        if n > 0 {
            self.lemma_births_derived((n - 1) as nat);
            let before = self.births((n - 1) as nat);
            let k = n - 1;
            assert forall|i: int| 0 <= i < self.births(n).len() implies off_curve(
                (#[trigger] self.births(n)[i]).0,
            ) by {
                if i < before.len() {
                    assert(self.births(n)[i] == before[i]);
                } else {
                    assert(self.births(n)[i] == self.birth(k)->0);
                    assert(off_curve(self.pdas[k]->0));
                }
            }
        }
    }
}

/// The reading of a transaction with the real discriminators and the addresses
/// that the programs derive.
pub open spec fn scan_of(tx: TxSpec, cfg: ChainConfigSpec) -> Scan {
    let create_disc = discriminator("global", "create_escrow");
    Scan {
        tx,
        cfg,
        settled_disc: discriminator("event", "Settled"),
        create_disc,
        pdas: Seq::new(
            tx.instrs.len(),
            |i: int| derived_escrow(tx.instrs[i], create_disc, cfg.factories),
        ),
    }
}

/// The escrow address that the factory of a `create_escrow` derives from its salt.
pub open spec fn derived_escrow(
    i: InstrSpec,
    disc: Seq<u8>,
    factories: Seq<Seq<u8>>,
) -> Option<Seq<u8>> {
    match escrow_salt_of(i, disc, factories) {
        Some(salt) => program_address(i.program, "escrow".spec_bytes(), salt),
        None => None,
    }
}

/// A derived escrow is off the curve.
proof fn lemma_derived_escrow(i: InstrSpec, disc: Seq<u8>, factories: Seq<Seq<u8>>)
    ensures
        derived_escrow(i, disc, factories) matches Some(a) ==> off_curve(a),
{
    if let Some(salt) = escrow_salt_of(i, disc, factories) {
        derived_addresses_are_off_the_curve(i.program, "escrow".spec_bytes(), salt);
    }
}

/// Every escrow born in a transaction is off the curve: no private key can exist
/// for it.
pub proof fn born_escrows_are_keyless(tx: TxSpec, cfg: ChainConfigSpec)
    ensures
        ({
            let births = scan_of(tx, cfg).recognized().births;
            forall|i: int| 0 <= i < births.len() ==> off_curve((#[trigger] births[i]).0)
        }),
{
    let scan = scan_of(tx, cfg);
    assert forall|i: int| 0 <= i < scan.tx.instrs.len() && scan.pdas[i] is Some implies off_curve(
        #[trigger] scan.pdas[i]->0,
    ) by {
        lemma_derived_escrow(tx.instrs[i], scan.create_disc, cfg.factories);
    }
    scan.lemma_births_derived(scan.tx.instrs.len());
}

/// A cross-check candidate: one executed `TransferChecked`.
pub struct Transfer {
    pub mint: Address,
    pub amount: u64,
    pub authority: Address,
}

impl View for Transfer {
    type V = TransferSpec;

    open spec fn view(&self) -> TransferSpec {
        TransferSpec { mint: self.mint@, amount: self.amount, authority: self.authority@ }
    }
}

/// A list of transfers as what they say.
pub open spec fn transfers_listed(v: Seq<Transfer>) -> Seq<TransferSpec> {
    Seq::new(v.len(), |i: int| v[i]@)
}

/// How many transfers that are not yet used back a claim.
pub open spec fn unused(
    v: Seq<Option<Transfer>>,
    usdc: Seq<u8>,
    donor: Seq<u8>,
    gross: u128,
) -> nat {
    count(v, |o: Option<Transfer>| o matches Some(t) && backs(t@, usdc, donor, gross))
}

/// Anchor discriminator: first 8 bytes of `sha256("<namespace>:<name>")`
/// (`global` for instructions, `event` for events).
pub fn anchor_disc(namespace: &str, name: &str) -> (r: [u8; 8])
    ensures
        r@ == discriminator(namespace, name),
{
    let mut text: Vec<u8> = Vec::new();
    text.extend_from_slice(namespace.as_bytes());
    text.extend_from_slice(":".as_bytes());
    text.extend_from_slice(name.as_bytes());
    assert(text@ =~= namespace.spec_bytes() + ":".spec_bytes() + name.spec_bytes());
    let full = sha256(text.as_slice());
    let mut d: [u8; 8] = [0u8; 8];
    let mut i: usize = 0;
    while i < 8
        invariant
            i <= 8,
            forall|k: int| 0 <= k < i ==> d@[k] == full@[k],
        decreases 8 - i,
    {
        d[i] = full[i];
        i += 1;
    }
    assert(d@ =~= full@.subrange(0, 8));
    d
}

/// Whether the bytes of `d` from `off` on start with `part`.
fn has_at(d: &[u8], off: usize, part: &[u8]) -> (r: bool)
    ensures
        r == (off + part@.len() <= d@.len() && d@.subrange(off as int, off + part@.len())
            == part@),
{
    if d.len() < part.len() || off > d.len() - part.len() {
        return false;
    }
    same(slice_subrange(d, off, off + part.len()), part)
}

/// Whether `a` is in the list.
fn listed(list: &Vec<Address>, a: &Address) -> (r: bool)
    ensures
        r == addresses(list@).contains(a@),
{
    let mut i: usize = 0;
    while i < list.len()
        invariant
            i <= list@.len(),
            forall|k: int| 0 <= k < i ==> #[trigger] addresses(list@)[k] != a@,
        decreases list@.len() - i,
    {
        if same(&list[i], a) {
            assert(addresses(list@)[i as int] == a@);
            return true;
        }
        i += 1;
    }
    false
}

/// Consume the first not-yet-used transfer that cross-checks a settlement's
/// claim — same `mint` (= usdc), `amount` (= gross), and `authority` (= donor).
/// A consumed slot is emptied so no transfer backs two events; returns whether a
/// match was found.
pub fn take_matching(transfers: &mut Vec<Option<Transfer>>, usdc: &Address, s: &Settled) -> (r: bool)
    ensures
        r == (unused(old(transfers)@, usdc@, s.donor@, s.gross) > 0),
        !r ==> final(transfers)@ == old(transfers)@,
        r ==> exists|i: int|
            {
                &&& 0 <= i < old(transfers)@.len()
                &&& (#[trigger] old(transfers)@[i]) matches Some(t) && backs(
                    t@,
                    usdc@,
                    s.donor@,
                    s.gross,
                )
                &&& forall|j: int|
                    0 <= j < i ==> !((#[trigger] old(transfers)@[j]) matches Some(t) && backs(
                        t@,
                        usdc@,
                        s.donor@,
                        s.gross,
                    ))
                &&& final(transfers)@ == old(transfers)@.update(i, None)
            },
{
    let ghost p = |o: Option<Transfer>| o matches Some(t) && backs(t@, usdc@, s.donor@, s.gross);
    proof {
        lemma_count_positive(transfers@, p);
    }
    let mut i: usize = 0;
    while i < transfers.len()
        invariant
            i <= transfers@.len(),
            transfers@ == old(transfers)@,
            p == (|o: Option<Transfer>| o matches Some(t) && backs(t@, usdc@, s.donor@, s.gross)),
            count(transfers@, p) > 0 <==> exists|k: int|
                0 <= k < transfers@.len() && p(#[trigger] transfers@[k]),
            forall|k: int| 0 <= k < i ==> !p(#[trigger] transfers@[k]),
        decreases transfers@.len() - i,
    {
        let hit = match &transfers[i] {
            Some(t) => same(&t.mint, usdc) && t.amount as u128 == s.gross && same(
                &t.authority,
                &s.donor,
            ),
            None => false,
        };
        assert(hit == p(transfers@[i as int]));
        if hit {
            transfers[i] = None;
            assert(old(transfers)@[i as int] is Some);
            return true;
        }
        i += 1;
    }
    false
}

/// All `TransferChecked` instructions to the SPL token program, decoded for the
/// cross-check (accounts `[source, mint, destination, authority]`).
pub fn collect_transfers(tx: &Tx) -> (r: Vec<Transfer>)
    ensures
        transfers_listed(r@) == transfers_in(tx@.instrs),
{
    let mut out: Vec<Transfer> = Vec::new();
    let mut n: usize = 0;
    assert(transfers_listed(out@) =~= transfers_in(tx@.instrs.take(0)));
    while n < tx.instrs.len()
        invariant
            n <= tx.instrs@.len(),
            transfers_listed(out@) == transfers_in(tx@.instrs.take(n as int)),
        decreases tx.instrs@.len() - n,
    {
        let i = &tx.instrs[n];
        assert(tx@.instrs.take(n + 1).drop_last() =~= tx@.instrs.take(n as int));
        assert(tx@.instrs.take(n + 1).last() == i@);
        if same(&i.program, &TOKEN_PROGRAM_ID) && i.data.len() > 0 && i.data[0]
            == TRANSFER_CHECKED_TAG && i.accounts.len() >= 4 {
            if let Some(amount) = u64le(i.data.as_slice(), 1) {
                let t = Transfer { mint: i.accounts[1], amount, authority: i.accounts[3] };
                let ghost before = out@;
                out.push(t);
                assert(transfers_listed(out@) =~= transfers_listed(before).push(t@));
            }
        }
        n += 1;
    }
    assert(tx@.instrs.take(n as int) =~= tx@.instrs);
    out
}

/// Decode a `Settled` event-CPI (tag ‖ disc ‖ borsh `donor,recipient,gross`).
pub fn decode_settled(d: &[u8], disc: &[u8; 8], chain: ChainId) -> (r: Option<Settled>)
    ensures
        (match r {
            Some(s) => settled_claim(d@, disc@, chain.0@) == Some(s@),
            None => settled_claim(d@, disc@, chain.0@) is None,
        }),
{
    if !has_at(d, 0, &EVENT_IX_TAG_LE) || !has_at(d, 8, disc) {
        return None;
    }
    match (arr32(d, 16), arr32(d, 48), u64le(d, 80)) {
        (Some(donor), Some(recipient), Some(gross)) => Some(
            Settled { chain, donor, recipient, gross: gross as u128 },
        ),
        _ => None,
    }
}

/// The salt of a `create_escrow` of a pinned factory, or `None` where the
/// instruction is no such thing.
pub fn escrow_salt(instr: &Instr, disc: &[u8; 8], factories: &Vec<Address>) -> (r: Option<Address>)
    ensures
        address_bytes(r) == escrow_salt_of(instr@, disc@, addresses(factories@)),
{
    if !listed(factories, &instr.program) || !has_at(instr.data.as_slice(), 0, disc)
        || instr.accounts.len() < 2 {
        return None;
    }
    arr32(instr.data.as_slice(), 8)
}

/// The escrow address that the factory of a `create_escrow` derives from its salt,
/// or `None` where the instruction is no such thing.
pub fn derive_escrow(instr: &Instr, disc: &[u8; 8], factories: &Vec<Address>) -> (r: Option<Address>)
    ensures
        address_bytes(r) == derived_escrow(instr@, disc@, addresses(factories@)),
        r matches Some(a) ==> off_curve(a@),
{
    proof {
        lemma_derived_escrow(instr@, disc@, addresses(factories@));
    }
    match escrow_salt(instr, disc, factories) {
        Some(salt) => solana_pda_address(instr.program, "escrow".as_bytes(), salt.as_slice()),
        None => None,
    }
}

/// Decode a `create_escrow` birth: `donor` = account 0, `escrow` = account 1,
/// which must be the address that the factory derives from the salt.
///
/// Only the shape-independent fields are read: the two fixed account slots and
/// the salt, the first argument of every form.
pub fn decode_birth(
    instr: &Instr,
    disc: &[u8; 8],
    factories: &Vec<Address>,
    pda: &Option<Address>,
    slot: u64,
) -> (r: Option<(Address, Birth)>)
    ensures
        ({
            let salt = escrow_salt_of(instr@, disc@, addresses(factories@));
            match r {
                Some(b) => salt is Some && address_bytes(*pda) == Some(instr@.accounts[1]) && b.0@
                    == instr@.accounts[1] && b.1@ == (BirthSpec {
                    donor: instr@.accounts[0],
                    slot,
                }),
                None => salt is None || address_bytes(*pda) != Some(instr@.accounts[1]),
            }
        }),
{
    if escrow_salt(instr, disc, factories).is_none() {
        return None;
    }
    let donor = instr.accounts[0];
    let escrow = instr.accounts[1];
    match pda {
        Some(p) => if same(p, &escrow) {
            Some((escrow, Birth { donor, slot }))
        } else {
            None
        },
        None => None,
    }
}

/// The addresses derived for the instructions of a transaction.
pub open spec fn derived(v: Seq<Option<Address>>) -> Seq<Option<Seq<u8>>> {
    Seq::new(v.len(), |i: int| address_bytes(v[i]))
}

/// Wraps every transfer as not yet used.
fn all_unused(transfers: Vec<Transfer>, Ghost(usdc): Ghost<Seq<u8>>) -> (r: Vec<Option<Transfer>>)
    ensures
        forall|donor: Seq<u8>, gross: u128| #[trigger]
            unused(r@, usdc, donor, gross) == count(
                transfers_listed(transfers@),
                |t: TransferSpec| backs(t, usdc, donor, gross),
            ),
{
    let ghost all = transfers@;
    let mut out: Vec<Option<Transfer>> = Vec::new();
    let mut n: usize = 0;
    while n < transfers.len()
        invariant
            n <= all.len(),
            transfers@ == all,
            out@.len() == n,
            forall|i: int| 0 <= i < n ==> #[trigger] out@[i] == Some(all[i]),
        decreases all.len() - n,
    {
        let t = &transfers[n];
        let copy = Transfer { mint: t.mint, amount: t.amount, authority: t.authority };
        assert(copy == all[n as int]);
        out.push(Some(copy));
        n += 1;
    }
    proof {
        assert forall|donor: Seq<u8>, gross: u128| #[trigger]
            unused(out@, usdc, donor, gross) == count(
                transfers_listed(all),
                |t: TransferSpec| backs(t, usdc, donor, gross),
            ) by {
            lemma_all_unused(out@, all, usdc, donor, gross);
        }
    }
    out
}

/// Before any is used, the transfers that back a claim are those that moved it.
proof fn lemma_all_unused(
    v: Seq<Option<Transfer>>,
    all: Seq<Transfer>,
    usdc: Seq<u8>,
    donor: Seq<u8>,
    gross: u128,
)
    requires
        v.len() == all.len(),
        forall|i: int| 0 <= i < v.len() ==> #[trigger] v[i] == Some(all[i]),
    ensures
        unused(v, usdc, donor, gross) == count(
            transfers_listed(all),
            |t: TransferSpec| backs(t, usdc, donor, gross),
        ),
    decreases v.len(),
{
    if v.len() > 0 {
        lemma_all_unused(v.drop_last(), all.drop_last(), usdc, donor, gross);
        assert(transfers_listed(all).drop_last() =~= transfers_listed(all.drop_last()));
        assert(v[v.len() - 1] == Some(all[v.len() - 1]));
    }
}

/// Recognize all settlements and births in one finalized transaction, given the
/// discriminators and the escrow address derived for each instruction.
///
/// Each pinned-splitter `Settled` is paired with a distinct unconsumed
/// `TransferChecked` matching its `(mint = usdc, amount = gross, authority =
/// donor)`; unpaired events count as anomalies, never as reputation.
pub fn recognize_with(
    tx: &Tx,
    cfg: &ChainConfig,
    settled_disc: &[u8; 8],
    create_disc: &[u8; 8],
    pdas: &Vec<Option<Address>>,
) -> (r: Recognized)
    requires
        pdas@.len() == tx.instrs@.len(),
    ensures
        r@ == (Scan {
            tx: tx@,
            cfg: cfg@,
            settled_disc: settled_disc@,
            create_disc: create_disc@,
            pdas: derived(pdas@),
        }).recognized(),
{
    let ghost scan = Scan {
        tx: tx@,
        cfg: cfg@,
        settled_disc: settled_disc@,
        create_disc: create_disc@,
        pdas: derived(pdas@),
    };
    let mut transfers = all_unused(collect_transfers(tx), Ghost(cfg.usdc@));
    let mut settlements: Vec<Settled> = Vec::new();
    let mut births: Vec<(Address, Birth)> = Vec::new();
    let mut anomalies: u64 = 0;
    assert forall|donor: Seq<u8>, gross: u128| #[trigger]
        unused(transfers@, cfg.usdc@, donor, gross) == scan.left_over(0, donor, gross) by {}
    assert(settlements_listed(settlements@) =~= scan.settlements(0));
    assert(births_listed(births@) =~= scan.births(0));
    let mut n: usize = 0;
    while n < tx.instrs.len()
        invariant
            n <= tx.instrs@.len(),
            pdas@.len() == tx.instrs@.len(),
            scan == (Scan {
                tx: tx@,
                cfg: cfg@,
                settled_disc: settled_disc@,
                create_disc: create_disc@,
                pdas: derived(pdas@),
            }),
            settlements_listed(settlements@) == scan.settlements(n as nat),
            births_listed(births@) == scan.births(n as nat),
            anomalies == capped(scan.unbacked(n as nat)),
            forall|donor: Seq<u8>, gross: u128| #[trigger]
                unused(transfers@, cfg.usdc@, donor, gross) == scan.left_over(
                    n as nat,
                    donor,
                    gross,
                ),
        decreases tx.instrs@.len() - n,
    {
        let instr = &tx.instrs[n];
        assert(instr@ == scan.tx.instrs[n as int]);
        let ghost before = transfers@;
        let claim = if same(&instr.program, &cfg.splitter) {
            decode_settled(instr.data.as_slice(), settled_disc, cfg.chain)
        } else {
            None
        };
        match claim {
            Some(s) => {
                assert(scan.claim(n as int) == Some(s@));
                assert(scan.birth(n as int) is None);
                if s.gross >= cfg.min_gross {
                    let ghost listed = settlements@;
                    if take_matching(&mut transfers, &cfg.usdc, &s) {
                        settlements.push(s);
                        assert(settlements_listed(settlements@) =~= settlements_listed(
                            listed,
                        ).push(s@));
                        proof {
                            let i = choose|i: int|
                                0 <= i < before.len() && before[i] is Some && backs(
                                    before[i]->0@,
                                    cfg.usdc@,
                                    s.donor@,
                                    s.gross,
                                ) && transfers@ == #[trigger] before.update(i, None);
                            scan.lemma_taken(n as nat, before, i);
                        }
                    } else {
                        anomalies = anomalies.saturating_add(1);
                        assert forall|donor: Seq<u8>, gross: u128| #[trigger]
                            unused(transfers@, cfg.usdc@, donor, gross) == scan.left_over(
                                (n + 1) as nat,
                                donor,
                                gross,
                            ) by {
                            assert(unused(before, cfg.usdc@, donor, gross) == scan.left_over(
                                n as nat,
                                donor,
                                gross,
                            ));
                        }
                    }
                }
            },
            None => {
                assert(scan.claim(n as int) is None);
                let ghost listed = births@;
                let found = decode_birth(
                    instr,
                    create_disc,
                    &cfg.factories,
                    &pdas[n],
                    tx.slot,
                );
                assert(scan.pdas[n as int] == address_bytes(pdas@[n as int]));
                if let Some(b) = found {
                    births.push(b);
                    assert(births_listed(births@) =~= births_listed(listed).push((b.0@, b.1@)));
                    assert(scan.birth(n as int) == Some((b.0@, b.1@)));
                }
            },
        }
        assert forall|donor: Seq<u8>, gross: u128| #[trigger]
            unused(transfers@, cfg.usdc@, donor, gross) == scan.left_over(
                (n + 1) as nat,
                donor,
                gross,
            ) by {
            if transfers@ == before {
                assert(unused(before, cfg.usdc@, donor, gross) == scan.left_over(
                    n as nat,
                    donor,
                    gross,
                ));
            }
        }
        n += 1;
    }
    Recognized { settlements, births, anomalies }
}

/// Recognize all settlements and births in one finalized transaction.
pub fn recognize(tx: &Tx, cfg: &ChainConfig) -> (r: Recognized)
    ensures
        r@ == scan_of(tx@, cfg@).recognized(),
        forall|i: int|
            0 <= i < r@.births.len() ==> off_curve((#[trigger] r@.births[i]).0),
{
    let settled_disc = anchor_disc("event", "Settled");
    let create_disc = anchor_disc("global", "create_escrow");
    let ghost scan = scan_of(tx@, cfg@);
    let mut pdas: Vec<Option<Address>> = Vec::new();
    let mut n: usize = 0;
    while n < tx.instrs.len()
        invariant
            n <= tx.instrs@.len(),
            pdas@.len() == n,
            scan == scan_of(tx@, cfg@),
            create_disc@ == discriminator("global", "create_escrow"),
            forall|i: int| 0 <= i < n ==> address_bytes(#[trigger] pdas@[i]) == scan.pdas[i],
        decreases tx.instrs@.len() - n,
    {
        let pda = derive_escrow(&tx.instrs[n], &create_disc, &cfg.factories);
        assert(tx.instrs@[n as int]@ == tx@.instrs[n as int]);
        pdas.push(pda);
        n += 1;
    }
    assert(derived(pdas@) =~= scan.pdas);
    let r = recognize_with(tx, cfg, &settled_disc, &create_disc, &pdas);
    proof {
        born_escrows_are_keyless(tx@, cfg@);
    }
    r
}

} // verus!
