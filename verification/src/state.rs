//! The operations on the state of the index: the fold of one paid transaction,
//! exactly-once marking, and the reads with their witnesses.
//!
//! A transaction is folded whole or not at all. What refuses it leaves the state
//! exactly as it was, so that the same signature can be folded later.

use crate::bytes::same;
use crate::certified::{
    births_listed, book_listed, capped, key_of, Birth, BirthSpec, Certified, CertifiedSpec,
};
use crate::derive::{off_curve, solana_is_off_curve};
use crate::page::is_page;
use crate::recognize::{
    recognize, scan_of, ChainConfig, Recognized, RecognizedSpec, Tx,
};
use crate::reduce::{ChainId, Settled, SettledSpec};
use crate::state_laws::births_stay_keyless;
use crate::tree::{cbor, witness_of, TreeHash, Witness};
use vstd::prelude::*;

verus! {

/// What one applied transaction folded in.
#[derive(Clone, Copy, Debug)]
pub struct Applied {
    pub settlements: u64,
    pub births: u64,
    pub anomalies: u64,
}

impl Default for Applied {
    fn default() -> (r: Self)
        ensures
            r == (Applied { settlements: 0, births: 0, anomalies: 0 }),
    {
        Applied { settlements: 0, births: 0, anomalies: 0 }
    }
}

/// The outcome of folding one paid transaction.
#[derive(Clone, Copy, Debug)]
pub enum Folded {
    Applied(Applied),
    /// Already folded in — exactly-once refused this copy.
    Duplicate,
    /// The transaction settles an address with **no private key** whose birth
    /// this index has not recorded. Nothing is folded and nothing is marked:
    /// fold the birth, then submit this signature again.
    UnknownBirth,
}

/// Whether a settlement can be credited to the wallet that paid it: the payer can
/// hold a key, or its birth is recorded, or it is born in the same transaction.
pub open spec fn is_attributable(
    s: CertifiedSpec,
    births_in_tx: Seq<(Seq<u8>, BirthSpec)>,
    ev: SettledSpec,
    keyless: bool,
) -> bool {
    keyless ==> s.births.contains_key(ev.donor) || exists|i: int|
        0 <= i < births_in_tx.len() && (#[trigger] births_in_tx[i]).0 == ev.donor
}

/// The state with births recorded, one after the other.
pub open spec fn with_births(s: CertifiedSpec, births: Seq<(Seq<u8>, BirthSpec)>) -> CertifiedSpec
    decreases births.len(),
{
    if births.len() == 0 {
        s
    } else {
        with_births(s, births.drop_last()).born(births.last().0, births.last().1)
    }
}

/// The state with settlements attributed and folded in, one after the other. One
/// that the book refuses is counted as an anomaly.
pub open spec fn with_settlements(s: CertifiedSpec, settlements: Seq<SettledSpec>) -> CertifiedSpec
    decreases settlements.len(),
{
    if settlements.len() == 0 {
        s
    } else {
        let before = with_settlements(s, settlements.drop_last());
        match before.settled(before.attributed(settlements.last())) {
            Some(after) => after,
            None => before.with_anomalies(1),
        }
    }
}

/// How many of the settlements the book refuses.
pub open spec fn refused(s: CertifiedSpec, settlements: Seq<SettledSpec>) -> nat
    decreases settlements.len(),
{
    if settlements.len() == 0 {
        0
    } else {
        let before = with_settlements(s, settlements.drop_last());
        refused(s, settlements.drop_last()) + if before.settled(
            before.attributed(settlements.last()),
        ) is None {
            1nat
        } else {
            0nat
        }
    }
}

/// The state that a transaction meets its settlements in: anomalies counted,
/// births recorded.
pub open spec fn before_settlements(s: CertifiedSpec, r: RecognizedSpec) -> CertifiedSpec {
    with_births(s.with_anomalies(r.anomalies), r.births)
}

/// Whether every settlement of a transaction can be credited.
pub open spec fn all_attributable(s: CertifiedSpec, r: RecognizedSpec, keyless: Seq<bool>) -> bool {
    forall|i: int|
        0 <= i < r.settlements.len() ==> is_attributable(
            s,
            r.births,
            #[trigger] r.settlements[i],
            keyless[i],
        )
}

/// The state after folding what was recognized under a signature, and the outcome.
pub open spec fn fold_of(
    s: CertifiedSpec,
    signature: Seq<u8>,
    r: RecognizedSpec,
    keyless: Seq<bool>,
) -> (CertifiedSpec, Folded) {
    if s.applied.contains(signature) {
        (s, Folded::Duplicate)
    } else if !all_attributable(s, r, keyless) {
        (s, Folded::UnknownBirth)
    } else {
        let ready = before_settlements(s, r);
        let lost = refused(ready, r.settlements);
        (
            with_settlements(ready, r.settlements).marked(signature),
            Folded::Applied(
                Applied {
                    settlements: capped((r.settlements.len() - lost) as nat),
                    births: capped(r.births.len()),
                    anomalies: capped((r.anomalies + lost) as nat),
                },
            ),
        )
    }
}

/// For each settlement, whether its payer can hold no key.
pub open spec fn keyless_payers(settlements: Seq<SettledSpec>) -> Seq<bool> {
    Seq::new(settlements.len(), |i: int| off_curve(settlements[i].donor))
}

/// Whether every birth recorded is of an address that can hold no key.
pub open spec fn births_keyless(s: CertifiedSpec) -> bool {
    forall|e: Seq<u8>| #[trigger] s.births.contains_key(e) ==> off_curve(e)
}

/// Whether a signature has already been folded in — the whole of exactly-once,
/// and the first (free) step of an ingest.
pub fn is_applied(s: &Certified, signature: &[u8]) -> (r: bool)
    requires
        s.wf(),
    ensures
        r == s@.applied.contains(signature@),
{
    s.is_applied(signature)
}

/// Retire a signature that was read fine but folded nothing — a finalized
/// *reverted* transaction. `false` if it was folded in already, or is empty.
pub fn retire(s: &mut Certified, signature: Vec<u8>) -> (r: bool)
    requires
        old(s).wf(),
    ensures
        final(s).wf(),
        final(s)@ == old(s)@.marked(signature@),
        r == (signature@.len() > 0 && !old(s)@.applied.contains(signature@)),
{
    s.mark_applied(signature)
}

/// One page of births for the successor generation's seed.
pub fn births_page(s: &Certified, start_after: Option<[u8; 32]>, limit: usize) -> (r: Vec<
    ([u8; 32], Birth),
>)
    requires
        s.wf(),
    ensures
        is_page(
            births_listed(r@),
            s@.births,
            (match start_after {
                Some(c) => Some(c@),
                None => None,
            }),
            limit as nat,
        ),
{
    s.births_page(start_after, limit)
}

/// One page of the book for the successor generation.
pub fn book_page(s: &Certified, start_after: Option<&[u8]>, limit: usize) -> (r: Vec<
    (ChainId, [u8; 32], [u8; 32], u128),
>)
    requires
        s.wf(),
    ensures
        is_page(
            book_listed(r@),
            s@.book,
            (match start_after {
                Some(c) => Some(c@),
                None => None,
            }),
            limit as nat,
        ),
{
    s.book_page(start_after, limit)
}

/// The capacity gauge: heap bytes in use, populated book keys, recorded births.
pub fn state_stats(s: &Certified, heap_bytes: u64) -> (r: (u64, u64, u64))
    requires
        s.wf(),
    ensures
        r == (heap_bytes, capped(s@.book.dom().len()), capped(s@.births.dom().len())),
{
    (heap_bytes, s.book_keys(), s.births_count())
}

/// The bytes in `pages` pages of heap, capped at the greatest `u64`.
pub fn heap_bytes(pages: u64) -> (r: u64)
    ensures
        r == capped((pages * 65_536) as nat),
{
    match pages.checked_mul(65_536) {
        Some(bytes) => bytes,
        None => u64::MAX,
    }
}

/// Count of applied signatures.
pub fn applied_count(s: &Certified) -> (r: u64)
    requires
        s.wf(),
    ensures
        r == s@.applied.len(),
{
    s.applied_count()
}

/// Count of cross-check anomalies.
pub fn anomaly_count(s: &Certified) -> (r: u64)
    ensures
        r == s@.anomalies,
{
    s.anomaly_count()
}

/// Whether bytes are the CBOR form of a witness of a book key that reconstructs to
/// the combined root.
pub open spec fn proves_reputation(s: CertifiedSpec, bytes: Seq<u8>, key: Seq<u8>) -> bool {
    exists|w: Witness| #[trigger]
        s.is_book_witness(w, key) && w.digest() == s.root() && bytes == w.cbor()
}

/// Whether bytes are the CBOR form of a witness of a birth that reconstructs to
/// the combined root.
pub open spec fn proves_birth(s: CertifiedSpec, bytes: Seq<u8>, escrow: Seq<u8>) -> bool {
    exists|w: Witness| #[trigger]
        s.is_birth_witness(w, escrow) && w.digest() == s.root() && bytes == w.cbor()
}

/// An absence proof is still a witness: what proves a reputation is not empty.
pub proof fn witness_of_reputation_is_not_empty(s: CertifiedSpec, bytes: Seq<u8>, key: Seq<u8>)
    requires
        proves_reputation(s, bytes, key),
    ensures
        bytes.len() > 0,
{
    let w = choose|w: Witness| #[trigger]
        s.is_book_witness(w, key) && w.digest() == s.root() && bytes == w.cbor();
    assert(w is Fork);
}

/// What proves a birth, or that there is none, is not empty.
pub proof fn witness_of_birth_is_not_empty(s: CertifiedSpec, bytes: Seq<u8>, escrow: Seq<u8>)
    requires
        proves_birth(s, bytes, escrow),
    ensures
        bytes.len() > 0,
{
    let w = choose|w: Witness| #[trigger]
        s.is_birth_witness(w, escrow) && w.digest() == s.root() && bytes == w.cbor();
    assert(w is Fork);
}

/// Reputation at a key plus a witness proving it against the certified root.
pub fn reputation_witness(
    s: &Certified,
    chain: ChainId,
    donor: [u8; 32],
    recipient: [u8; 32],
) -> (r: (u128, Vec<u8>))
    requires
        s.wf(),
    ensures
        r.0 == s@.reputation(key_of(chain.0@, donor@, recipient@)),
        proves_reputation(s@, r.1@, key_of(chain.0@, donor@, recipient@)),
{
    let value = s.reputation(chain, donor, recipient);
    let w = s.book_witness(chain, donor, recipient);
    let ghost disclosed = witness_of(w);
    let bytes = cbor(&w);
    assert(s@.is_book_witness(disclosed, key_of(chain.0@, donor@, recipient@)));
    (value, bytes)
}

/// A birth (if present) plus a witness proving it against the certified root.
pub fn birth_witness(s: &Certified, escrow: [u8; 32]) -> (r: (Option<Birth>, Vec<u8>))
    requires
        s.wf(),
    ensures
        r.0 is Some <==> s@.births.contains_key(escrow@),
        r.0 matches Some(b) ==> b@ == s@.births[escrow@],
        proves_birth(s@, r.1@, escrow@),
{
    let birth = s.birth(&escrow);
    let w = s.birth_witness(escrow);
    let ghost disclosed = witness_of(w);
    let bytes = cbor(&w);
    assert(s@.is_birth_witness(disclosed, escrow@));
    (birth, bytes)
}

/// The current combined root.
pub fn combined_root(s: &Certified) -> (r: Vec<u8>)
    ensures
        r@ == s@.root(),
        r@.len() == 32,
{
    vstd::slice::slice_to_vec(&s.combined_root())
}

/// Whether a recognized settlement can be credited to the wallet that paid it,
/// given whether its payer can hold no key.
pub fn attributable_as(
    s: &Certified,
    births_in_tx: &[([u8; 32], Birth)],
    ev: &Settled,
    keyless: bool,
) -> (r: bool)
    requires
        s.wf(),
    ensures
        r == is_attributable(s@, births_listed(births_in_tx@), ev@, keyless),
{
    if !keyless {
        return true;
    }
    if s.birth(&ev.donor).is_some() {
        return true;
    }
    let mut i: usize = 0;
    while i < births_in_tx.len()
        invariant
            i <= births_in_tx@.len(),
            forall|k: int|
                0 <= k < i ==> (#[trigger] births_listed(births_in_tx@)[k]).0 != ev@.donor,
        decreases births_in_tx@.len() - i,
    {
        if same(&births_in_tx[i].0, &ev.donor) {
            assert(births_listed(births_in_tx@)[i as int].0 == ev@.donor);
            return true;
        }
        i += 1;
    }
    false
}

/// Whether a recognized settlement can be credited to the wallet that paid it.
///
/// This is what enforces the order "birth before settlement": a payer off the
/// curve is an escrow, and without its birth nobody knows whose.
pub fn attributable(s: &Certified, births_in_tx: &[([u8; 32], Birth)], ev: &Settled) -> (r: bool)
    requires
        s.wf(),
    ensures
        r == is_attributable(s@, births_listed(births_in_tx@), ev@, off_curve(ev.donor@)),
{
    attributable_as(s, births_in_tx, ev, solana_is_off_curve(&ev.donor))
}

/// Fold what was recognized under a signature: attribute, fold, record and mark.
/// `keyless` says of each settlement whether its payer can hold no key.
///
/// Births are recorded before settlements, so a settlement is credited to the
/// donor of an escrow born in the same transaction. A transaction with a
/// settlement that nobody can be credited for is refused whole.
pub fn fold(
    s: &mut Certified,
    signature: Vec<u8>,
    recognized: &Recognized,
    keyless: &Vec<bool>,
) -> (r: Folded)
    requires
        old(s).wf(),
        keyless@.len() == recognized.settlements@.len(),
    ensures
        final(s).wf(),
        (final(s)@, r) == fold_of(old(s)@, signature@, recognized@, keyless@),
{
    if s.is_applied(signature.as_slice()) {
        return Folded::Duplicate;
    }
    let mut i: usize = 0;
    while i < recognized.settlements.len()
        invariant
            s.wf(),
            s@ == old(s)@,
            !s@.applied.contains(signature@),
            i <= recognized.settlements@.len(),
            keyless@.len() == recognized.settlements@.len(),
            forall|k: int|
                0 <= k < i ==> is_attributable(
                    s@,
                    recognized@.births,
                    #[trigger] recognized@.settlements[k],
                    keyless@[k],
                ),
        decreases recognized.settlements@.len() - i,
    {
        let ev = &recognized.settlements[i];
        assert(ev@ == recognized@.settlements[i as int]);
        if !attributable_as(s, recognized.births.as_slice(), ev, keyless[i]) {
            assert(!all_attributable(s@, recognized@, keyless@));
            return Folded::UnknownBirth;
        }
        i += 1;
    }
    let ghost counted = s@.with_anomalies(recognized.anomalies);
    s.add_anomalies(recognized.anomalies);
    let ghost births = recognized@.births;
    let mut n: usize = 0;
    assert(births.take(0) =~= Seq::empty());
    while n < recognized.births.len()
        invariant
            s.wf(),
            n <= recognized.births@.len(),
            births == recognized@.births,
            s@ == with_births(counted, births.take(n as int)),
        decreases recognized.births@.len() - n,
    {
        let (escrow, b) = recognized.births[n];
        assert(births.take(n + 1).drop_last() =~= births.take(n as int));
        assert(births.take(n + 1).last() == (escrow@, b@));
        s.record_birth(escrow, b);
        n += 1;
    }
    assert(births.take(n as int) =~= births);
    let ghost ready = s@;
    let ghost events = recognized@.settlements;
    let mut settlements: u64 = 0;
    let mut anomalies: u64 = recognized.anomalies;
    let mut k: usize = 0;
    assert(events.take(0) =~= Seq::empty());
    while k < recognized.settlements.len()
        invariant
            s.wf(),
            k <= recognized.settlements@.len(),
            events == recognized@.settlements,
            s@ == with_settlements(ready, events.take(k as int)),
            refused(ready, events.take(k as int)) <= k,
            settlements == k - refused(ready, events.take(k as int)),
            anomalies == capped(
                (recognized.anomalies + refused(ready, events.take(k as int))) as nat,
            ),
        decreases recognized.settlements@.len() - k,
    {
        let ev = recognized.settlements[k];
        assert(events.take(k + 1).drop_last() =~= events.take(k as int));
        assert(events.take(k + 1).last() == ev@);
        let attributed = s.attribute(ev);
        match s.apply_settlement(attributed) {
            Ok(_) => {
                settlements = settlements.saturating_add(1);
            },
            Err(_) => {
                s.add_anomalies(1);
                anomalies = anomalies.saturating_add(1);
            },
        }
        k += 1;
    }
    assert(events.take(k as int) =~= events);
    s.mark_applied(signature);
    Folded::Applied(Applied { settlements, births: n as u64, anomalies })
}

/// Recognize and fold one paid transaction — the whole state mutation. Also
/// returns the combined root to publish, which there is exactly where something
/// was folded.
///
/// `Duplicate` if the signature is already applied, and that check is the whole of
/// exactly-once: it happens inside the same mutation that marks the signature.
pub fn apply(s: &mut Certified, signature: Vec<u8>, tx: &Tx, cfg: &ChainConfig) -> (r: (
    Folded,
    Option<TreeHash>,
))
    requires
        old(s).wf(),
    ensures
        final(s).wf(),
        (final(s)@, r.0) == fold_of(
            old(s)@,
            signature@,
            scan_of(tx@, cfg@).recognized(),
            keyless_payers(scan_of(tx@, cfg@).recognized().settlements),
        ),
        r.1 is Some <==> r.0 is Applied,
        r.1 matches Some(root) ==> root@ == final(s)@.root(),
        births_keyless(old(s)@) ==> births_keyless(final(s)@),
{
    if s.is_applied(signature.as_slice()) {
        return (Folded::Duplicate, None);
    }
    let recognized = recognize(tx, cfg);
    let mut keyless: Vec<bool> = Vec::new();
    let mut i: usize = 0;
    while i < recognized.settlements.len()
        invariant
            i <= recognized.settlements@.len(),
            keyless@.len() == i,
            forall|k: int|
                0 <= k < i ==> #[trigger] keyless@[k] == off_curve(
                    recognized@.settlements[k].donor,
                ),
        decreases recognized.settlements@.len() - i,
    {
        let off = solana_is_off_curve(&recognized.settlements[i].donor);
        keyless.push(off);
        i += 1;
    }
    assert(keyless@ =~= keyless_payers(recognized@.settlements));
    proof {
        if births_keyless(s@) {
            births_stay_keyless(s@, signature@, recognized@, keyless@);
        }
    }
    let folded = fold(s, signature, &recognized, &keyless);
    match folded {
        Folded::Applied(_) => (folded, Some(s.combined_root())),
        _ => (folded, None),
    }
}

} // verus!
