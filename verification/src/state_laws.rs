//! What holds of every fold: exactly once, all or nothing, only ever adding, and
//! credited to the donor who funded the escrow.

use crate::bytes::{lemma_lex_irreflexive, lex_lt};
use crate::certified::{births_branch, book_branch, key_of, BirthSpec, CertifiedSpec};
use crate::derive::off_curve;
use crate::page::{a_wide_page_holds_everything, is_page, page_is_unique};
use crate::recognize::RecognizedSpec;
use crate::reduce::SettledSpec;
use crate::state::{
    all_attributable, before_settlements, births_keyless, fold_of, is_attributable, refused,
    with_births, with_settlements, Folded,
};
use crate::tree::{discloses, Witness};
use vstd::bytes::{spec_u128_to_le_bytes, spec_u64_to_le_bytes};
use vstd::prelude::*;

verus! {

/// Exactly once: once a transaction is folded in, its signature is never folded
/// again, whatever comes under it, and the second copy changes nothing.
pub proof fn folded_once(
    s: CertifiedSpec,
    signature: Seq<u8>,
    r: RecognizedSpec,
    keyless: Seq<bool>,
    r2: RecognizedSpec,
    keyless2: Seq<bool>,
)
    requires
        signature.len() > 0,
        fold_of(s, signature, r, keyless).1 is Applied,
    ensures
        ({
            let after = fold_of(s, signature, r, keyless).0;
            fold_of(after, signature, r2, keyless2) == (after, Folded::Duplicate)
        }),
{
}

/// A retired signature is never folded.
pub proof fn retired_is_never_folded(
    s: CertifiedSpec,
    signature: Seq<u8>,
    r: RecognizedSpec,
    keyless: Seq<bool>,
)
    requires
        signature.len() > 0,
    ensures
        fold_of(s.marked(signature), signature, r, keyless) == (
            s.marked(signature),
            Folded::Duplicate,
        ),
{
}

/// All or nothing: a transaction that is not folded in leaves the state, and so
/// the certified root, exactly as it was.
pub proof fn refusal_changes_nothing(
    s: CertifiedSpec,
    signature: Seq<u8>,
    r: RecognizedSpec,
    keyless: Seq<bool>,
)
    requires
        !(fold_of(s, signature, r, keyless).1 is Applied),
    ensures
        fold_of(s, signature, r, keyless).0 == s,
{
}

/// A refusal for want of a birth spends nothing: the same signature folds in every
/// later state that has not folded it and that knows the births of its keyless
/// payers.
pub proof fn refused_signature_stays_foldable(
    s: CertifiedSpec,
    later: CertifiedSpec,
    signature: Seq<u8>,
    r: RecognizedSpec,
    keyless: Seq<bool>,
)
    requires
        fold_of(s, signature, r, keyless).1 is UnknownBirth,
        !later.applied.contains(signature),
        forall|i: int|
            0 <= i < r.settlements.len() && keyless[i] ==> later.births.contains_key(
                (#[trigger] r.settlements[i]).donor,
            ),
    ensures
        !fold_of(s, signature, r, keyless).0.applied.contains(signature),
        fold_of(later, signature, r, keyless).1 is Applied,
{
}

/// A settlement that outran its birth folds after it: once the births that a
/// refused transaction wants are folded in under another signature, the same
/// transaction is folded in, and each keyless payer's credit is its donor's.
pub proof fn a_settlement_folds_after_its_birth(
    s: CertifiedSpec,
    signature: Seq<u8>,
    r: RecognizedSpec,
    keyless: Seq<bool>,
    birth_signature: Seq<u8>,
    birth: RecognizedSpec,
    birth_keyless: Seq<bool>,
)
    requires
        fold_of(s, signature, r, keyless).1 is UnknownBirth,
        fold_of(s, birth_signature, birth, birth_keyless).1 is Applied,
        birth_signature != signature,
        forall|i: int|
            0 <= i < r.settlements.len() ==> is_attributable(
                s,
                birth.births + r.births,
                #[trigger] r.settlements[i],
                keyless[i],
            ),
    ensures
        ({
            let t = fold_of(s, birth_signature, birth, birth_keyless).0;
            let ready = before_settlements(t, r);
            &&& fold_of(t, signature, r, keyless).1 is Applied
            &&& forall|i: int|
                0 <= i < r.settlements.len() && keyless[i] ==> {
                    let ev = #[trigger] r.settlements[i];
                    &&& ready.births.contains_key(ev.donor)
                    &&& ready.attributed(ev).donor == ready.births[ev.donor].donor
                }
        }),
{
    let counted = s.with_anomalies(birth.anomalies);
    births_leave_the_book(counted, birth.births);
    lemma_births_recorded(counted, birth.births);
    settlements_leave_the_births(before_settlements(s, birth), birth.settlements);
    let t = fold_of(s, birth_signature, birth, birth_keyless).0;
    let both = birth.births + r.births;
    assert forall|i: int| 0 <= i < r.settlements.len() implies is_attributable(
        t,
        r.births,
        #[trigger] r.settlements[i],
        keyless[i],
    ) by {
        let donor = r.settlements[i].donor;
        assert(is_attributable(s, both, r.settlements[i], keyless[i]));
        if keyless[i] && !s.births.contains_key(donor) {
            let j = choose|j: int| 0 <= j < both.len() && (#[trigger] both[j]).0 == donor;
            if j < birth.births.len() {
                assert(birth.births[j].0 == donor);
                assert(with_births(counted, birth.births).births.contains_key(donor));
            } else {
                assert(r.births[j - birth.births.len()].0 == donor);
            }
        }
    }
    assert forall|i: int| 0 <= i < r.settlements.len() && keyless[i] implies {
        let ready = before_settlements(t, r);
        let ev = #[trigger] r.settlements[i];
        &&& ready.births.contains_key(ev.donor)
        &&& ready.attributed(ev).donor == ready.births[ev.donor].donor
    } by {
        keyless_payers_are_attributed(t, signature, r, keyless, i);
    }
}

/// A wallet needs no birth: a transaction whose payers can all hold a key is
/// folded whatever births are known.
pub proof fn wallets_need_no_birth(
    s: CertifiedSpec,
    signature: Seq<u8>,
    r: RecognizedSpec,
    keyless: Seq<bool>,
)
    requires
        !s.applied.contains(signature),
        forall|i: int| 0 <= i < r.settlements.len() ==> !#[trigger] keyless[i],
    ensures
        fold_of(s, signature, r, keyless).1 is Applied,
{
}

/// What births touch: the births, and nothing of the book, the signatures or the
/// anomalies.
pub proof fn births_leave_the_book(s: CertifiedSpec, births: Seq<(Seq<u8>, BirthSpec)>)
    ensures
        ({
            let t = with_births(s, births);
            &&& t.book == s.book
            &&& t.book_shape == s.book_shape
            &&& t.applied == s.applied
            &&& t.anomalies == s.anomalies
        }),
    decreases births.len(),
{
    if births.len() > 0 {
        births_leave_the_book(s, births.drop_last());
    }
}

/// What settlements touch: the book and the anomalies, and nothing of the births
/// or the signatures.
pub proof fn settlements_leave_the_births(s: CertifiedSpec, settlements: Seq<SettledSpec>)
    ensures
        ({
            let t = with_settlements(s, settlements);
            &&& t.births == s.births
            &&& t.births_shape == s.births_shape
            &&& t.applied == s.applied
        }),
    decreases settlements.len(),
{
    if settlements.len() > 0 {
        settlements_leave_the_births(s, settlements.drop_last());
    }
}

/// Recorded births stay recorded, and every new one is recorded too.
proof fn lemma_births_recorded(s: CertifiedSpec, births: Seq<(Seq<u8>, BirthSpec)>)
    ensures
        forall|e: Seq<u8>| #[trigger]
            with_births(s, births).births.contains_key(e) <==> s.births.contains_key(e)
                || exists|i: int| 0 <= i < births.len() && (#[trigger] births[i]).0 == e,
    decreases births.len(),
{
    if births.len() > 0 {
        let before = births.drop_last();
        lemma_births_recorded(s, before);
        assert forall|e: Seq<u8>| #[trigger]
            with_births(s, births).births.contains_key(e) <==> s.births.contains_key(e)
                || exists|i: int| 0 <= i < births.len() && (#[trigger] births[i]).0 == e by {
            let known = with_births(s, before).births.contains_key(e);
            assert(known ==> with_births(s, births).births.contains_key(e));
            if exists|i: int| 0 <= i < before.len() && (#[trigger] before[i]).0 == e {
                let i = choose|i: int| 0 <= i < before.len() && (#[trigger] before[i]).0 == e;
                assert(births[i].0 == e);
            }
            if exists|i: int| 0 <= i < births.len() && (#[trigger] births[i]).0 == e {
                let i = choose|i: int| 0 <= i < births.len() && (#[trigger] births[i]).0 == e;
                if i < before.len() {
                    assert(before[i].0 == e);
                }
            }
            if births.last().0 == e {
                assert(births[births.len() - 1].0 == e);
            }
        }
    }
}

/// What a fold keeps grows: no book key vanishes, no reputation falls, no birth is
/// forgotten, no signature is freed, no anomaly is taken back.
pub proof fn state_only_grows(
    s: CertifiedSpec,
    signature: Seq<u8>,
    r: RecognizedSpec,
    keyless: Seq<bool>,
)
    ensures
        ({
            let t = fold_of(s, signature, r, keyless).0;
            &&& forall|k: Seq<u8>| s.book.contains_key(k) ==> #[trigger] t.book.contains_key(k)
            &&& forall|k: Seq<u8>| #[trigger] t.reputation(k) >= s.reputation(k)
            &&& forall|e: Seq<u8>| s.births.contains_key(e) ==> #[trigger] t.births.contains_key(e)
            &&& s.applied.subset_of(t.applied)
            &&& t.anomalies >= s.anomalies
        }),
{
    let ready = before_settlements(s, r);
    births_leave_the_book(s.with_anomalies(r.anomalies), r.births);
    lemma_births_recorded(s.with_anomalies(r.anomalies), r.births);
    settlements_leave_the_births(ready, r.settlements);
    lemma_settlements_grow(ready, r.settlements);
    let t = fold_of(s, signature, r, keyless).0;
    assert forall|k: Seq<u8>| #[trigger] t.reputation(k) >= s.reputation(k) by {
        assert(with_settlements(ready, r.settlements).reputation(k) >= ready.reputation(k));
        assert(ready.reputation(k) == s.reputation(k));
    }
}

/// Settlements take no key, no reputation and no anomaly back.
proof fn lemma_settlements_grow(s: CertifiedSpec, settlements: Seq<SettledSpec>)
    ensures
        forall|k: Seq<u8>|
            s.book.contains_key(k) ==> #[trigger] with_settlements(
                s,
                settlements,
            ).book.contains_key(k),
        forall|k: Seq<u8>| #[trigger]
            with_settlements(s, settlements).reputation(k) >= s.reputation(k),
        with_settlements(s, settlements).anomalies >= s.anomalies,
    decreases settlements.len(),
{
    if settlements.len() > 0 {
        lemma_settlements_grow(s, settlements.drop_last());
        let before = with_settlements(s, settlements.drop_last());
        assert forall|k: Seq<u8>| s.book.contains_key(k) implies #[trigger] with_settlements(
            s,
            settlements,
        ).book.contains_key(k) by {
            assert(before.book.contains_key(k));
        }
        assert forall|k: Seq<u8>| #[trigger]
            with_settlements(s, settlements).reputation(k) >= s.reputation(k) by {
            assert(before.reputation(k) >= s.reputation(k));
        }
    }
}

/// What settlements credit under a book key, once attributed.
pub open spec fn credited_to(s: CertifiedSpec, settlements: Seq<SettledSpec>, key: Seq<u8>) -> nat
    decreases settlements.len(),
{
    if settlements.len() == 0 {
        0
    } else {
        let last = s.attributed(settlements.last());
        credited_to(s, settlements.drop_last(), key) + if key_of(
            last.chain,
            last.donor,
            last.recipient,
        ) == key {
            last.gross as nat
        } else {
            0nat
        }
    }
}

/// Reputation is the sum of what was settled: where no sum overflows, a fold adds
/// to each key exactly what its settlements credit there, attributed by the births
/// known once the transaction's own are recorded.
pub proof fn reputation_is_the_sum_of_settlements(
    s: CertifiedSpec,
    signature: Seq<u8>,
    r: RecognizedSpec,
    keyless: Seq<bool>,
    key: Seq<u8>,
)
    requires
        fold_of(s, signature, r, keyless).1 is Applied,
        refused(before_settlements(s, r), r.settlements) == 0,
    ensures
        fold_of(s, signature, r, keyless).0.reputation(key) == s.reputation(key) + credited_to(
            before_settlements(s, r),
            r.settlements,
            key,
        ),
{
    births_leave_the_book(s.with_anomalies(r.anomalies), r.births);
    lemma_sum_of_settlements(before_settlements(s, r), r.settlements, key);
}

proof fn lemma_sum_of_settlements(s: CertifiedSpec, settlements: Seq<SettledSpec>, key: Seq<u8>)
    requires
        refused(s, settlements) == 0,
    ensures
        with_settlements(s, settlements).reputation(key) == s.reputation(key) + credited_to(
            s,
            settlements,
            key,
        ),
    decreases settlements.len(),
{
    if settlements.len() > 0 {
        lemma_sum_of_settlements(s, settlements.drop_last(), key);
        settlements_leave_the_births(s, settlements.drop_last());
    }
}

/// An empty signature is never marked.
pub proof fn empty_signature_is_never_marked(
    s: CertifiedSpec,
    signature: Seq<u8>,
    r: RecognizedSpec,
    keyless: Seq<bool>,
)
    requires
        !s.applied.contains(Seq::empty()),
    ensures
        !fold_of(s, signature, r, keyless).0.applied.contains(Seq::empty()),
{
    births_leave_the_book(s.with_anomalies(r.anomalies), r.births);
    settlements_leave_the_births(before_settlements(s, r), r.settlements);
}

/// A folded transaction marks its own signature and no other.
pub proof fn a_fold_marks_one_signature(
    s: CertifiedSpec,
    signature: Seq<u8>,
    r: RecognizedSpec,
    keyless: Seq<bool>,
)
    requires
        signature.len() > 0,
        fold_of(s, signature, r, keyless).1 is Applied,
    ensures
        !s.applied.contains(signature),
        fold_of(s, signature, r, keyless).0.applied == s.applied.insert(signature),
{
    births_leave_the_book(s.with_anomalies(r.anomalies), r.births);
    settlements_leave_the_births(before_settlements(s, r), r.settlements);
}

/// Marking a signature, folded or retired, does not move the certified root.
pub proof fn marking_leaves_the_root(s: CertifiedSpec, signature: Seq<u8>)
    ensures
        s.marked(signature).root() == s.root(),
{
}

/// A settlement is never credited to a keyless address: where a transaction is
/// folded in, each of its keyless payers has a recorded birth by then, and the
/// credit is its donor's.
pub proof fn keyless_payers_are_attributed(
    s: CertifiedSpec,
    signature: Seq<u8>,
    r: RecognizedSpec,
    keyless: Seq<bool>,
    i: int,
)
    requires
        fold_of(s, signature, r, keyless).1 is Applied,
        0 <= i < r.settlements.len(),
        keyless[i],
    ensures
        ({
            let ready = before_settlements(s, r);
            let ev = r.settlements[i];
            &&& ready.births.contains_key(ev.donor)
            &&& ready.attributed(ev).donor == ready.births[ev.donor].donor
        }),
{
    assert(all_attributable(s, r, keyless));
    lemma_births_recorded(s.with_anomalies(r.anomalies), r.births);
    let ready = before_settlements(s, r);
    assert(is_attributable(s, r.births, r.settlements[i], keyless[i]));
    assert(ready.births.contains_key(r.settlements[i].donor));
}

/// A wallet's settlements are its own: where only keyless addresses were born, a
/// payer that can hold a key is credited itself.
pub proof fn wallets_keep_their_credit(s: CertifiedSpec, ev: SettledSpec)
    requires
        births_keyless(s),
        !off_curve(ev.donor),
    ensures
        s.attributed(ev) == ev,
{
}

/// Recording births of keyless addresses keeps all births keyless, through every
/// fold.
pub proof fn births_stay_keyless(
    s: CertifiedSpec,
    signature: Seq<u8>,
    r: RecognizedSpec,
    keyless: Seq<bool>,
)
    requires
        births_keyless(s),
        forall|i: int| 0 <= i < r.births.len() ==> off_curve((#[trigger] r.births[i]).0),
    ensures
        births_keyless(fold_of(s, signature, r, keyless).0),
{
    let t = fold_of(s, signature, r, keyless).0;
    lemma_births_recorded(s.with_anomalies(r.anomalies), r.births);
    settlements_leave_the_births(before_settlements(s, r), r.settlements);
    assert forall|e: Seq<u8>| #[trigger] t.births.contains_key(e) implies off_curve(e) by {
        if fold_of(s, signature, r, keyless).1 is Applied {
            assert(before_settlements(s, r).births.contains_key(e));
            if !s.births.contains_key(e) {
                let i = choose|i: int| 0 <= i < r.births.len() && (#[trigger] r.births[i]).0 == e;
                assert(off_curve(r.births[i].0));
            }
        }
    }
}

/// A birth reads back as it was recorded last, and recording it again changes no
/// other.
pub proof fn a_birth_reads_back(s: CertifiedSpec, escrow: Seq<u8>, b: BirthSpec, other: Seq<u8>)
    ensures
        s.born(escrow, b).births.contains_key(escrow),
        s.born(escrow, b).births[escrow] == b,
        s.births.contains_key(escrow) ==> s.born(escrow, b).births.dom() == s.births.dom(),
        other != escrow ==> (s.born(escrow, b).births.contains_key(other)
            <==> s.births.contains_key(other)),
        other != escrow && s.births.contains_key(other) ==> s.born(escrow, b).births[other]
            == s.births[other],
{
    if s.births.contains_key(escrow) {
        assert(s.born(escrow, b).births.dom() =~= s.births.dom());
    }
}

/// A witness discloses what is read: under a book key, the one labeled leaf that it
/// shows of the book is the reputation there.
pub proof fn a_witness_discloses_the_reputation(s: CertifiedSpec, w: Witness, key: Seq<u8>)
    requires
        s.is_book_witness(w, key),
        s.book.contains_key(key),
    ensures
        exists|sub: Witness|
            {
                &&& w == #[trigger] book_branch(sub, s.births_leaf())
                &&& sub.labels() == Map::<Seq<u8>, Witness>::empty().insert(
                    key,
                    Witness::Leaf(spec_u128_to_le_bytes(s.reputation(key))),
                )
            },
{
    let sub = choose|sub: Witness|
        {
            &&& w == #[trigger] book_branch(sub, s.births_leaf())
            &&& sub.digest() == s.book_shape.subtree_digest()
            &&& discloses(sub, s.book.map_values(|v: u128| spec_u128_to_le_bytes(v)), key)
        };
    assert(w == book_branch(sub, s.births_leaf()));
}

/// A witness discloses what is read: under an escrow, the one labeled leaf that it
/// shows of the births is the donor and the slot of its birth.
pub proof fn a_witness_discloses_the_birth(s: CertifiedSpec, w: Witness, escrow: Seq<u8>)
    requires
        s.is_birth_witness(w, escrow),
        s.births.contains_key(escrow),
    ensures
        exists|sub: Witness|
            {
                &&& w == #[trigger] births_branch(s.book_leaf(), sub)
                &&& sub.labels() == Map::<Seq<u8>, Witness>::empty().insert(
                    escrow,
                    Witness::Leaf(
                        s.births[escrow].donor + spec_u64_to_le_bytes(s.births[escrow].slot),
                    ),
                )
            },
{
    let sub = choose|sub: Witness|
        {
            &&& w == #[trigger] births_branch(s.book_leaf(), sub)
            &&& sub.digest() == s.births_shape.subtree_digest()
            &&& discloses(
                sub,
                s.births.map_values(|b: BirthSpec| b.donor + spec_u64_to_le_bytes(b.slot)),
                escrow,
            )
        };
    assert(w == births_branch(s.book_leaf(), sub));
}

// ----- the handover to a successor -----

/// A book entry as the settlement that restores it.
pub open spec fn restoring(key: Seq<u8>, total: u128) -> SettledSpec {
    SettledSpec {
        chain: key.subrange(0, 32),
        donor: key.subrange(32, 64),
        recipient: key.subrange(64, 96),
        gross: total,
    }
}

/// The state with each entry of a page of the book settled once. A total that the
/// book refuses is left out.
pub open spec fn book_replayed(s: CertifiedSpec, page: Seq<(Seq<u8>, u128)>) -> CertifiedSpec
    decreases page.len(),
{
    if page.len() == 0 {
        s
    } else {
        let before = book_replayed(s, page.drop_last());
        match before.settled(restoring(page.last().0, page.last().1)) {
            Some(after) => after,
            None => before,
        }
    }
}

/// A successor: an empty state in which a page of the book and a page of the
/// births are replayed, in their order.
pub open spec fn successor(
    book: Seq<(Seq<u8>, u128)>,
    births: Seq<(Seq<u8>, BirthSpec)>,
) -> CertifiedSpec {
    with_births(book_replayed(CertifiedSpec::empty(), book), births)
}

proof fn lemma_book_replayed(page: Seq<(Seq<u8>, u128)>)
    requires
        forall|i: int| 0 <= i < page.len() ==> (#[trigger] page[i]).0.len() == 96,
        forall|i: int, j: int|
            0 <= i < j < page.len() ==> lex_lt(#[trigger] page[i].0, #[trigger] page[j].0),
    ensures
        ({
            let t = book_replayed(CertifiedSpec::empty(), page);
            &&& forall|k: Seq<u8>| #[trigger]
                t.book.contains_key(k) <==> exists|i: int|
                    0 <= i < page.len() && (#[trigger] page[i]).0 == k
            &&& forall|i: int| 0 <= i < page.len() ==> t.book[(#[trigger] page[i]).0] == page[i].1
            &&& t.births == Map::<Seq<u8>, BirthSpec>::empty()
        }),
    decreases page.len(),
{
    if page.len() > 0 {
        let before = page.drop_last();
        assert forall|i: int| 0 <= i < before.len() implies (#[trigger] before[i]).0.len()
            == 96 by {
            assert(page[i].0.len() == 96);
        }
        assert forall|i: int, j: int| 0 <= i < j < before.len() implies lex_lt(
            #[trigger] before[i].0,
            #[trigger] before[j].0,
        ) by {
            assert(lex_lt(page[i].0, page[j].0));
        }
        lemma_book_replayed(before);
        let s = book_replayed(CertifiedSpec::empty(), before);
        let t = book_replayed(CertifiedSpec::empty(), page);
        let key = page.last().0;
        let r = restoring(key, page.last().1);
        assert(page[page.len() - 1].0.len() == 96);
        assert(key_of(r.chain, r.donor, r.recipient) =~= key);
        if s.book.contains_key(key) {
            let i = choose|i: int| 0 <= i < before.len() && (#[trigger] before[i]).0 == key;
            assert(lex_lt(page[i].0, page[page.len() - 1].0));
            lemma_lex_irreflexive(key);
        }
        assert(t.book == s.book.insert(key, page.last().1));
        assert forall|k: Seq<u8>| #[trigger] t.book.contains_key(k) <==> exists|i: int|
            0 <= i < page.len() && (#[trigger] page[i]).0 == k by {
            if k == key {
                assert(page[page.len() - 1].0 == k);
            }
            if s.book.contains_key(k) {
                let i = choose|i: int| 0 <= i < before.len() && (#[trigger] before[i]).0 == k;
                assert(page[i].0 == k);
            }
            if exists|i: int| 0 <= i < page.len() && (#[trigger] page[i]).0 == k {
                let i = choose|i: int| 0 <= i < page.len() && (#[trigger] page[i]).0 == k;
                if i < before.len() {
                    assert(before[i].0 == k);
                    assert(s.book.contains_key(k));
                }
            }
        }
        assert forall|i: int| 0 <= i < page.len() implies t.book[(#[trigger] page[i]).0]
            == page[i].1 by {
            if i < before.len() {
                assert(before[i] == page[i]);
                assert(s.book.contains_key(page[i].0));
                if page[i].0 == key {
                    assert(lex_lt(page[i].0, page[page.len() - 1].0));
                    lemma_lex_irreflexive(key);
                }
            }
        }
    }
}

proof fn lemma_births_replayed(s: CertifiedSpec, page: Seq<(Seq<u8>, BirthSpec)>)
    requires
        s.births == Map::<Seq<u8>, BirthSpec>::empty(),
        forall|i: int, j: int|
            0 <= i < j < page.len() ==> lex_lt(#[trigger] page[i].0, #[trigger] page[j].0),
    ensures
        forall|k: Seq<u8>| #[trigger]
            with_births(s, page).births.contains_key(k) <==> exists|i: int|
                0 <= i < page.len() && (#[trigger] page[i]).0 == k,
        forall|i: int|
            0 <= i < page.len() ==> with_births(s, page).births[(#[trigger] page[i]).0]
                == page[i].1,
    decreases page.len(),
{
    lemma_births_recorded(s, page);
    if page.len() > 0 {
        let before = page.drop_last();
        assert forall|i: int, j: int| 0 <= i < j < before.len() implies lex_lt(
            #[trigger] before[i].0,
            #[trigger] before[j].0,
        ) by {
            assert(lex_lt(page[i].0, page[j].0));
        }
        lemma_births_replayed(s, before);
        assert forall|i: int| 0 <= i < page.len() implies with_births(s, page).births[(
        #[trigger] page[i]).0] == page[i].1 by {
            if i < before.len() {
                assert(before[i] == page[i]);
                assert(lex_lt(page[i].0, page[page.len() - 1].0));
                lemma_lex_irreflexive(page.last().0);
            }
        }
    }
}

/// A replay of the pages restores the contents: the successor of a state holds
/// the same book and the same births, where the limit is no smaller than the number
/// of either.
pub proof fn a_replay_restores_the_contents(
    s: CertifiedSpec,
    book: Seq<(Seq<u8>, u128)>,
    births: Seq<(Seq<u8>, BirthSpec)>,
    limit: nat,
)
    requires
        forall|k: Seq<u8>| #[trigger] s.book.contains_key(k) ==> k.len() == 96,
        s.book.dom().finite(),
        s.births.dom().finite(),
        is_page(book, s.book, None, limit),
        is_page(births, s.births, None, limit),
        s.book.dom().len() <= limit,
        s.births.dom().len() <= limit,
    ensures
        successor(book, births).book == s.book,
        successor(book, births).births == s.births,
{
    let t = book_replayed(CertifiedSpec::empty(), book);
    a_wide_page_holds_everything(book, s.book, limit);
    a_wide_page_holds_everything(births, s.births, limit);
    assert forall|i: int| 0 <= i < book.len() implies (#[trigger] book[i]).0.len() == 96 by {
        assert(s.book.contains_key(book[i].0));
    }
    lemma_book_replayed(book);
    births_leave_the_book(t, births);
    assert forall|k: Seq<u8>| t.book.contains_key(k) <==> #[trigger] s.book.contains_key(k) by {
        if s.book.contains_key(k) {
            let i = choose|i: int| 0 <= i < book.len() && (#[trigger] book[i]).0 == k;
            assert(book[i].0 == k);
        }
        if t.book.contains_key(k) {
            let i = choose|i: int| 0 <= i < book.len() && (#[trigger] book[i]).0 == k;
            assert(s.book.contains_key(book[i].0));
        }
    }
    assert forall|k: Seq<u8>| #[trigger] t.book.contains_key(k) implies t.book[k] == s.book[k] by {
        let i = choose|i: int| 0 <= i < book.len() && (#[trigger] book[i]).0 == k;
        assert(t.book[book[i].0] == book[i].1);
        assert(s.book[book[i].0] == book[i].1);
    }
    assert(t.book =~= s.book);
    lemma_births_replayed(t, births);
    let u = with_births(t, births);
    assert forall|k: Seq<u8>| u.births.contains_key(k) <==> #[trigger] s.births.contains_key(
        k,
    ) by {
        if s.births.contains_key(k) {
            let i = choose|i: int| 0 <= i < births.len() && (#[trigger] births[i]).0 == k;
            assert(births[i].0 == k);
        }
        if u.births.contains_key(k) {
            let i = choose|i: int| 0 <= i < births.len() && (#[trigger] births[i]).0 == k;
            assert(s.births.contains_key(births[i].0));
        }
    }
    assert forall|k: Seq<u8>| #[trigger] u.births.contains_key(k) implies u.births[k]
        == s.births[k] by {
        let i = choose|i: int| 0 <= i < births.len() && (#[trigger] births[i]).0 == k;
        assert(u.births[births[i].0] == births[i].1);
        assert(s.births[births[i].0] == births[i].1);
    }
    assert(u.births =~= s.births);
}

/// A canonical replay normalizes: two states with the same book and births,
/// whatever order they grew in, hand out the same pages, and their replays are one
/// successor, with one root.
pub proof fn a_canonical_replay_normalizes(
    a: CertifiedSpec,
    b: CertifiedSpec,
    book_a: Seq<(Seq<u8>, u128)>,
    births_a: Seq<(Seq<u8>, BirthSpec)>,
    book_b: Seq<(Seq<u8>, u128)>,
    births_b: Seq<(Seq<u8>, BirthSpec)>,
    limit: nat,
)
    requires
        a.book == b.book,
        a.births == b.births,
        is_page(book_a, a.book, None, limit),
        is_page(births_a, a.births, None, limit),
        is_page(book_b, b.book, None, limit),
        is_page(births_b, b.births, None, limit),
    ensures
        book_a == book_b,
        births_a == births_b,
        successor(book_a, births_a) == successor(book_b, births_b),
        successor(book_a, births_a).root() == successor(book_b, births_b).root(),
{
    page_is_unique(book_a, book_b, a.book, None, limit);
    page_is_unique(births_a, births_b, a.births, None, limit);
}

} // verus!
