//! What holds of every ingest: no work before payment, exactly once however
//! ingests race, no trace of one that folded nothing, and the same index whenever
//! the same transactions are ingested again.

use crate::certified::{BirthSpec, CertifiedSpec};
use crate::config::{roots_of, ProfileSpec};
use crate::derive::off_curve;
use crate::order_laws::{
    all_applied, all_folded, births_agree, born_in, born_keyless,
    folds_do_not_depend_on_the_order, none_refused,
};
use crate::parse::{is_reverted, parse_of, TransactionReply};
use crate::recognize::{born_escrows_are_keyless, scan_of, RecognizedSpec};
use crate::state::{before_settlements, births_keyless, fold_of, keyless_payers};
use crate::state_laws::{
    a_fold_marks_one_signature, births_stay_keyless, empty_signature_is_never_marked,
    refusal_changes_nothing, refused_signature_stays_foldable, state_only_grows,
};
use crate::{finish_of, free_answer, IngestResult, MAX_SIGNATURE_LEN};
use vstd::prelude::*;
use vstd::seq_lib::group_to_multiset_ensures;

verus! {

/// Nothing is fetched before payment: an outcall is made only for a signature of a
/// possible length that is not folded in, with at least the price attached and the
/// balance at its floor or above.
pub proof fn nothing_is_fetched_before_payment(
    s: CertifiedSpec,
    signature: Seq<u8>,
    attached: u128,
    balance: u128,
    p: ProfileSpec,
)
    ensures
        free_answer(s, signature, attached, balance, p) is None <==> {
            &&& 0 < signature.len() <= MAX_SIGNATURE_LEN
            &&& !s.applied.contains(signature)
            &&& attached >= p.ingest_price
            &&& balance >= p.cycle_floor
        },
{
}

/// A duplicate is free, whatever is attached and however low the balance.
pub proof fn a_duplicate_is_free(
    s: CertifiedSpec,
    signature: Seq<u8>,
    attached: u128,
    balance: u128,
    p: ProfileSpec,
)
    requires
        signature.len() <= MAX_SIGNATURE_LEN,
        s.applied.contains(signature),
    ensures
        free_answer(s, signature, attached, balance, p) == Some(IngestResult::Duplicate),
{
}

/// The fold that a reply comes to, where it comes to one.
proof fn lemma_finish_is_a_fold(
    s: CertifiedSpec,
    signature: Seq<u8>,
    reply: TransactionReply,
    p: ProfileSpec,
)
    requires
        !(p.cutover_slot matches Some(cutover) && reply.slot >= cutover),
        !is_reverted(reply),
        parse_of(reply) is Some,
    ensures
        ({
            let r = scan_of(parse_of(reply)->0, roots_of(p)).recognized();
            let f = fold_of(s, signature, r, keyless_payers(r.settlements));
            &&& finish_of(s, signature, Some(reply), p).0 == f.0
            &&& finish_of(s, signature, Some(reply), p).1 is Applied <==> f.1 is Applied
        }),
{
}

/// Only what is answered `Applied` changes the state: a failed read, a reply that
/// can't be read, a transaction past the boundary, a duplicate and a settlement
/// that outran its birth all leave it exactly as it was.
pub proof fn only_applied_changes_the_state(
    s: CertifiedSpec,
    signature: Seq<u8>,
    reply: Option<TransactionReply>,
    p: ProfileSpec,
)
    requires
        !(finish_of(s, signature, reply, p).1 is Applied),
    ensures
        finish_of(s, signature, reply, p).0 == s,
{
    if let Some(r) = reply {
        if !(p.cutover_slot matches Some(cutover) && r.slot >= cutover) && !is_reverted(r)
            && parse_of(r) is Some {
            lemma_finish_is_a_fold(s, signature, r, p);
            let found = scan_of(parse_of(r)->0, roots_of(p)).recognized();
            refusal_changes_nothing(s, signature, found, keyless_payers(found.settlements));
        }
    }
}

/// Exactly once, however ingests race: what is answered `Applied` marks its
/// signature, so that every later ingest of it is answered for free as a
/// duplicate, and the reply to one already under way changes nothing.
pub proof fn an_ingest_is_applied_once(
    s: CertifiedSpec,
    signature: Seq<u8>,
    reply: Option<TransactionReply>,
    late_reply: Option<TransactionReply>,
    attached: u128,
    balance: u128,
    p: ProfileSpec,
)
    requires
        0 < signature.len() <= MAX_SIGNATURE_LEN,
        finish_of(s, signature, reply, p).1 is Applied,
    ensures
        ({
            let t = finish_of(s, signature, reply, p).0;
            &&& !s.applied.contains(signature)
            &&& t.applied == s.applied.insert(signature)
            &&& free_answer(t, signature, attached, balance, p) == Some(IngestResult::Duplicate)
            &&& finish_of(t, signature, late_reply, p).0 == t
            &&& !(finish_of(t, signature, late_reply, p).1 is Applied)
        }),
{
    let t = finish_of(s, signature, reply, p).0;
    let r = reply->0;
    if !is_reverted(r) {
        lemma_finish_is_a_fold(s, signature, r, p);
        let found = scan_of(parse_of(r)->0, roots_of(p)).recognized();
        a_fold_marks_one_signature(s, signature, found, keyless_payers(found.settlements));
    }
    assert(t.applied.contains(signature));
    if let Some(late) = late_reply {
        if !(p.cutover_slot matches Some(cutover) && late.slot >= cutover) && !is_reverted(late)
            && parse_of(late) is Some {
            lemma_finish_is_a_fold(t, signature, late, p);
        }
    }
}

/// A reverted transaction is retired: it folds nothing, and its signature is
/// marked.
pub proof fn a_reverted_transaction_is_retired(
    s: CertifiedSpec,
    signature: Seq<u8>,
    reply: TransactionReply,
    p: ProfileSpec,
)
    requires
        is_reverted(reply),
        !(p.cutover_slot matches Some(cutover) && reply.slot >= cutover),
        signature.len() > 0,
        !s.applied.contains(signature),
    ensures
        finish_of(s, signature, Some(reply), p) == (
            s.marked(signature),
            IngestResult::Applied { settlements: 0, births: 0, anomalies: 0 },
        ),
        s.marked(signature).book == s.book,
        s.marked(signature).births == s.births,
        s.marked(signature).anomalies == s.anomalies,
{
}

/// Generations are disjoint: nothing at or past the cutover slot is folded here,
/// and its signature stays free for the successor.
pub proof fn nothing_past_the_cutover_is_folded(
    s: CertifiedSpec,
    signature: Seq<u8>,
    reply: TransactionReply,
    cutover: u64,
    p: ProfileSpec,
)
    requires
        p.cutover_slot == Some(cutover),
        reply.slot >= cutover,
    ensures
        finish_of(s, signature, Some(reply), p) == (s, IngestResult::AfterCutover),
{
}

/// Through every ingest no book key vanishes, no reputation falls, no birth is
/// forgotten, no signature is freed, no anomaly is taken back, and the empty
/// signature is never marked.
pub proof fn an_ingest_only_adds(
    s: CertifiedSpec,
    signature: Seq<u8>,
    reply: Option<TransactionReply>,
    p: ProfileSpec,
)
    ensures
        ({
            let t = finish_of(s, signature, reply, p).0;
            &&& forall|k: Seq<u8>| s.book.contains_key(k) ==> #[trigger] t.book.contains_key(k)
            &&& forall|k: Seq<u8>| #[trigger] t.reputation(k) >= s.reputation(k)
            &&& forall|e: Seq<u8>| s.births.contains_key(e) ==> #[trigger] t.births.contains_key(e)
            &&& s.applied.subset_of(t.applied)
            &&& t.anomalies >= s.anomalies
            &&& !s.applied.contains(Seq::empty()) ==> !t.applied.contains(Seq::empty())
        }),
{
    if let Some(r) = reply {
        if !(p.cutover_slot matches Some(cutover) && r.slot >= cutover) && !is_reverted(r)
            && parse_of(r) is Some {
            lemma_finish_is_a_fold(s, signature, r, p);
            let found = scan_of(parse_of(r)->0, roots_of(p)).recognized();
            let keyless = keyless_payers(found.settlements);
            state_only_grows(s, signature, found, keyless);
            if !s.applied.contains(Seq::empty()) {
                empty_signature_is_never_marked(s, signature, found, keyless);
            }
        }
    }
}

/// A failed fetch spends nothing: after any answer but `Applied`, the same
/// signature is treated as if it had never been tried, by the checks and by the
/// reply that comes at last.
pub proof fn a_failed_ingest_spends_nothing(
    s: CertifiedSpec,
    signature: Seq<u8>,
    failed: Option<TransactionReply>,
    reply: Option<TransactionReply>,
    attached: u128,
    balance: u128,
    p: ProfileSpec,
)
    requires
        !(finish_of(s, signature, failed, p).1 is Applied),
    ensures
        ({
            let t = finish_of(s, signature, failed, p).0;
            &&& free_answer(t, signature, attached, balance, p) == free_answer(
                s,
                signature,
                attached,
                balance,
                p,
            )
            &&& finish_of(t, signature, reply, p) == finish_of(s, signature, reply, p)
        }),
{
    only_applied_changes_the_state(s, signature, failed, p);
}

/// An ingest held for an unknown birth is applied once the births are in: in every
/// later state that has not folded the signature and knows the births of the
/// keyless payers.
pub proof fn a_held_ingest_is_applied_once_the_births_are_in(
    s: CertifiedSpec,
    later: CertifiedSpec,
    signature: Seq<u8>,
    reply: TransactionReply,
    p: ProfileSpec,
)
    requires
        finish_of(s, signature, Some(reply), p).1 is UnknownBirth,
        !later.applied.contains(signature),
        ({
            let settlements = scan_of(
                parse_of(reply)->0,
                roots_of(p),
            ).recognized().settlements;
            forall|i: int|
                0 <= i < settlements.len() && off_curve((#[trigger] settlements[i]).donor)
                    ==> later.births.contains_key(settlements[i].donor)
        }),
    ensures
        finish_of(later, signature, Some(reply), p).1 is Applied,
{
    lemma_finish_is_a_fold(s, signature, reply, p);
    lemma_finish_is_a_fold(later, signature, reply, p);
    let found = scan_of(parse_of(reply)->0, roots_of(p)).recognized();
    refused_signature_stays_foldable(
        s,
        later,
        signature,
        found,
        keyless_payers(found.settlements),
    );
}

/// Only keyless escrows are ever born: through every ingest all births stay births
/// of addresses that no private key can exist for.
pub proof fn an_ingest_keeps_births_keyless(
    s: CertifiedSpec,
    signature: Seq<u8>,
    reply: Option<TransactionReply>,
    p: ProfileSpec,
)
    requires
        births_keyless(s),
    ensures
        births_keyless(finish_of(s, signature, reply, p).0),
{
    if let Some(r) = reply {
        if !(p.cutover_slot matches Some(cutover) && r.slot >= cutover) && !is_reverted(r)
            && parse_of(r) is Some {
            lemma_finish_is_a_fold(s, signature, r, p);
            born_escrows_are_keyless(parse_of(r)->0, roots_of(p));
            let found = scan_of(parse_of(r)->0, roots_of(p)).recognized();
            births_stay_keyless(s, signature, found, keyless_payers(found.settlements));
        }
    }
}

// ----- ingesting again -----

/// What a reply is folded as: what is recognized in it, and nothing where it was
/// reverted or can't be read.
pub open spec fn recognized_in(reply: TransactionReply, p: ProfileSpec) -> RecognizedSpec {
    match parse_of(reply) {
        Some(tx) if !is_reverted(reply) => scan_of(tx, roots_of(p)).recognized(),
        _ => RecognizedSpec { settlements: Seq::empty(), births: Seq::empty(), anomalies: 0 },
    }
}

/// What replies are folded as, each under its signature.
pub open spec fn folded_as(
    replies: Seq<(Seq<u8>, TransactionReply)>,
    p: ProfileSpec,
) -> Seq<(Seq<u8>, RecognizedSpec)> {
    Seq::new(replies.len(), |i: int| (replies[i].0, recognized_in(replies[i].1, p)))
}

/// The state after ingests, one after the other: each is a signature and the reply
/// that came for it.
pub open spec fn all_ingested(
    s: CertifiedSpec,
    replies: Seq<(Seq<u8>, TransactionReply)>,
    p: ProfileSpec,
) -> CertifiedSpec
    decreases replies.len(),
{
    if replies.len() == 0 {
        s
    } else {
        let (signature, reply) = replies.last();
        finish_of(all_ingested(s, replies.drop_last(), p), signature, Some(reply), p).0
    }
}

/// Whether every ingest is answered `Applied`.
pub open spec fn all_answered_applied(
    s: CertifiedSpec,
    replies: Seq<(Seq<u8>, TransactionReply)>,
    p: ProfileSpec,
) -> bool
    decreases replies.len(),
{
    replies.len() > 0 ==> {
        let (signature, reply) = replies.last();
        &&& all_answered_applied(s, replies.drop_last(), p)
        &&& finish_of(
            all_ingested(s, replies.drop_last(), p),
            signature,
            Some(reply),
            p,
        ).1 is Applied
    }
}

/// An ingest that is answered `Applied` is a fold, of nothing where the
/// transaction was reverted.
proof fn lemma_applied_is_a_fold(
    s: CertifiedSpec,
    signature: Seq<u8>,
    reply: TransactionReply,
    p: ProfileSpec,
)
    requires
        finish_of(s, signature, Some(reply), p).1 is Applied,
    ensures
        ({
            let r = recognized_in(reply, p);
            let f = fold_of(s, signature, r, keyless_payers(r.settlements));
            &&& f.0 == finish_of(s, signature, Some(reply), p).0
            &&& f.1 is Applied
        }),
{
    if is_reverted(reply) {
        let r = recognized_in(reply, p);
        assert(before_settlements(s, r) == s);
    } else {
        lemma_finish_is_a_fold(s, signature, reply, p);
    }
}

/// Ingests that are answered `Applied` are folds, one after the other.
proof fn lemma_ingested_is_folded(
    s: CertifiedSpec,
    replies: Seq<(Seq<u8>, TransactionReply)>,
    p: ProfileSpec,
)
    requires
        all_answered_applied(s, replies, p),
    ensures
        all_applied(s, folded_as(replies, p)),
        all_folded(s, folded_as(replies, p)) == all_ingested(s, replies, p),
    decreases replies.len(),
{
    if replies.len() > 0 {
        let before = replies.drop_last();
        lemma_ingested_is_folded(s, before, p);
        assert(folded_as(replies, p).drop_last() =~= folded_as(before, p));
        let (signature, reply) = replies.last();
        lemma_applied_is_a_fold(all_ingested(s, before, p), signature, reply, p);
    }
}

/// The same replies in another order are folded as the same.
proof fn lemma_folded_as_permuted(
    a: Seq<(Seq<u8>, TransactionReply)>,
    b: Seq<(Seq<u8>, TransactionReply)>,
    p: ProfileSpec,
)
    requires
        a.to_multiset() == b.to_multiset(),
    ensures
        folded_as(a, p).to_multiset() == folded_as(b, p).to_multiset(),
    decreases a.len(),
{
    broadcast use group_to_multiset_ensures;

    assert(a.len() == a.to_multiset().len());
    assert(b.len() == b.to_multiset().len());
    if a.len() == 0 {
        assert(folded_as(a, p) =~= folded_as(b, p));
    } else {
        let n = a.len() - 1;
        let x = a[n];
        assert(a.contains(x));
        assert(a.to_multiset().count(x) > 0);
        assert(b.contains(x));
        let j = choose|j: int| 0 <= j < b.len() && b[j] == x;
        assert(a.remove(n).to_multiset() =~= b.remove(j).to_multiset());
        lemma_folded_as_permuted(a.remove(n), b.remove(j), p);
        assert(folded_as(a, p).remove(n) =~= folded_as(a.remove(n), p));
        assert(folded_as(b, p).remove(j) =~= folded_as(b.remove(j), p));
        assert(folded_as(a, p)[n] == folded_as(b, p)[j]);
        let fa = folded_as(a, p).to_multiset();
        let fb = folded_as(b, p).to_multiset();
        let y = folded_as(a, p)[n];
        assert(folded_as(a, p).contains(y));
        assert(folded_as(b, p).contains(y));
        assert(fa =~= fa.remove(y).insert(y));
        assert(fb =~= fb.remove(y).insert(y));
    }
}

/// Only keyless addresses are born of replies.
proof fn lemma_replies_bear_keyless(
    replies: Seq<(Seq<u8>, TransactionReply)>,
    p: ProfileSpec,
)
    ensures
        born_keyless(folded_as(replies, p)),
{
    let txs = folded_as(replies, p);
    assert forall|e: Seq<u8>, b: BirthSpec| #[trigger] born_in(txs, e, b) implies off_curve(e) by {
        let tx = choose|tx: (Seq<u8>, RecognizedSpec)| #[trigger]
            txs.contains(tx) && tx.1.births.contains((e, b));
        let i = choose|i: int| 0 <= i < txs.len() && txs[i] == tx;
        let reply = replies[i].1;
        let j = choose|j: int| 0 <= j < tx.1.births.len() && tx.1.births[j] == (e, b);
        assert(tx.1 == recognized_in(reply, p));
        born_escrows_are_keyless(parse_of(reply)->0, roots_of(p));
        assert(off_curve(tx.1.births[j].0));
    }
}

/// Ingesting again restores the index: from the same state, the same transactions
/// in another order come to the same book, the same births, the same signatures and
/// the same count of anomalies. Every ingest is answered `Applied`, in both orders,
/// and the book refuses nothing in one of them. An escrow that is born in two ways
/// keeps the last, so such transactions are left out.
pub proof fn ingesting_again_restores_the_index(
    s: CertifiedSpec,
    a: Seq<(Seq<u8>, TransactionReply)>,
    b: Seq<(Seq<u8>, TransactionReply)>,
    p: ProfileSpec,
)
    requires
        a.to_multiset() == b.to_multiset(),
        births_keyless(s),
        births_agree(s, folded_as(a, p)),
        all_answered_applied(s, a, p),
        all_answered_applied(s, b, p),
        none_refused(s, folded_as(a, p)),
    ensures
        all_ingested(s, a, p).book == all_ingested(s, b, p).book,
        all_ingested(s, a, p).births == all_ingested(s, b, p).births,
        all_ingested(s, a, p).applied == all_ingested(s, b, p).applied,
        all_ingested(s, a, p).anomalies == all_ingested(s, b, p).anomalies,
{
    lemma_ingested_is_folded(s, a, p);
    lemma_ingested_is_folded(s, b, p);
    lemma_folded_as_permuted(a, b, p);
    lemma_replies_bear_keyless(a, p);
    folds_do_not_depend_on_the_order(s, folded_as(a, p), folded_as(b, p));
}

} // verus!
