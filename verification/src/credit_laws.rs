//! What a fold is for: the right donor is credited the right sum, births are kept as
//! they were found, and the answer says what was done.

use crate::bytes::{field32, field_u64, lemma_lex_irreflexive, lex_lt};
use crate::certified::{
    birth_in, births_branch, book_branch, capped, key_of, BirthSpec, CertifiedSpec,
};
use crate::config::{roots_of, ProfileSpec};
use crate::derive::{derived_at, derived_from, on_curve, program_address};
use crate::parse::{is_reverted, parse_of, Encoding, TransactionReply};
use crate::recognize::{scan_of, RecognizedSpec};
use crate::reduce::SettledSpec;
use crate::rpc::{
    cluster_of, is_request, CommitmentLevel, ConsensusStrategy, Request, RpcSources,
};
use crate::state::{
    before_settlements, fold_of, keyless_payers, proves_birth, proves_reputation, refused,
    with_births, with_settlements, Applied, Folded,
};
use crate::state_laws::{births_leave_the_book, settlements_leave_the_births};
use crate::tree::{
    discloses, fork_digest, is_predecessor, is_successor, labeled_digest, Witness,
};
use crate::{
    finish_of, free_answer, page_limit, IngestResult, MAX_BIRTHS_PAGE, MAX_BOOK_PAGE,
    MAX_SIGNATURE_LEN,
};
use vstd::bytes::{
    lemma_auto_spec_u64_to_from_le_bytes, spec_u128_to_le_bytes, spec_u64_to_le_bytes,
};
use vstd::prelude::*;
use vstd::string::*;

verus! {

// ----- the book -----

/// A book key is the chain, the donor and the recipient, in this order: different
/// triples have different keys.
pub proof fn a_book_key_is_its_three_parts(
    chain: Seq<u8>,
    donor: Seq<u8>,
    recipient: Seq<u8>,
)
    requires
        chain.len() == 32,
        donor.len() == 32,
        recipient.len() == 32,
    ensures
        key_of(chain, donor, recipient).len() == 96,
        key_of(chain, donor, recipient).subrange(0, 32) == chain,
        key_of(chain, donor, recipient).subrange(32, 64) == donor,
        key_of(chain, donor, recipient).subrange(64, 96) == recipient,
{
    let k = key_of(chain, donor, recipient);
    assert(k.subrange(0, 32) =~= chain);
    assert(k.subrange(32, 64) =~= donor);
    assert(k.subrange(64, 96) =~= recipient);
}

/// A settlement adds its gross to the reputation of its donor with its recipient, and
/// to no other; it is refused exactly where the sum does not fit.
pub proof fn a_settlement_adds_its_gross(s: CertifiedSpec, ev: SettledSpec, other: Seq<u8>)
    ensures
        ({
            let key = ev.chain + ev.donor + ev.recipient;
            &&& s.settled(ev) is None <==> s.reputation(key) + ev.gross > u128::MAX
            &&& s.settled(ev) matches Some(t) ==> {
                &&& t.book.contains_key(key)
                &&& t.reputation(key) == s.reputation(key) + ev.gross
                &&& other != key ==> t.reputation(other) == s.reputation(other)
                &&& other != key ==> (t.book.contains_key(other) <==> s.book.contains_key(other))
                &&& t.births == s.births
                &&& t.applied == s.applied
                &&& t.anomalies == s.anomalies
            }
        }),
{
}

/// A payment of an escrow whose birth is recorded is its donor's, any other the
/// payer's own; nothing but the donor changes.
pub proof fn attribution_changes_the_donor_alone(s: CertifiedSpec, ev: SettledSpec)
    ensures
        s.births.contains_key(ev.donor) ==> s.attributed(ev).donor == s.births[ev.donor].donor,
        !s.births.contains_key(ev.donor) ==> s.attributed(ev).donor == ev.donor,
        s.attributed(ev).chain == ev.chain,
        s.attributed(ev).recipient == ev.recipient,
        s.attributed(ev).gross == ev.gross,
{
}

/// A payer is keyless where no private key can exist for it: where it is off the
/// curve.
pub proof fn a_payer_is_keyless_off_the_curve(settlements: Seq<SettledSpec>, i: int)
    requires
        0 <= i < settlements.len(),
    ensures
        keyless_payers(settlements).len() == settlements.len(),
        keyless_payers(settlements)[i] <==> !on_curve(settlements[i].donor),
{
}

// ----- the fold -----

/// A transaction is refused for an unknown birth exactly where it was not folded in
/// yet and some keyless payer is born neither before nor in the transaction.
pub proof fn refused_exactly_for_an_unknown_birth(
    s: CertifiedSpec,
    signature: Seq<u8>,
    r: RecognizedSpec,
    keyless: Seq<bool>,
)
    ensures
        fold_of(s, signature, r, keyless).1 is Duplicate <==> s.applied.contains(signature),
        fold_of(s, signature, r, keyless).1 is UnknownBirth <==> {
            &&& !s.applied.contains(signature)
            &&& exists|i: int|
                {
                    &&& 0 <= i < r.settlements.len()
                    &&& keyless[i]
                    &&& !s.births.contains_key((#[trigger] r.settlements[i]).donor)
                    &&& forall|j: int|
                        0 <= j < r.births.len() ==> (#[trigger] r.births[j]).0
                            != r.settlements[i].donor
                }
        },
{
}

/// Where nothing is refused, every settlement is folded in and none is an anomaly.
proof fn lemma_anomalies_kept(s: CertifiedSpec, settlements: Seq<SettledSpec>)
    ensures
        refused(s, settlements) <= settlements.len(),
        with_settlements(s, settlements).anomalies == if s.anomalies + refused(s, settlements)
            <= u64::MAX {
            s.anomalies + refused(s, settlements)
        } else {
            u64::MAX as int
        },
    decreases settlements.len(),
{
    if settlements.len() > 0 {
        lemma_anomalies_kept(s, settlements.drop_last());
    }
}

/// The answer says what was done: as many settlements as there are but for those the
/// book refuses, as many births as there are, and as many anomalies as were found and
/// refused; and the state counts the same anomalies on top of those it had.
pub proof fn a_fold_answers_what_it_did(
    s: CertifiedSpec,
    signature: Seq<u8>,
    r: RecognizedSpec,
    keyless: Seq<bool>,
)
    requires
        fold_of(s, signature, r, keyless).1 is Applied,
        r.settlements.len() <= u64::MAX,
        r.births.len() <= u64::MAX,
        s.anomalies + r.anomalies + r.settlements.len() <= u64::MAX,
    ensures
        ({
            let lost = refused(before_settlements(s, r), r.settlements);
            let t = fold_of(s, signature, r, keyless).0;
            &&& lost <= r.settlements.len()
            &&& fold_of(s, signature, r, keyless).1 == Folded::Applied(
                Applied {
                    settlements: (r.settlements.len() - lost) as u64,
                    births: r.births.len() as u64,
                    anomalies: (r.anomalies + lost) as u64,
                },
            )
            &&& t.anomalies == s.anomalies + r.anomalies + lost
        }),
{
    let ready = before_settlements(s, r);
    births_leave_the_book(s.with_anomalies(r.anomalies), r.births);
    lemma_anomalies_kept(ready, r.settlements);
}

/// Births are kept as they were found, and no other birth changes.
proof fn lemma_births_kept(
    s: CertifiedSpec,
    births: Seq<(Seq<u8>, BirthSpec)>,
    i: int,
    other: Seq<u8>,
)
    ensures
        0 <= i < births.len() && (forall|j: int|
            i < j < births.len() ==> (#[trigger] births[j]).0 != births[i].0) ==> {
            &&& with_births(s, births).births.contains_key(births[i].0)
            &&& with_births(s, births).births[births[i].0] == births[i].1
        },
        (forall|j: int| 0 <= j < births.len() ==> (#[trigger] births[j]).0 != other) ==> {
            &&& with_births(s, births).births.contains_key(other) <==> s.births.contains_key(other)
            &&& s.births.contains_key(other) ==> with_births(s, births).births[other]
                == s.births[other]
        },
    decreases births.len(),
{
    if births.len() > 0 {
        let before = births.drop_last();
        lemma_births_kept(s, before, i, other);
        assert(births[births.len() - 1] == births.last());
        if forall|j: int| 0 <= j < births.len() ==> (#[trigger] births[j]).0 != other {
            assert forall|j: int| 0 <= j < before.len() implies (#[trigger] before[j]).0
                != other by {
                assert(births[j].0 != other);
            }
        }
        if 0 <= i < before.len() && (forall|j: int|
            i < j < births.len() ==> (#[trigger] births[j]).0 != births[i].0) {
            assert forall|j: int| i < j < before.len() implies (#[trigger] before[j]).0
                != before[i].0 by {
                assert(births[j].0 != births[i].0);
            }
            assert(births[births.len() - 1].0 != births[i].0);
        }
    }
}

/// A fold records the births of its transaction, the last of each escrow, and leaves
/// every other as it was.
pub proof fn a_fold_records_its_births(
    s: CertifiedSpec,
    signature: Seq<u8>,
    r: RecognizedSpec,
    keyless: Seq<bool>,
    i: int,
    other: Seq<u8>,
)
    requires
        fold_of(s, signature, r, keyless).1 is Applied,
        0 <= i < r.births.len() ==> forall|j: int|
            i < j < r.births.len() ==> (#[trigger] r.births[j]).0 != r.births[i].0,
        forall|j: int| 0 <= j < r.births.len() ==> (#[trigger] r.births[j]).0 != other,
    ensures
        ({
            let t = fold_of(s, signature, r, keyless).0;
            &&& 0 <= i < r.births.len() ==> t.births.contains_key(r.births[i].0)
                && t.births[r.births[i].0] == r.births[i].1
            &&& t.births.contains_key(other) <==> s.births.contains_key(other)
            &&& s.births.contains_key(other) ==> t.births[other] == s.births[other]
        }),
{
    lemma_births_kept(s.with_anomalies(r.anomalies), r.births, i, other);
    settlements_leave_the_births(before_settlements(s, r), r.settlements);
}

/// One donation of a wallet: where a transaction holds one settlement, its payer can
/// hold a key and was not born as an escrow, and the sum fits, then the fold answers
/// one settlement, the payer is credited the gross with the recipient, and no other
/// reputation moves.
pub proof fn a_donation_is_credited(
    s: CertifiedSpec,
    signature: Seq<u8>,
    r: RecognizedSpec,
    other: Seq<u8>,
)
    requires
        !s.applied.contains(signature),
        r.settlements.len() == 1,
        r.births.len() == 0,
        r.anomalies == 0,
        on_curve(r.settlements[0].donor),
        !s.births.contains_key(r.settlements[0].donor),
        s.reputation(
            r.settlements[0].chain + r.settlements[0].donor + r.settlements[0].recipient,
        ) + r.settlements[0].gross <= u128::MAX,
    ensures
        ({
            let ev = r.settlements[0];
            let key = ev.chain + ev.donor + ev.recipient;
            let (t, answer) = fold_of(s, signature, r, keyless_payers(r.settlements));
            &&& answer == Folded::Applied(Applied { settlements: 1, births: 0, anomalies: 0 })
            &&& t.reputation(key) == s.reputation(key) + ev.gross
            &&& other != key ==> t.reputation(other) == s.reputation(other)
            &&& signature.len() > 0 ==> t.applied == s.applied.insert(signature)
            &&& t.births == s.births
        }),
{
    reveal_with_fuel(with_settlements, 2);
    reveal_with_fuel(refused, 2);
    let ev = r.settlements[0];
    assert(r.settlements.drop_last() =~= Seq::<SettledSpec>::empty());
    assert(before_settlements(s, r) == s);
    assert(s.attributed(ev) == ev);
}

/// One payment of an escrow: as a donation of the wallet that funded it.
pub proof fn an_escrow_payment_is_credited_to_its_donor(
    s: CertifiedSpec,
    signature: Seq<u8>,
    r: RecognizedSpec,
    other: Seq<u8>,
)
    requires
        !s.applied.contains(signature),
        r.settlements.len() == 1,
        r.births.len() == 0,
        r.anomalies == 0,
        s.births.contains_key(r.settlements[0].donor),
        s.reputation(
            r.settlements[0].chain + s.births[r.settlements[0].donor].donor
                + r.settlements[0].recipient,
        ) + r.settlements[0].gross <= u128::MAX,
    ensures
        ({
            let ev = r.settlements[0];
            let key = ev.chain + s.births[ev.donor].donor + ev.recipient;
            let (t, answer) = fold_of(s, signature, r, keyless_payers(r.settlements));
            &&& answer == Folded::Applied(Applied { settlements: 1, births: 0, anomalies: 0 })
            &&& t.reputation(key) == s.reputation(key) + ev.gross
            &&& other != key ==> t.reputation(other) == s.reputation(other)
        }),
{
    reveal_with_fuel(with_settlements, 2);
    reveal_with_fuel(refused, 2);
    assert(r.settlements.drop_last() =~= Seq::<SettledSpec>::empty());
    assert(before_settlements(s, r) == s);
}

// ----- the ingest -----

/// Transactions are recognized by the roots of the profile: its own chain, splitter,
/// mint, factories and floor.
pub proof fn recognition_goes_by_the_profile(p: ProfileSpec)
    ensures
        roots_of(p).chain == p.chain_id,
        roots_of(p).splitter == p.splitter,
        roots_of(p).usdc == p.usdc,
        roots_of(p).factories == p.factories,
        roots_of(p).min_gross == p.min_gross,
{
}

/// Every transaction that executed before the boundary and can be read is folded as
/// what is recognized in it, and answered as the fold is; what was folded in already is
/// a duplicate.
pub proof fn an_executed_transaction_is_folded(
    s: CertifiedSpec,
    signature: Seq<u8>,
    reply: TransactionReply,
    p: ProfileSpec,
)
    requires
        p.cutover_slot is None || reply.slot < p.cutover_slot->0,
        !is_reverted(reply),
        parse_of(reply) is Some,
    ensures
        ({
            let r = scan_of(parse_of(reply)->0, roots_of(p)).recognized();
            let (t, folded) = fold_of(s, signature, r, keyless_payers(r.settlements));
            let (u, answer) = finish_of(s, signature, Some(reply), p);
            &&& u == t
            &&& folded matches Folded::Applied(a) ==> answer == (IngestResult::Applied {
                settlements: a.settlements,
                births: a.births,
                anomalies: a.anomalies,
            })
            &&& folded is Duplicate ==> answer == IngestResult::Duplicate
            &&& folded is UnknownBirth ==> answer == IngestResult::UnknownBirth
        }),
{
}

/// A transaction is past the boundary exactly where there is one and its slot is not
/// below it; one that can't be read, or is not there, is not found.
pub proof fn an_ingest_is_answered_by_what_came_back(
    s: CertifiedSpec,
    signature: Seq<u8>,
    reply: Option<TransactionReply>,
    p: ProfileSpec,
)
    ensures
        finish_of(s, signature, reply, p).1 == IngestResult::AfterCutover <==> reply is Some
            && p.cutover_slot is Some && reply->0.slot >= p.cutover_slot->0,
        finish_of(s, signature, reply, p).1 == IngestResult::NotFound <==> {
            ||| reply is None
            ||| !(p.cutover_slot is Some && reply->0.slot >= p.cutover_slot->0) && !is_reverted(
                reply->0,
            ) && parse_of(reply->0) is None
        },
{
}

/// The first check that fails gives the answer: too long, then already folded in, then
/// underpaid, then a low balance, then empty. Only where none fails is there no answer.
pub proof fn the_first_check_that_fails_answers(
    s: CertifiedSpec,
    signature: Seq<u8>,
    attached: u128,
    balance: u128,
    p: ProfileSpec,
)
    ensures
        ({
            let answer = free_answer(s, signature, attached, balance, p);
            let folded = s.applied.contains(signature);
            &&& signature.len() > 88 ==> answer == Some(IngestResult::NotFound)
            &&& signature.len() <= 88 && folded ==> answer == Some(IngestResult::Duplicate)
            &&& signature.len() <= 88 && !folded && attached < p.ingest_price ==> answer == Some(
                IngestResult::Underpaid,
            )
            &&& signature.len() <= 88 && !folded && attached >= p.ingest_price && balance
                < p.cycle_floor ==> answer == Some(IngestResult::LowBalance)
            &&& signature.len() == 0 && !folded && attached >= p.ingest_price && balance
                >= p.cycle_floor ==> answer == Some(IngestResult::NotFound)
            &&& 0 < signature.len() <= 88 && !folded && attached >= p.ingest_price && balance
                >= p.cycle_floor ==> answer is None
        }),
{
    assert(MAX_SIGNATURE_LEN == 88);
}

/// A request asks for its own signature: finalized, in base58, v0 accepted, the
/// response capped, and as many of the queried providers agreeing as the profile pins.
pub proof fn a_request_asks_as_the_profile_pins(r: Request, signature: Seq<char>, p: ProfileSpec)
    requires
        is_request(r, signature, p),
        p.rpc_providers <= 255,
    ensures
        r.params.signature@ == signature,
        r.params.commitment == Some(CommitmentLevel::Finalized),
        r.params.encoding == Some(Encoding::Base58),
        r.params.max_supported_transaction_version == Some(0u8),
        r.sources == RpcSources::Default(cluster_of(p.cluster)),
        r.config.response_size_estimate == Some(p.response_max_bytes),
        r.config.response_consensus matches Some(ConsensusStrategy::Threshold { total, min })
            && total matches Some(n) && n == p.rpc_providers && min == p.consensus,
{
}

// ----- reads -----

/// A page is as long as was asked for, within one and the largest: 10,000 births, or
/// 5,000 entries of the book.
pub proof fn a_page_is_as_long_as_was_asked_for(limit: u32)
    ensures
        1 <= limit <= 10_000 ==> page_limit(limit, MAX_BIRTHS_PAGE) == limit,
        1 <= limit <= 5_000 ==> page_limit(limit, MAX_BOOK_PAGE) == limit,
        limit > 10_000 ==> page_limit(limit, MAX_BIRTHS_PAGE) == 10_000,
        limit > 5_000 ==> page_limit(limit, MAX_BOOK_PAGE) == 5_000,
        limit == 0 ==> page_limit(limit, MAX_BIRTHS_PAGE) == 1 && page_limit(limit, MAX_BOOK_PAGE)
            == 1,
{
}

/// A birth reads back from its leaf: the donor, then the slot in little-endian.
pub proof fn a_birth_leaf_reads_back(donor: Seq<u8>, slot: u64)
    requires
        donor.len() == 32,
    ensures
        (donor + spec_u64_to_le_bytes(slot)).len() == 40,
        birth_in(donor + spec_u64_to_le_bytes(slot)) == (BirthSpec { donor, slot }),
{
    lemma_auto_spec_u64_to_from_le_bytes();
    let leaf = donor + spec_u64_to_le_bytes(slot);
    assert(leaf.subrange(0, 32) =~= donor);
    assert(leaf.subrange(32, 40) =~= spec_u64_to_le_bytes(slot));
}

/// The first difference decides the order of two byte strings; where there is none, the
/// shorter comes first.
pub proof fn the_first_difference_decides(a: Seq<u8>, b: Seq<u8>, n: nat)
    requires
        n <= a.len(),
        n <= b.len(),
        forall|i: int| 0 <= i < n ==> a[i] == b[i],
    ensures
        n < a.len() && n < b.len() && a[n as int] != b[n as int] ==> (lex_lt(a, b) <==> a[n as int]
            < b[n as int]),
        n == a.len() ==> (lex_lt(a, b) <==> a.len() < b.len()),
        n == b.len() ==> !lex_lt(a, b),
    decreases n,
{
    if n > 0 {
        assert forall|i: int| 0 <= i < n - 1 implies a.drop_first()[i] == b.drop_first()[i] by {
            assert(a[i + 1] == b[i + 1]);
        }
        the_first_difference_decides(a.drop_first(), b.drop_first(), (n - 1) as nat);
    }
}

/// The certified root is a fork of the book and the births, each under its label.
pub proof fn the_root_is_the_book_and_the_births(s: CertifiedSpec)
    ensures
        s.root() == fork_digest(
            labeled_digest("book".spec_bytes(), s.book_shape.subtree_digest()),
            labeled_digest("births".spec_bytes(), s.births_shape.subtree_digest()),
        ),
{
}

/// What proves a reputation is a hash tree in its CBOR form that reconstructs to the
/// certified root: its book branch discloses the key, its births branch is pruned.
pub proof fn a_proof_of_reputation_reconstructs_the_root(
    s: CertifiedSpec,
    bytes: Seq<u8>,
    key: Seq<u8>,
)
    requires
        proves_reputation(s, bytes, key),
    ensures
        exists|sub: Witness|
            {
                let w = #[trigger] book_branch(sub, s.births_leaf());
                &&& bytes == w.cbor()
                &&& w.digest() == s.root()
                &&& s.book.contains_key(key) ==> sub.labels() == Map::<
                    Seq<u8>,
                    Witness,
                >::empty().insert(key, Witness::Leaf(spec_u128_to_le_bytes(s.book[key])))
                &&& !s.book.contains_key(key) ==> !sub.labels().contains_key(key)
            },
{
    let w = choose|w: Witness| #[trigger]
        s.is_book_witness(w, key) && w.digest() == s.root() && bytes == w.cbor();
    let m = s.book.map_values(|v: u128| spec_u128_to_le_bytes(v));
    let sub = choose|sub: Witness|
        {
            &&& w == #[trigger] book_branch(sub, s.births_leaf())
            &&& sub.digest() == s.book_shape.subtree_digest()
            &&& discloses(sub, m, key)
        };
    assert(w == book_branch(sub, s.births_leaf()));
    if !m.contains_key(key) {
        lemma_lex_irreflexive(key);
        assert(!is_predecessor(m, key, key) && !is_successor(m, key, key));
        assert(sub.labels().contains_key(key) <==> is_predecessor(m, key, key)
            || is_successor(m, key, key));
    }
}

/// What proves a birth, likewise: its births branch discloses the escrow, its book
/// branch is pruned.
pub proof fn a_proof_of_birth_reconstructs_the_root(
    s: CertifiedSpec,
    bytes: Seq<u8>,
    escrow: Seq<u8>,
)
    requires
        proves_birth(s, bytes, escrow),
    ensures
        exists|sub: Witness|
            {
                let w = #[trigger] births_branch(s.book_leaf(), sub);
                &&& bytes == w.cbor()
                &&& w.digest() == s.root()
                &&& s.births.contains_key(escrow) ==> sub.labels() == Map::<
                    Seq<u8>,
                    Witness,
                >::empty().insert(
                    escrow,
                    Witness::Leaf(
                        s.births[escrow].donor + spec_u64_to_le_bytes(s.births[escrow].slot),
                    ),
                )
                &&& !s.births.contains_key(escrow) ==> !sub.labels().contains_key(escrow)
            },
{
    let w = choose|w: Witness| #[trigger]
        s.is_birth_witness(w, escrow) && w.digest() == s.root() && bytes == w.cbor();
    let m = s.births.map_values(|b: BirthSpec| b.donor + spec_u64_to_le_bytes(b.slot));
    let sub = choose|sub: Witness|
        {
            &&& w == #[trigger] births_branch(s.book_leaf(), sub)
            &&& sub.digest() == s.births_shape.subtree_digest()
            &&& discloses(sub, m, escrow)
        };
    assert(w == births_branch(s.book_leaf(), sub));
    if !m.contains_key(escrow) {
        lemma_lex_irreflexive(escrow);
        assert(!is_predecessor(m, escrow, escrow) && !is_successor(m, escrow, escrow));
        assert(sub.labels().contains_key(escrow) <==> is_predecessor(m, escrow, escrow)
            || is_successor(m, escrow, escrow));
    }
}

// ----- derived addresses -----

/// The greatest bump that leaves the curve gives the address: where a bump does and no
/// greater one does, the address is the digest of that bump; where none from 255 down
/// to 1 does, or a seed is too long, there is none.
pub proof fn the_greatest_bump_off_the_curve_wins(
    program: Seq<u8>,
    first: Seq<u8>,
    second: Seq<u8>,
    bump: u8,
)
    requires
        first.len() <= 32,
        second.len() <= 32,
        forall|b: u8| bump < b ==> on_curve(#[trigger] derived_at(program, first, second, b)),
    ensures
        bump > 0 && !on_curve(derived_at(program, first, second, bump)) ==> program_address(
            program,
            first,
            second,
        ) == Some(derived_at(program, first, second, bump)),
        bump == 0 ==> program_address(program, first, second) is None,
{
    lemma_from(program, first, second, bump, 255);
}

/// Bumps on the curve are passed over.
proof fn lemma_from(program: Seq<u8>, first: Seq<u8>, second: Seq<u8>, bump: u8, top: u8)
    requires
        bump <= top,
        forall|b: u8| bump < b ==> on_curve(#[trigger] derived_at(program, first, second, b)),
    ensures
        derived_from(program, first, second, top) == derived_from(program, first, second, bump),
    decreases top,
{
    if bump < top {
        assert(on_curve(derived_at(program, first, second, top)));
        lemma_from(program, first, second, bump, (top - 1) as u8);
    }
}

// ----- counts and fields -----

/// A count is exact up to the greatest that fits, and stays there.
pub proof fn a_count_saturates(n: nat)
    ensures
        n <= 0xffff_ffff_ffff_ffff ==> capped(n) == n,
        n > 0xffff_ffff_ffff_ffff ==> capped(n) == 0xffff_ffff_ffff_ffff,
{
}

/// A field reads back from where it was written, and there is none where the bytes end
/// before it does.
pub proof fn a_field_reads_back(
    front: Seq<u8>,
    address: Seq<u8>,
    n: u64,
    rest: Seq<u8>,
    d: Seq<u8>,
    off: int,
)
    requires
        address.len() == 32,
        off >= 0,
    ensures
        field32(front + address + rest, front.len() as int) == Some(address),
        field_u64(front + spec_u64_to_le_bytes(n) + rest, front.len() as int) == Some(n),
        field32(d, off) is None <==> d.len() < off + 32,
        field_u64(d, off) is None <==> d.len() < off + 8,
{
    lemma_auto_spec_u64_to_from_le_bytes();
    let f = front.len() as int;
    assert((front + address + rest).subrange(f, f + 32) =~= address);
    assert((front + spec_u64_to_le_bytes(n) + rest).subrange(f, f + 8) =~= spec_u64_to_le_bytes(n));
}

} // verus!
