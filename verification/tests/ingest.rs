//! Paid ingests from end to end, with the outcall played by a canned reply.

use crown_indexer::bytes::Address;
use crown_indexer::certified::Certified;
use crown_indexer::config::{Profile, EXECUTION_RESERVE};
use crown_indexer::derive::solana_is_off_curve;
use crown_indexer::parse::{
    pick_consistent, EncodedTransaction, EncodedTxWithMeta, Encoding, GetTransactionResult,
    MultiGetTransactionResult, TransactionReply, TxMeta, TxStatus,
};
use crown_indexer::profile::bake;
use crown_indexer::tree::TreeHash;
use crown_indexer::{
    begin_ingest, finish_ingest, get_anomaly_count, get_applied_count, get_birth,
    get_births_page, get_book_page, get_certificate, get_reputation, get_state_stats, to32, Begin,
    BirthEntry, BookEntry, IngestResult, MAX_BIRTHS_PAGE, MAX_BOOK_PAGE,
};
use solana_program::instruction::{AccountMeta, Instruction as SolIx};
use solana_program::message::Message as SolMessage;
use solana_program::pubkey::Pubkey;

/// SPL Token program id and Anchor's `emit_cpi!` tag — the recognition anchors.
const TOKEN_PROGRAM: [u8; 32] = [
    6, 221, 246, 225, 215, 101, 161, 147, 217, 203, 225, 70, 206, 235, 121, 172, 28, 180, 133, 237,
    95, 91, 55, 145, 58, 140, 245, 133, 126, 255, 0, 169,
];
const EVENT_IX_TAG: [u8; 8] = [0xe4, 0x45, 0xa5, 0x2e, 0x51, 0xcb, 0x9a, 0x1d];

/// A donor address a private key could exist for.
const WALLET_DONOR: [u8; 32] = [1u8; 32];

const PLENTY: u128 = 4_000_000_000_000;

fn profile(cutover_slot: u64) -> Profile {
    let address = |b: u8| bs58::encode([b; 32]).into_string();
    let text = format!(
        "ingest_price = 13_700_000_000\nmin_gross = 200_000\ncycle_floor = 1_000_000_000_000\n\
         attach_cycles = 12_000_000_000\nresponse_max_bytes = 32_768\nconsensus = 3\n\
         rpc_nodes = 34\nrpc_request_bytes = 1_000\nrpc_providers = 5\n\
         cutover_slot = {cutover_slot}\nid = \"devnet\"\nsplitter = \"{}\"\nusdc = \"{}\"\n\
         factories = [\"{}\", \"{}\"]\n",
        address(71),
        address(72),
        address(73),
        address(74)
    );
    bake("testnet", &text).expect("coherent")
}

/// An index, the balance it has, the calls it made and the root it published.
struct Index {
    state: Certified,
    profile: Profile,
    balance: u128,
    calls: u64,
    last_cap: Option<u64>,
    published: TreeHash,
}

impl Index {
    fn new(profile: Profile) -> Index {
        let state = Certified::new();
        let published = state.combined_root();
        Index {
            state,
            profile,
            balance: PLENTY,
            calls: 0,
            last_cap: None,
            published,
        }
    }

    fn ingest_with(
        &mut self,
        signature: &str,
        cycles: u128,
        reply: MultiGetTransactionResult,
    ) -> IngestResult {
        match begin_ingest(&self.state, signature, cycles, self.balance, &self.profile) {
            Begin::Answer(a) => a,
            Begin::Fetch {
                accept,
                attach,
                request,
            } => {
                assert!(accept <= cycles);
                assert!(attach + EXECUTION_RESERVE <= accept);
                assert_eq!(request.params.signature, signature);
                self.balance += accept;
                self.calls += 1;
                self.last_cap = request.config.response_size_estimate;
                let (answer, root) = finish_ingest(
                    &mut self.state,
                    signature,
                    pick_consistent(reply),
                    &self.profile,
                );
                if let Some(root) = root {
                    self.published = root;
                }
                // What is published is what every witness reconstructs to.
                assert_eq!(self.published, self.state.combined_root());
                answer
            }
        }
    }

    fn ingest(&mut self, signature: &str, reply: MultiGetTransactionResult) -> IngestResult {
        let cycles = self.profile.ingest_price * 3;
        self.ingest_with(signature, cycles, reply)
    }

    fn reputation(&self, donor: Address, recipient: Address) -> u128 {
        let (value, witness) = get_reputation(
            &self.state,
            self.profile.chain_id.to_vec(),
            donor.to_vec(),
            recipient.to_vec(),
        );
        assert!(!witness.is_empty());
        value
    }
}

fn index() -> Index {
    Index::new(profile(0))
}

/// SPL `TransferChecked`, accounts `[source, mint, dest, authority]`.
fn transfer_ix(p: &Profile, amount: u64, authority: Pubkey) -> SolIx {
    let mut data = vec![12u8];
    data.extend_from_slice(&amount.to_le_bytes());
    data.push(6); // decimals
    SolIx {
        program_id: Pubkey::new_from_array(TOKEN_PROGRAM),
        accounts: vec![
            AccountMeta::new(Pubkey::new_unique(), false),
            AccountMeta::new_readonly(Pubkey::new_from_array(p.usdc), false),
            AccountMeta::new(Pubkey::new_unique(), false),
            AccountMeta::new_readonly(authority, true),
        ],
        data,
    }
}

/// A `Settled` event-CPI from the pinned splitter: tag ‖ disc ‖ borsh fields.
fn settled_ix(p: &Profile, donor: Address, recipient: Address, gross: u64) -> SolIx {
    let mut data = Vec::new();
    data.extend_from_slice(&EVENT_IX_TAG);
    data.extend_from_slice(&crown_indexer::recognize::anchor_disc("event", "Settled"));
    data.extend_from_slice(&donor);
    data.extend_from_slice(&recipient);
    data.extend_from_slice(&gross.to_le_bytes());
    SolIx {
        program_id: Pubkey::new_from_array(p.splitter),
        accounts: vec![],
        data,
    }
}

/// A `create_escrow` of the first pinned factory, with the escrow account set to
/// the PDA that factory really derives for `salt`.
fn create_escrow_ix(p: &Profile, donor: Pubkey, salt: [u8; 32]) -> (SolIx, Address) {
    let factory = Pubkey::new_from_array(p.factories[0]);
    let (escrow, _bump) = Pubkey::find_program_address(&[b"escrow", &salt], &factory);
    let mut data = Vec::new();
    data.extend_from_slice(&crown_indexer::recognize::anchor_disc(
        "global",
        "create_escrow",
    ));
    data.extend_from_slice(&salt); // 8..40 — the first arg of every form
    data.extend_from_slice(&[0u8; 32]); // recipient
    data.extend_from_slice(&1_000_000u64.to_le_bytes()); // gross (not read)
    let ix = SolIx {
        program_id: factory,
        accounts: vec![AccountMeta::new(donor, true), AccountMeta::new(escrow, false)],
        data,
    };
    (ix, escrow.to_bytes())
}

fn consistent(reply: Option<TransactionReply>) -> MultiGetTransactionResult {
    MultiGetTransactionResult::Consistent(GetTransactionResult::Success(reply))
}

/// A canned reply carrying `ixs` at `slot`. `executed = false` makes it a reverted
/// transaction — read perfectly well, moved nothing.
fn canned(ixs: &[SolIx], payer: Pubkey, slot: u64, executed: bool) -> MultiGetTransactionResult {
    let msg = SolMessage::new(ixs, Some(&payer));
    let sigs = usize::from(msg.header.num_required_signatures);
    let mut raw = vec![sigs as u8];
    raw.extend(vec![0u8; sigs * 64]);
    raw.extend(msg.serialize());
    consistent(Some(TransactionReply {
        slot,
        transaction: EncodedTxWithMeta {
            meta: Some(TxMeta {
                status: if executed {
                    TxStatus::Success
                } else {
                    TxStatus::Failure
                },
                inner_instructions: None,
                loaded_addresses: None,
            }),
            transaction: EncodedTransaction::Binary(
                bs58::encode(raw).into_string(),
                Encoding::Base58,
            ),
        },
    }))
}

/// A direct-donation `Settled` plus its matching `TransferChecked`.
fn canned_response(
    p: &Profile,
    donor: Address,
    recipient: Address,
    gross: u64,
    slot: u64,
) -> MultiGetTransactionResult {
    let donor_pk = Pubkey::new_from_array(donor);
    canned(
        &[
            transfer_ix(p, gross, donor_pk),
            settled_ix(p, donor, recipient, gross),
        ],
        donor_pk,
        slot,
        true,
    )
}

#[test]
fn the_donor_fixture_is_a_possible_public_key() {
    assert!(
        !solana_is_off_curve(&WALLET_DONOR),
        "a direct donation comes from a wallet — this fixture must be on-curve"
    );
}

#[test]
fn unpaid_ingest_is_rejected_before_any_outcall() {
    let mut ix = index();
    let reply = canned_response(&ix.profile, WALLET_DONOR, [8u8; 32], 500_000, 1);
    let res = ix.ingest_with("anySignature", 0, reply);
    assert!(matches!(res, IngestResult::Underpaid), "got {res:?}");
    assert_eq!(ix.calls, 0);
    // Nothing was folded or marked applied.
    assert_eq!(get_applied_count(&ix.state), 0);
    assert_eq!(get_anomaly_count(&ix.state), 0);
}

#[test]
fn free_queries_answer_from_a_fresh_canister() {
    let s = Certified::new();
    // Reputation of an absent key is 0, but a witness is still returned.
    let zeros = vec![0u8; 32];
    let (value, witness) = get_reputation(&s, zeros.clone(), zeros.clone(), zeros.clone());
    assert_eq!(value, 0);
    assert!(!witness.is_empty(), "an absence proof is still a witness");
    let (birth, witness) = get_birth(&s, zeros);
    assert!(birth.is_none());
    assert!(!witness.is_empty());
    let (certificate, root) = get_certificate(&s, Some(vec![1, 2, 3]));
    assert_eq!(certificate, Some(vec![1, 2, 3]));
    assert_eq!(root, s.combined_root().to_vec());
    assert_eq!(root.len(), 32);
}

#[test]
fn paid_ingest_folds_a_settlement_into_reputation() {
    let mut ix = index();
    let donor = WALLET_DONOR;
    let recipient = [8u8; 32];
    let gross = 500_000u64;
    let reply = canned_response(&ix.profile, donor, recipient, gross, 123);

    let res = ix.ingest("sig-1", reply.clone());
    assert!(
        matches!(
            res,
            IngestResult::Applied {
                settlements: 1,
                births: 0,
                anomalies: 0
            }
        ),
        "expected one settlement, got {res:?}"
    );
    assert_eq!(ix.reputation(donor, recipient), u128::from(gross));

    // Exactly one outcall, and it carried the response cap.
    assert_eq!(ix.calls, 1);
    assert_eq!(ix.last_cap, Some(ix.profile.response_max_bytes));

    // Same signature again: duplicate, no work, no double-count.
    let dup = ix.ingest("sig-1", reply);
    assert!(matches!(dup, IngestResult::Duplicate), "got {dup:?}");
    assert_eq!(ix.reputation(donor, recipient), u128::from(gross));
    assert_eq!(ix.calls, 1, "a duplicate must not make another outcall");

    let stats = get_state_stats(&ix.state, 3);
    assert_eq!(stats.book_keys, 1);
    assert_eq!(stats.births, 0);
    assert_eq!(stats.heap_bytes, 196_608);
}

#[test]
fn an_underpaid_inter_canister_ingest_makes_no_outcall() {
    let mut ix = index();
    let reply = canned_response(&ix.profile, WALLET_DONOR, [8u8; 32], 500_000, 123);
    let price = ix.profile.ingest_price;

    let res = ix.ingest_with("sig-underpaid", price - 1, reply.clone());
    assert!(matches!(res, IngestResult::Underpaid), "got {res:?}");
    assert_eq!(ix.calls, 0, "no outcall before payment is accepted");
    assert_eq!(get_applied_count(&ix.state), 0);

    // And one cycle more is enough — the boundary is exactly the price.
    let ok = ix.ingest_with("sig-underpaid", price, reply);
    assert!(matches!(ok, IngestResult::Applied { .. }), "got {ok:?}");
    assert_eq!(ix.calls, 1);
}

#[test]
fn a_low_balance_is_refused_without_an_outcall() {
    let mut ix = index();
    let reply = canned_response(&ix.profile, WALLET_DONOR, [8u8; 32], 500_000, 123);
    ix.balance = ix.profile.cycle_floor - 1;
    let res = ix.ingest("sig", reply);
    assert!(matches!(res, IngestResult::LowBalance), "got {res:?}");
    assert_eq!(ix.calls, 0);
}

#[test]
fn a_reverted_transaction_is_retired_not_retried() {
    let mut ix = index();
    let donor = Pubkey::new_from_array(WALLET_DONOR);
    let reply = canned(
        &[
            transfer_ix(&ix.profile, 500_000, donor),
            settled_ix(&ix.profile, WALLET_DONOR, [8u8; 32], 500_000),
        ],
        donor,
        123,
        false, // reverted
    );

    let res = ix.ingest("sig-reverted", reply.clone());
    assert!(
        matches!(
            res,
            IngestResult::Applied {
                settlements: 0,
                births: 0,
                anomalies: 0
            }
        ),
        "a reverted transaction folds nothing, but is done with: got {res:?}"
    );
    assert_eq!(get_applied_count(&ix.state), 1);
    // Its `Settled` was never folded — the transaction reverted, so no money moved.
    assert_eq!(ix.reputation(WALLET_DONOR, [8u8; 32]), 0);

    // Free from here on, and no second outcall: exactly-once retired it.
    let again = ix.ingest("sig-reverted", reply);
    assert!(matches!(again, IngestResult::Duplicate), "got {again:?}");
    assert_eq!(ix.calls, 1);
}

#[test]
fn a_read_that_failed_keeps_the_payment_and_leaves_the_signature_foldable() {
    let mut ix = index();
    let donor = WALLET_DONOR;
    let recipient = [8u8; 32];
    let gross = 500_000u64;

    let not_found = consistent(None);
    let errored = MultiGetTransactionResult::Consistent(GetTransactionResult::Failure);
    for (attempt, reply) in [&not_found, &errored, &not_found, &errored, &not_found]
        .into_iter()
        .enumerate()
    {
        let before = ix.balance;
        let res = ix.ingest("sig-unreadable", reply.clone());
        assert!(matches!(res, IngestResult::NotFound), "got {res:?}");
        assert!(ix.balance > before, "a failed read keeps the price");
        assert_eq!(ix.calls, attempt as u64 + 1);
        // And it changed nothing.
        assert_eq!(get_applied_count(&ix.state), 0);
        assert_eq!(get_anomaly_count(&ix.state), 0);
    }

    // The transaction finally reads.
    let reply = canned_response(&ix.profile, donor, recipient, gross, 123);
    let res = ix.ingest("sig-unreadable", reply);
    assert!(
        matches!(res, IngestResult::Applied { settlements: 1, .. }),
        "five failed reads must not retire a signature: got {res:?}"
    );
    assert_eq!(ix.reputation(donor, recipient), u128::from(gross));
    assert_eq!(get_applied_count(&ix.state), 1);
}

#[test]
fn an_escrow_settlement_is_credited_to_its_funding_donor() {
    let mut ix = index();
    let donor = Pubkey::new_from_array(WALLET_DONOR);
    let recipient = [8u8; 32];
    let gross = 500_000u64;

    // 1. The birth: `create_escrow` from a pinned factory, escrow = the real PDA.
    let (birth_ix, escrow) = create_escrow_ix(&ix.profile, donor, [42u8; 32]);
    let res = ix.ingest("sig-birth", canned(&[birth_ix], donor, 100, true));
    assert!(
        matches!(
            res,
            IngestResult::Applied {
                settlements: 0,
                births: 1,
                anomalies: 0
            }
        ),
        "got {res:?}"
    );

    // The birth is queryable, and enumerable as the successor's seed.
    let (birth, witness) = get_birth(&ix.state, escrow.to_vec());
    let birth = birth.expect("the birth was recorded");
    assert_eq!(birth.donor, donor.to_bytes().to_vec());
    assert_eq!(birth.slot, 100);
    assert!(!witness.is_empty());

    let page = get_births_page(&ix.state, None, 10)
        .expect("a well-formed cursor answers with a page");
    assert_eq!(page.len(), 1);
    assert_eq!(page[0].escrow, escrow.to_vec());
    assert_eq!(page[0].donor, donor.to_bytes().to_vec());

    // 2. The settlement, a later slot, paid out *by the escrow*.
    let escrow_pk = Pubkey::new_from_array(escrow);
    let settle = canned(
        &[
            transfer_ix(&ix.profile, gross, escrow_pk),
            settled_ix(&ix.profile, escrow, recipient, gross),
        ],
        escrow_pk,
        200,
        true,
    );
    let res = ix.ingest("sig-settle", settle);
    assert!(
        matches!(res, IngestResult::Applied { settlements: 1, .. }),
        "got {res:?}"
    );

    // Credited to the human who funded the escrow, not to the escrow address.
    assert_eq!(ix.reputation(donor.to_bytes(), recipient), u128::from(gross));
    assert_eq!(ix.reputation(escrow, recipient), 0);
}

#[test]
fn a_settlement_that_outran_its_birth_is_refused_and_folds_after_it() {
    let mut ix = index();
    let donor = Pubkey::new_from_array(WALLET_DONOR);
    let recipient = [8u8; 32];
    let gross = 500_000u64;

    let (birth_ix, escrow) = create_escrow_ix(&ix.profile, donor, [42u8; 32]);
    let escrow_pk = Pubkey::new_from_array(escrow);
    let settle = canned(
        &[
            transfer_ix(&ix.profile, gross, escrow_pk),
            settled_ix(&ix.profile, escrow, recipient, gross),
        ],
        escrow_pk,
        200,
        true,
    );

    // 1. The settlement, ingested before the birth.
    let res = ix.ingest("sig-settle", settle.clone());
    assert!(matches!(res, IngestResult::UnknownBirth), "got {res:?}");

    // Nothing moved — not the book, not the counters, not `applied`.
    assert_eq!(ix.reputation(escrow, recipient), 0);
    assert_eq!(ix.reputation(donor.to_bytes(), recipient), 0);
    assert_eq!(get_applied_count(&ix.state), 0);
    assert_eq!(get_anomaly_count(&ix.state), 0);

    // Repeating it changes nothing either: a refusal is not a spent attempt.
    let again = ix.ingest("sig-settle", settle.clone());
    assert!(matches!(again, IngestResult::UnknownBirth), "got {again:?}");
    assert_eq!(get_applied_count(&ix.state), 0);

    // 2. The birth lands (an earlier slot, as it was on chain all along).
    let res = ix.ingest("sig-birth", canned(&[birth_ix], donor, 100, true));
    assert!(
        matches!(res, IngestResult::Applied { births: 1, .. }),
        "got {res:?}"
    );

    // 3. …and the very same settlement signature now folds, to the human.
    let res = ix.ingest("sig-settle", settle);
    assert!(
        matches!(res, IngestResult::Applied { settlements: 1, .. }),
        "the refused signature was never spent: got {res:?}"
    );
    assert_eq!(ix.reputation(donor.to_bytes(), recipient), u128::from(gross));
    assert_eq!(ix.reputation(escrow, recipient), 0);
}

#[test]
fn ingesting_again_restores_the_index() {
    let p = profile(0);
    let donor = Pubkey::new_from_array(WALLET_DONOR);
    let recipient = [8u8; 32];
    let (birth_ix, escrow) = create_escrow_ix(&p, donor, [42u8; 32]);
    let escrow_pk = Pubkey::new_from_array(escrow);
    let replies = [
        ("sig-birth", canned(&[birth_ix], donor, 100, true)),
        (
            "sig-settle",
            canned(
                &[
                    transfer_ix(&p, 500_000, escrow_pk),
                    settled_ix(&p, escrow, recipient, 500_000),
                    settled_ix(&p, escrow, recipient, 700_000),
                ],
                escrow_pk,
                200,
                true,
            ),
        ),
        ("sig-direct", canned_response(&p, WALLET_DONOR, recipient, 600_000, 123)),
        (
            "sig-reverted",
            canned(&[settled_ix(&p, WALLET_DONOR, recipient, 900_000)], donor, 124, false),
        ),
    ];
    let run = |order: &[usize]| {
        let mut ix = index();
        for i in order {
            let (signature, reply) = &replies[*i];
            let res = ix.ingest(signature, reply.clone());
            assert!(matches!(res, IngestResult::Applied { .. }), "got {res:?}");
        }
        ix
    };
    for order in [[0, 1, 2, 3], [3, 0, 2, 1], [2, 3, 0, 1]] {
        let ix = run(&order);
        assert_eq!(ix.reputation(WALLET_DONOR, recipient), 1_100_000);
        assert_eq!(ix.reputation(escrow, recipient), 0);
        assert_eq!(ix.state.book_keys(), 1);
        assert_eq!(ix.state.births_count(), 1);
        assert_eq!(ix.state.birth(&escrow).expect("born").slot, 100);
        assert_eq!(get_applied_count(&ix.state), 4);
        assert_eq!(get_anomaly_count(&ix.state), 1);
    }
}

#[test]
fn a_direct_donation_from_a_wallet_still_folds_with_no_birth_anywhere() {
    let mut ix = index();
    let recipient = [8u8; 32];
    let gross = 500_000u64;
    let reply = canned_response(&ix.profile, WALLET_DONOR, recipient, gross, 123);
    let res = ix.ingest("sig-direct", reply);
    assert!(
        matches!(res, IngestResult::Applied { settlements: 1, .. }),
        "got {res:?}"
    );
    assert_eq!(ix.reputation(WALLET_DONOR, recipient), u128::from(gross));
}

#[test]
fn after_cutover_is_refused_without_spending_the_signature() {
    let mut ix = Index::new(profile(1000));
    let donor = WALLET_DONOR;
    let recipient = [8u8; 32];
    let gross = 500_000u64;

    // Slot 5000 is past the boundary of 1000: the next generation's mandate.
    let late = canned_response(&ix.profile, donor, recipient, gross, 5000);
    let res = ix.ingest("sig-late", late.clone());
    assert!(matches!(res, IngestResult::AfterCutover), "got {res:?}");
    assert_eq!(ix.calls, 1, "the slot is only knowable from the reply");
    assert_eq!(
        ix.reputation(donor, recipient),
        0,
        "nothing past the boundary reaches this generation's book"
    );

    // Not applied: the signature must stay free for the successor to fold.
    assert_eq!(get_applied_count(&ix.state), 0);

    // Repeating it changes nothing.
    for _ in 0..5 {
        assert!(matches!(
            ix.ingest("sig-late", late.clone()),
            IngestResult::AfterCutover
        ));
    }
    assert_eq!(get_applied_count(&ix.state), 0);

    // And the same signature is still free to fold.
    let early = canned_response(&ix.profile, donor, recipient, gross, 999);
    let res = ix.ingest("sig-late", early);
    assert!(
        matches!(res, IngestResult::Applied { settlements: 1, .. }),
        "the signature was never consumed by the refusals: got {res:?}"
    );
    assert_eq!(ix.reputation(donor, recipient), u128::from(gross));

    // The last slot before the boundary is ours; the boundary itself is not.
    let at = canned_response(&ix.profile, donor, recipient, gross, 1000);
    assert!(matches!(
        ix.ingest("sig-at-boundary", at),
        IngestResult::AfterCutover
    ));
}

#[test]
fn both_enumerations_cross_the_canister_boundary_whole_and_faithful() {
    // Small on purpose — several pages per enumeration, so the cursor is
    // exercised rather than the "everything fits in one page" case.
    const PAGE: u32 = 7;
    const N: u64 = 40;

    let mut ix = index();
    let mut folded = 0u64;
    for i in 0..N {
        let mut donor = [4u8; 32];
        donor[0..8].copy_from_slice(&i.to_le_bytes());
        if solana_is_off_curve(&donor) {
            continue;
        }
        let mut recipient = [5u8; 32];
        recipient[0..8].copy_from_slice(&i.to_le_bytes());
        let reply = canned_response(&ix.profile, donor, recipient, 300_000 + i, 500 + i);
        if matches!(
            ix.ingest(&format!("ho-sig-{i}"), reply),
            IngestResult::Applied { settlements: 1, .. }
        ) {
            folded += 1;
        }
    }
    assert!(folded > 0, "the handover needs a history to hand over");

    for i in 0..12u8 {
        let donor = Pubkey::new_from_array(WALLET_DONOR);
        let (birth_ix, _escrow) = create_escrow_ix(&ix.profile, donor, [i; 32]);
        let reply = canned(&[birth_ix], donor, 600 + u64::from(i), true);
        assert!(
            matches!(
                ix.ingest(&format!("ho-birth-{i}"), reply),
                IngestResult::Applied {
                    births: 1,
                    settlements: 0,
                    ..
                }
            ),
            "birth {i} must fold, and fold nothing else"
        );
    }

    // ---- drain both enumerations ----
    let mut book: Vec<BookEntry> = Vec::new();
    let mut cursor: Option<Vec<u8>> = None;
    loop {
        let page = get_book_page(&ix.state, cursor.clone(), PAGE)
            .expect("a valid cursor must not be refused");
        if page.is_empty() {
            break;
        }
        let last = page.last().expect("non-empty");
        let mut key = Vec::with_capacity(96);
        key.extend_from_slice(&last.chain);
        key.extend_from_slice(&last.donor);
        key.extend_from_slice(&last.recipient);
        cursor = Some(key);
        book.extend(page);
    }

    let mut births: Vec<BirthEntry> = Vec::new();
    let mut cursor: Option<Vec<u8>> = None;
    loop {
        let page = get_births_page(&ix.state, cursor.clone(), PAGE)
            .expect("a valid cursor must not be refused");
        if page.is_empty() {
            break;
        }
        cursor = Some(page.last().expect("non-empty").escrow.clone());
        births.extend(page);
    }

    // 1. Complete — against the gauge the cutover is scheduled off.
    let stats = get_state_stats(&ix.state, 0);
    assert_eq!(book.len() as u64, stats.book_keys);
    assert_eq!(births.len() as u64, stats.births);
    assert!(
        book.len() > PAGE as usize && births.len() > PAGE as usize,
        "both enumerations must span several pages, or the cursor is untested"
    );

    // 2. Faithful — every entry equals what the point query says for the same key.
    for e in &births {
        let (direct, _w) = get_birth(&ix.state, e.escrow.clone());
        let d = direct.expect("an enumerated escrow must also be queryable");
        assert_eq!(
            (d.donor, d.slot),
            (e.donor.clone(), e.slot),
            "birth entry differs from the point query"
        );
    }
    for e in &book {
        let (rep, _w) = get_reputation(
            &ix.state,
            e.chain.clone(),
            e.donor.clone(),
            e.recipient.clone(),
        );
        assert_eq!(rep, e.reputation, "book entry differs from the point query");
    }
}

#[test]
fn a_malformed_signature_is_answered_for_free() {
    let mut ix = index();
    let long = "1".repeat(89);
    assert!(matches!(
        ix.ingest(&long, consistent(None)),
        IngestResult::NotFound
    ));
    assert!(matches!(
        ix.ingest("", consistent(None)),
        IngestResult::NotFound
    ));
    assert_eq!(ix.calls, 0);
    assert_eq!(ix.balance, PLENTY);
    // The longest possible signature is asked for.
    assert!(matches!(
        ix.ingest(&long[..88], consistent(None)),
        IngestResult::NotFound
    ));
    assert_eq!(ix.calls, 1);
    // The length is that of the bytes: 45 characters of two bytes each.
    assert!(matches!(
        ix.ingest(&"é".repeat(45), consistent(None)),
        IngestResult::NotFound
    ));
    assert_eq!(ix.calls, 1);
    // An empty signature that is underpaid is answered as underpaid.
    assert!(matches!(
        ix.ingest_with("", 0, consistent(None)),
        IngestResult::Underpaid
    ));
}

#[test]
fn an_unreadable_reply_leaves_no_trace() {
    let mut ix = index();
    let mut reply = TransactionReply {
        slot: 1,
        transaction: EncodedTxWithMeta {
            meta: None,
            transaction: EncodedTransaction::LegacyBinary("not base58".to_string()),
        },
    };
    let root = ix.state.combined_root();
    assert!(matches!(
        ix.ingest("sig", consistent(Some(reply.clone()))),
        IngestResult::NotFound
    ));
    reply.transaction.meta = Some(TxMeta {
        status: TxStatus::Success,
        inner_instructions: None,
        loaded_addresses: None,
    });
    assert!(matches!(
        ix.ingest("sig", consistent(Some(reply))),
        IngestResult::NotFound
    ));
    assert_eq!(ix.calls, 2);
    assert_eq!(get_applied_count(&ix.state), 0);
    assert_eq!(ix.state.combined_root(), root);
}

#[test]
fn replies_that_raced_fold_once() {
    let mut ix = index();
    let reply = canned_response(&ix.profile, WALLET_DONOR, [8u8; 32], 500_000, 123);
    // Both got past the checks before either came back.
    for _ in 0..2 {
        assert!(matches!(
            begin_ingest(&ix.state, "sig", ix.profile.ingest_price, PLENTY, &ix.profile),
            Begin::Fetch { .. }
        ));
    }
    let (first, root) = finish_ingest(
        &mut ix.state,
        "sig",
        pick_consistent(reply.clone()),
        &ix.profile,
    );
    assert!(matches!(first, IngestResult::Applied { settlements: 1, .. }));
    assert_eq!(root, Some(ix.state.combined_root()));
    let (second, root) =
        finish_ingest(&mut ix.state, "sig", pick_consistent(reply), &ix.profile);
    assert!(matches!(second, IngestResult::Duplicate));
    assert_eq!(root, None);
    assert_eq!(ix.reputation(WALLET_DONOR, [8u8; 32]), 500_000);
    assert_eq!(get_applied_count(&ix.state), 1);

    // A reverted copy that comes late is a duplicate too.
    let donor = Pubkey::new_from_array(WALLET_DONOR);
    let reverted = canned(&[transfer_ix(&ix.profile, 1, donor)], donor, 123, false);
    let (third, _) = finish_ingest(&mut ix.state, "sig", pick_consistent(reverted), &ix.profile);
    assert!(matches!(third, IngestResult::Duplicate));
}

#[test]
fn an_unbacked_event_is_counted_and_folds_nothing() {
    let mut ix = index();
    let donor = Pubkey::new_from_array(WALLET_DONOR);
    let reply = canned(
        &[
            transfer_ix(&ix.profile, 499_999, donor),
            settled_ix(&ix.profile, WALLET_DONOR, [8u8; 32], 500_000),
        ],
        donor,
        1,
        true,
    );
    let res = ix.ingest("sig", reply);
    assert!(
        matches!(
            res,
            IngestResult::Applied {
                settlements: 0,
                births: 0,
                anomalies: 1
            }
        ),
        "got {res:?}"
    );
    assert_eq!(get_anomaly_count(&ix.state), 1);
    assert_eq!(get_applied_count(&ix.state), 1);
    assert_eq!(ix.reputation(WALLET_DONOR, [8u8; 32]), 0);
}

#[test]
fn a_birth_and_its_settlement_fold_in_one_transaction() {
    let mut ix = index();
    let donor = Pubkey::new_from_array(WALLET_DONOR);
    let (birth_ix, escrow) = create_escrow_ix(&ix.profile, donor, [9u8; 32]);
    let escrow_pk = Pubkey::new_from_array(escrow);
    // The settlement stands before the birth in the transaction.
    let reply = canned(
        &[
            transfer_ix(&ix.profile, 300_000, escrow_pk),
            settled_ix(&ix.profile, escrow, [8u8; 32], 300_000),
            birth_ix,
        ],
        donor,
        7,
        true,
    );
    let res = ix.ingest("sig", reply);
    assert!(
        matches!(
            res,
            IngestResult::Applied {
                settlements: 1,
                births: 1,
                anomalies: 0
            }
        ),
        "got {res:?}"
    );
    assert_eq!(ix.reputation(WALLET_DONOR, [8u8; 32]), 300_000);
    assert_eq!(ix.reputation(escrow, [8u8; 32]), 0);
}

#[test]
fn malformed_arguments_are_told_apart_from_absence() {
    let mut ix = index();
    let reply = canned_response(&ix.profile, WALLET_DONOR, [8u8; 32], 500_000, 1);
    ix.ingest("sig", reply);
    let ok = vec![0u8; 32];
    for short in [vec![], vec![0u8; 31], vec![0u8; 33]] {
        let (v, w) = get_reputation(&ix.state, short.clone(), ok.clone(), ok.clone());
        assert_eq!((v, w.len()), (0, 0));
        let (v, w) = get_reputation(&ix.state, ok.clone(), ok.clone(), short.clone());
        assert_eq!((v, w.len()), (0, 0));
        let (b, w) = get_birth(&ix.state, short.clone());
        assert!(b.is_none() && w.is_empty());
        assert!(get_births_page(&ix.state, Some(short.clone()), 1).is_none());
        assert!(get_book_page(&ix.state, Some(short.clone()), 1).is_none());
        assert!(to32(short).is_none());
    }
    assert_eq!(to32(vec![5u8; 32]), Some([5u8; 32]));
    // Past the end a page is empty, not malformed.
    assert!(get_births_page(&ix.state, Some(vec![255u8; 32]), 1)
        .expect("well-formed")
        .is_empty());
    assert!(get_book_page(&ix.state, Some(vec![255u8; 96]), 1)
        .expect("well-formed")
        .is_empty());
}

#[test]
fn a_limit_is_kept_within_its_bounds() {
    let mut s = Certified::new();
    for i in 0..3u8 {
        s.record_birth(
            [i; 32],
            crown_indexer::certified::Birth {
                donor: [i; 32],
                slot: 1,
            },
        );
    }
    // A zero limit cannot stall a walk.
    assert_eq!(get_births_page(&s, None, 0).expect("page").len(), 1);
    assert_eq!(get_births_page(&s, None, 2).expect("page").len(), 2);
    assert_eq!(get_births_page(&s, None, u32::MAX).expect("page").len(), 3);
    assert_eq!(MAX_BIRTHS_PAGE, 10_000);
    assert_eq!(MAX_BOOK_PAGE, 5_000);
}

#[test]
fn no_page_exceeds_the_largest() {
    let mut s = Certified::new();
    for i in 0..5_001u32 {
        let mut donor = [0u8; 32];
        donor[..4].copy_from_slice(&i.to_be_bytes());
        s.apply_settlement(crown_indexer::reduce::Settled {
            chain: crown_indexer::reduce::ChainId([1; 32]),
            donor,
            recipient: [2; 32],
            gross: 1,
        })
        .expect("fits");
    }
    let page = get_book_page(&s, None, 6_000).expect("page");
    assert_eq!(page.len(), 5_000);
    let last = page.last().expect("non-empty");
    let cursor = [last.chain.clone(), last.donor.clone(), last.recipient.clone()].concat();
    assert_eq!(get_book_page(&s, Some(cursor), 6_000).expect("page").len(), 1);
}
