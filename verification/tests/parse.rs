//! From a reply to the recognition view of a transaction.

use crown_indexer::message::{parse_message, Cur};
use crown_indexer::parse::{
    decode_binary, decode_pubkey, parse, parse_outcome, pick_consistent, resolve,
    CompiledInstruction, EncodedTransaction, EncodedTxWithMeta, Encoding, GetTransactionResult,
    InnerInstructions, Instruction, LoadedAddresses, MultiGetTransactionResult, Parsed,
    TransactionReply, TxMeta, TxStatus,
};
use solana_program::instruction::{AccountMeta, Instruction as SolIx};
use solana_program::message::Message as SolMessage;
use solana_program::pubkey::Pubkey;

/// Full transaction wire bytes: `compact(num_sigs) ‖ zero sigs ‖ message`.
fn tx_bytes(msg: &SolMessage) -> Vec<u8> {
    let sigs = usize::from(msg.header.num_required_signatures);
    let mut out = vec![sigs as u8]; // num_sigs < 128 → one short_u16 byte
    out.extend(vec![0u8; sigs * 64]); // zero signatures (parser skips them)
    out.extend(msg.serialize());
    out
}

fn reply(msg: &SolMessage, meta: Option<TxMeta>, slot: u64) -> TransactionReply {
    let bin = bs58::encode(tx_bytes(msg)).into_string();
    TransactionReply {
        slot,
        transaction: EncodedTxWithMeta {
            meta,
            transaction: EncodedTransaction::Binary(bin, Encoding::Base58),
        },
    }
}

fn ok_meta(inner: Option<Vec<InnerInstructions>>) -> TxMeta {
    TxMeta {
        status: TxStatus::Success,
        inner_instructions: inner,
        loaded_addresses: None,
    }
}

/// A message of one instruction, by `payer` of `prog`.
fn one_instruction(payer: Pubkey, prog: Pubkey) -> SolMessage {
    SolMessage::new(
        &[SolIx::new_with_bytes(
            prog,
            &[0],
            vec![AccountMeta::new(payer, true)],
        )],
        Some(&payer),
    )
}

#[test]
fn legacy_message_round_trips_top_level_instructions() {
    let payer = Pubkey::new_unique();
    let prog_a = Pubkey::new_unique();
    let prog_b = Pubkey::new_unique();
    let acc1 = Pubkey::new_unique();
    let acc2 = Pubkey::new_unique();

    let ix_a = SolIx::new_with_bytes(
        prog_a,
        &[1, 2, 3],
        vec![
            AccountMeta::new(payer, true),
            AccountMeta::new_readonly(acc1, false),
        ],
    );
    let ix_b = SolIx::new_with_bytes(prog_b, &[9, 9], vec![AccountMeta::new(acc2, false)]);
    let msg = SolMessage::new(&[ix_a, ix_b], Some(&payer));

    let r = reply(&msg, Some(ok_meta(None)), 42);
    let tx = parse(&r).expect("parses");
    assert_eq!(tx.slot, 42);
    assert_eq!(tx.instrs.len(), 2);

    // Instruction A resolves back to its exact program, accounts, and data.
    assert_eq!(tx.instrs[0].program, prog_a.to_bytes());
    assert_eq!(
        tx.instrs[0].accounts,
        vec![payer.to_bytes(), acc1.to_bytes()]
    );
    assert_eq!(tx.instrs[0].data, vec![1, 2, 3]);
    assert_eq!(tx.instrs[1].program, prog_b.to_bytes());
    assert_eq!(tx.instrs[1].accounts, vec![acc2.to_bytes()]);
    assert_eq!(tx.instrs[1].data, vec![9, 9]);
}

#[test]
fn inner_instructions_are_appended_after_top_level() {
    let payer = Pubkey::new_unique();
    let prog = Pubkey::new_unique();
    let msg = one_instruction(payer, prog);
    // The message's account_keys give the indices an inner instruction uses.
    let prog_idx = msg.account_keys.iter().position(|k| *k == prog).unwrap() as u8;
    let payer_idx = msg.account_keys.iter().position(|k| *k == payer).unwrap() as u8;

    let inner = vec![InnerInstructions {
        index: 0,
        instructions: vec![Instruction::Compiled(CompiledInstruction {
            data: bs58::encode([7u8, 7]).into_string(),
            accounts: vec![payer_idx],
            program_id_index: prog_idx,
            stack_height: Some(2),
        })],
    }];

    let tx = parse(&reply(&msg, Some(ok_meta(Some(inner))), 1)).expect("parses");
    assert_eq!(tx.instrs.len(), 2); // 1 top-level + 1 inner
    assert_eq!(tx.instrs[1].program, prog.to_bytes());
    assert_eq!(tx.instrs[1].accounts, vec![payer.to_bytes()]);
    assert_eq!(tx.instrs[1].data, vec![7, 7]);
}

#[test]
fn a_failed_transaction_is_not_parsed() {
    let payer = Pubkey::new_unique();
    let msg = one_instruction(payer, Pubkey::new_unique());
    let meta = TxMeta {
        status: TxStatus::Failure,
        inner_instructions: None,
        loaded_addresses: None,
    };
    assert!(parse(&reply(&msg, Some(meta), 1)).is_none());
}

#[test]
fn many_accounts_exercise_multibyte_compact_u16() {
    // 200 accounts forces a program-account count above 127 → 2-byte short_u16
    // in the compiled instruction, exercising the multi-byte decoder.
    let payer = Pubkey::new_unique();
    let prog = Pubkey::new_unique();
    let extras: Vec<Pubkey> = (0..200).map(|_| Pubkey::new_unique()).collect();
    let mut metas = vec![AccountMeta::new(payer, true)];
    metas.extend(extras.iter().map(|k| AccountMeta::new_readonly(*k, false)));
    let msg = SolMessage::new(&[SolIx::new_with_bytes(prog, &[5], metas)], Some(&payer));
    let tx = parse(&reply(&msg, Some(ok_meta(None)), 1)).expect("parses");
    assert_eq!(tx.instrs.len(), 1);
    assert_eq!(tx.instrs[0].accounts.len(), 201);
    assert_eq!(tx.instrs[0].accounts[0], payer.to_bytes());
    assert_eq!(tx.instrs[0].accounts[200], extras[199].to_bytes());
}

#[test]
fn a_lying_count_cannot_preallocate_beyond_the_buffer() {
    // A tiny message whose key count claims the maximum (65535, a 3-byte
    // short_u16) but carries no key bytes: the read must fail with `None`,
    // and the capped pre-allocation must never size to the lie.
    let mut raw = vec![0u8]; // num_sigs = 0
    raw.push(0x00); // not versioned; header byte 0 …
    raw.extend_from_slice(&[0u8, 0u8]); // … header bytes 1,2
    raw.extend_from_slice(&[0xff, 0xff, 0x03]); // num_keys = 65535, no keys follow
    assert!(parse_message(&raw).is_none());
}

#[test]
fn no_consensus_or_error_yields_nothing() {
    assert!(pick_consistent(MultiGetTransactionResult::Inconsistent(vec![])).is_none());
    assert!(pick_consistent(MultiGetTransactionResult::Consistent(
        GetTransactionResult::Failure
    ))
    .is_none());
    assert!(pick_consistent(MultiGetTransactionResult::Consistent(
        GetTransactionResult::Success(None)
    ))
    .is_none());
}

#[test]
fn a_consistent_reply_is_taken_and_an_inconsistent_one_is_not() {
    let payer = Pubkey::new_unique();
    let msg = one_instruction(payer, Pubkey::new_unique());
    let r = reply(&msg, Some(ok_meta(None)), 77);
    let taken = pick_consistent(MultiGetTransactionResult::Consistent(
        GetTransactionResult::Success(Some(r.clone())),
    ));
    assert_eq!(taken.expect("taken").slot, 77);
    let split = pick_consistent(MultiGetTransactionResult::Inconsistent(vec![
        GetTransactionResult::Success(Some(r)),
    ]));
    assert!(split.is_none());
}

#[test]
fn a_v0_message_is_read_and_a_later_version_is_not() {
    // One key, one instruction of it without accounts, data [5]; then lookups.
    let body = |version: Option<u8>| {
        let mut raw = vec![1u8];
        raw.extend(vec![9u8; 64]);
        raw.extend(version);
        raw.extend([1, 0, 0]);
        raw.push(1);
        raw.extend([4u8; 32]);
        raw.extend([8u8; 32]);
        raw.push(1);
        raw.extend([0, 0, 1, 5]);
        raw.extend([0xaa, 0xbb]);
        raw
    };
    for raw in [body(None), body(Some(0x80))] {
        let (keys, ixs) = parse_message(&raw).expect("reads");
        assert_eq!(keys, vec![[4u8; 32]]);
        assert_eq!(ixs.len(), 1);
        assert_eq!(ixs[0].program_id_index, 0);
        assert!(ixs[0].accounts.is_empty());
        assert_eq!(ixs[0].data, vec![5]);
    }
    assert!(parse_message(&body(Some(0x81))).is_none());
    // Cut anywhere before the end of the instructions, there is no message.
    let whole = body(None);
    for n in 0..whole.len() - 2 {
        assert!(parse_message(&whole[..n]).is_none(), "cut at {n}");
    }
    assert!(parse_message(&whole[..whole.len() - 2]).is_some());
}

#[test]
fn loaded_addresses_follow_the_static_keys_writable_first() {
    let payer = Pubkey::new_unique();
    let msg = one_instruction(payer, Pubkey::new_unique());
    let fixed = msg.account_keys.len() as u8;
    let text = |b: u8| bs58::encode([b; 32]).into_string();
    let inner = vec![
        InnerInstructions {
            index: 0,
            instructions: vec![],
        },
        InnerInstructions {
            index: 1,
            instructions: vec![Instruction::Compiled(CompiledInstruction {
                data: String::new(),
                accounts: vec![fixed + 1, fixed, fixed + 2],
                program_id_index: fixed + 2,
                stack_height: None,
            })],
        },
    ];
    let mut meta = ok_meta(Some(inner));
    meta.loaded_addresses = Some(LoadedAddresses {
        writable: vec![text(1), text(2)],
        readonly: vec![text(3)],
    });
    let tx = parse(&reply(&msg, Some(meta.clone()), 1)).expect("parses");
    assert_eq!(tx.instrs[1].program, [3u8; 32]);
    assert_eq!(tx.instrs[1].accounts, vec![[2u8; 32], [1u8; 32], [3u8; 32]]);
    assert!(tx.instrs[1].data.is_empty());

    // A loaded address that is no address leaves nothing to fold.
    meta.loaded_addresses = Some(LoadedAddresses {
        writable: vec![text(1), "not an address".to_string()],
        readonly: vec![text(3)],
    });
    assert!(parse(&reply(&msg, Some(meta), 1)).is_none());
}

#[test]
fn an_index_out_of_the_keys_leaves_nothing_to_fold() {
    let keys = vec![[1u8; 32], [2u8; 32]];
    let i = resolve(1, &[0, 1, 1], vec![7], &keys).expect("resolves");
    assert_eq!(i.program, [2u8; 32]);
    assert_eq!(i.accounts, vec![[1u8; 32], [2u8; 32], [2u8; 32]]);
    assert_eq!(i.data, vec![7]);
    assert!(resolve(2, &[0], vec![], &keys).is_none());
    assert!(resolve(0, &[0, 2], vec![], &keys).is_none());
}

#[test]
fn undecodable_inner_data_leaves_nothing_to_fold() {
    let payer = Pubkey::new_unique();
    let msg = one_instruction(payer, Pubkey::new_unique());
    let inner = vec![InnerInstructions {
        index: 0,
        instructions: vec![Instruction::Compiled(CompiledInstruction {
            data: "0OIl".to_string(),
            accounts: vec![],
            program_id_index: 0,
            stack_height: None,
        })],
    }];
    assert!(parse(&reply(&msg, Some(ok_meta(Some(inner))), 1)).is_none());
}

#[test]
fn outcomes_are_told_apart() {
    let payer = Pubkey::new_unique();
    let msg = one_instruction(payer, Pubkey::new_unique());
    let executed = reply(&msg, Some(ok_meta(None)), 5);
    assert!(matches!(
        parse_outcome(&executed),
        Some(Parsed::Executed(ref tx)) if tx.slot == 5 && tx.instrs.len() == 1
    ));
    let mut failed = ok_meta(None);
    failed.status = TxStatus::Failure;
    assert!(matches!(
        parse_outcome(&reply(&msg, Some(failed), 5)),
        Some(Parsed::Reverted)
    ));
    // Without a meta nobody knows how it ended.
    assert!(parse_outcome(&reply(&msg, None, 5)).is_none());
    assert!(parse(&reply(&msg, None, 5)).is_none());
}

#[test]
fn only_base58_binaries_are_read() {
    let text = bs58::encode([0u8, 0, 1, 2]).into_string();
    assert_eq!(text, "115T");
    assert_eq!(
        decode_binary(&EncodedTransaction::Binary(text.clone(), Encoding::Base58)),
        Some(vec![0, 0, 1, 2])
    );
    assert_eq!(
        decode_binary(&EncodedTransaction::LegacyBinary(text.clone())),
        Some(vec![0, 0, 1, 2])
    );
    assert_eq!(
        decode_binary(&EncodedTransaction::Binary(text, Encoding::Base64)),
        None
    );
    assert_eq!(
        decode_binary(&EncodedTransaction::LegacyBinary("l".to_string())),
        None
    );
}

#[test]
fn a_pubkey_is_thirty_two_bytes() {
    let text = "11111111111111111111111111111111";
    assert_eq!(decode_pubkey(text), Some([0u8; 32]));
    assert_eq!(decode_pubkey(&text[1..]), None);
    let token = "TokenkegQfeZyiNwAJbNbGKPFXCWuBvf9Ss623VQ5DA";
    assert_eq!(
        decode_pubkey(token),
        Some(crown_indexer::recognize::TOKEN_PROGRAM_ID)
    );
    assert_eq!(decode_pubkey("Tokenkeg Qfe"), None);
    assert_eq!(decode_pubkey("Tokenkegé"), None);
}

#[test]
fn short_u16_reads_one_to_three_bytes() {
    let read = |bytes: &[u8]| {
        let mut c = Cur::new(bytes);
        c.compact_u16().map(|v| (v, c.remaining()))
    };
    assert_eq!(read(&[0x00]), Some((0, 0)));
    assert_eq!(read(&[0x7f, 0xff]), Some((127, 1)));
    assert_eq!(read(&[0x80, 0x01]), Some((128, 0)));
    assert_eq!(read(&[0xff, 0x7f]), Some((16_383, 0)));
    assert_eq!(read(&[0x80, 0x80, 0x01]), Some((16_384, 0)));
    assert_eq!(read(&[0xff, 0xff, 0x03, 0x09]), Some((65_535, 1)));
    assert_eq!(read(&[0x80, 0x80, 0x04]), None); // above 65535
    assert_eq!(read(&[0xff, 0xff, 0x83, 0x00]), None); // a fourth byte
    assert_eq!(read(&[0xff, 0xff]), None); // cut short
    assert_eq!(read(&[]), None);
}

#[test]
fn a_cursor_never_reads_past_the_end() {
    let bytes: Vec<u8> = (0..40).collect();
    let mut c = Cur::new(&bytes);
    assert_eq!(c.u8(), Some(0));
    assert_eq!(c.take(2), Some(&[1u8, 2][..]));
    assert_eq!(c.arr32().map(|a| (a[0], a[31])), Some((3, 34)));
    assert_eq!(c.remaining(), 5);
    assert_eq!(c.arr32(), None);
    assert_eq!(c.take(6), None);
    assert_eq!(c.remaining(), 5);
    assert_eq!(c.take(5), Some(&[35u8, 36, 37, 38, 39][..]));
    assert_eq!(c.u8(), None);
    assert_eq!(c.take(0), Some(&[][..]));
}
