//! Recognition of settlements and births in one transaction.

use crown_indexer::bytes::Address;
use crown_indexer::recognize::{
    anchor_disc, recognize, ChainConfig, Instr, Tx, EVENT_IX_TAG_LE, TOKEN_PROGRAM_ID,
    TRANSFER_CHECKED_TAG,
};
use crown_indexer::reduce::ChainId;
use solana_program::pubkey::Pubkey;

/// The address that `program` derives for an escrow with `salt`.
fn pda(program: Address, salt: &[u8; 32]) -> (Address, u8) {
    let (address, bump) =
        Pubkey::find_program_address(&[b"escrow", salt], &Pubkey::new_from_array(program));
    (address.to_bytes(), bump)
}

const SPLITTER: Address = [1u8; 32];
const USDC: Address = [2u8; 32];
const FACTORY: Address = [3u8; 32];
const OTHER_PROGRAM: Address = [9u8; 32];

fn cfg() -> ChainConfig {
    ChainConfig {
        chain: ChainId([7u8; 32]),
        splitter: SPLITTER,
        usdc: USDC,
        factories: vec![FACTORY],
        min_gross: 0, // most tests use tiny gross; the floor has its own test
    }
}

/// Build a Settled event-CPI instruction (data = tag ‖ disc ‖ borsh).
fn settled_event(program: Address, donor: Address, recipient: Address, gross: u64) -> Instr {
    let mut data = Vec::new();
    data.extend_from_slice(&EVENT_IX_TAG_LE);
    data.extend_from_slice(&anchor_disc("event", "Settled"));
    data.extend_from_slice(&donor);
    data.extend_from_slice(&recipient);
    data.extend_from_slice(&gross.to_le_bytes());
    Instr {
        program,
        accounts: vec![],
        data,
    }
}

/// Build a TransferChecked instruction (accounts [source, mint, dest, auth]).
fn transfer_checked(mint: Address, amount: u64, authority: Address) -> Instr {
    let mut data = vec![TRANSFER_CHECKED_TAG];
    data.extend_from_slice(&amount.to_le_bytes());
    data.push(6); // decimals
    Instr {
        program: TOKEN_PROGRAM_ID,
        accounts: vec![[0u8; 32], mint, [0u8; 32], authority],
        data,
    }
}

/// Build a create_escrow instruction for `factory` funding `escrow`.
fn create_escrow(
    factory: Address,
    donor: Address,
    escrow: Address,
    salt: [u8; 32],
    gross: u64,
) -> Instr {
    let mut data = Vec::new();
    data.extend_from_slice(&anchor_disc("global", "create_escrow"));
    data.extend_from_slice(&salt); // 8..40
    data.extend_from_slice(&[0u8; 32]); // recipient 40..72
    data.extend_from_slice(&gross.to_le_bytes()); // 72..80
    Instr {
        program: factory,
        accounts: vec![donor, escrow],
        data,
    }
}

#[test]
fn settlement_is_recognized_and_cross_checked() {
    let donor = [10u8; 32];
    let recipient = [11u8; 32];
    let tx = Tx {
        slot: 100,
        instrs: vec![
            transfer_checked(USDC, 500, donor),
            settled_event(SPLITTER, donor, recipient, 500),
        ],
    };
    let r = recognize(&tx, &cfg());
    assert_eq!(r.settlements.len(), 1);
    assert_eq!(r.anomalies, 0);
    let s = r.settlements[0];
    assert_eq!(s.donor, donor);
    assert_eq!(s.recipient, recipient);
    assert_eq!(s.gross, 500);
    assert_eq!(s.chain, ChainId([7u8; 32]));
}

#[test]
fn foreign_settled_event_is_not_reputation() {
    // Same event bytes, but emitted by a program that is not the splitter.
    let tx = Tx {
        slot: 1,
        instrs: vec![
            transfer_checked(USDC, 500, [10u8; 32]),
            settled_event(OTHER_PROGRAM, [10u8; 32], [11u8; 32], 500),
        ],
    };
    let r = recognize(&tx, &cfg());
    assert!(r.settlements.is_empty());
    assert_eq!(r.anomalies, 0); // not the splitter → not even considered
}

#[test]
fn cross_check_mismatch_is_an_anomaly() {
    let donor = [10u8; 32];
    // Event says 500, but the only transfer moved 499 — reputation must not
    // exceed really-moved money.
    let tx = Tx {
        slot: 1,
        instrs: vec![
            transfer_checked(USDC, 499, donor),
            settled_event(SPLITTER, donor, [11u8; 32], 500),
        ],
    };
    let r = recognize(&tx, &cfg());
    assert!(r.settlements.is_empty());
    assert_eq!(r.anomalies, 1);

    // Wrong mint is equally an anomaly.
    let tx = Tx {
        slot: 1,
        instrs: vec![
            transfer_checked([99u8; 32], 500, donor),
            settled_event(SPLITTER, donor, [11u8; 32], 500),
        ],
    };
    assert_eq!(recognize(&tx, &cfg()).anomalies, 1);
}

#[test]
fn two_settlements_need_two_distinct_transfers() {
    let donor = [10u8; 32];
    // One transfer, two identical events → one is real, one is unpaired.
    let tx = Tx {
        slot: 1,
        instrs: vec![
            transfer_checked(USDC, 500, donor),
            settled_event(SPLITTER, donor, [11u8; 32], 500),
            settled_event(SPLITTER, donor, [11u8; 32], 500),
        ],
    };
    let r = recognize(&tx, &cfg());
    assert_eq!(r.settlements.len(), 1);
    assert_eq!(r.anomalies, 1);

    // With two transfers, both settlements are cross-checked.
    let tx = Tx {
        slot: 1,
        instrs: vec![
            transfer_checked(USDC, 500, donor),
            transfer_checked(USDC, 500, donor),
            settled_event(SPLITTER, donor, [11u8; 32], 500),
            settled_event(SPLITTER, donor, [11u8; 32], 500),
        ],
    };
    let r = recognize(&tx, &cfg());
    assert_eq!(r.settlements.len(), 2);
    assert_eq!(r.anomalies, 0);
}

#[test]
fn a_sub_floor_settlement_is_dust_not_reputation() {
    let donor = [10u8; 32];
    let floored = ChainConfig {
        min_gross: 200_000,
        ..cfg()
    };
    // A real transfer backs it, but the amount is below the floor → dropped as
    // dust: not reputation, and not an anomaly (it is a genuine sub-floor move).
    let tx = Tx {
        slot: 1,
        instrs: vec![
            transfer_checked(USDC, 199_999, donor),
            settled_event(SPLITTER, donor, [11u8; 32], 199_999),
        ],
    };
    let r = recognize(&tx, &floored);
    assert!(r.settlements.is_empty());
    assert_eq!(r.anomalies, 0);

    // Exactly at the floor counts (inclusive).
    let tx = Tx {
        slot: 1,
        instrs: vec![
            transfer_checked(USDC, 200_000, donor),
            settled_event(SPLITTER, donor, [11u8; 32], 200_000),
        ],
    };
    assert_eq!(recognize(&tx, &floored).settlements.len(), 1);
}

#[test]
fn birth_is_recognized_only_for_a_genuine_factory_pda() {
    let donor = [10u8; 32];
    let salt = [42u8; 32];
    // The genuine escrow PDA the factory would derive for this salt.
    let (escrow, _bump) =
        pda(FACTORY, &salt);
    let tx = Tx {
        slot: 777,
        instrs: vec![create_escrow(FACTORY, donor, escrow, salt, 1_000)],
    };
    let r = recognize(&tx, &cfg());
    assert_eq!(r.births.len(), 1);
    let (esc, birth) = r.births[0];
    assert_eq!(esc, escrow);
    assert_eq!(birth.donor, donor);
    assert_eq!(birth.slot, 777);

    // A spoofed escrow account (not the derived PDA) is dropped.
    let spoof = Tx {
        slot: 1,
        instrs: vec![create_escrow(FACTORY, donor, [123u8; 32], salt, 1_000)],
    };
    assert!(recognize(&spoof, &cfg()).births.is_empty());

    // create_escrow from an unpinned program is not a birth.
    let foreign = Tx {
        slot: 1,
        instrs: vec![create_escrow(OTHER_PROGRAM, donor, escrow, salt, 1_000)],
    };
    assert!(recognize(&foreign, &cfg()).births.is_empty());
}

/// One transaction, many recognized events: none of a batch is lost.
#[test]
fn one_transaction_carries_a_batch_of_births_and_settlements() {
    let donors: [Address; 3] = [[10u8; 32], [11u8; 32], [12u8; 32]];
    let recipient = [20u8; 32];
    let mut instrs = Vec::new();
    let mut escrows = Vec::new();

    // Three `create_escrow` of the pinned factory, one transaction.
    for (i, donor) in donors.iter().enumerate() {
        let salt = [i as u8 + 1; 32];
        let (escrow, _) =
            pda(FACTORY, &salt);
        escrows.push(escrow);
        instrs.push(create_escrow(FACTORY, *donor, escrow, salt, 1_000));
    }
    // …and three settlements, each with its own executed transfer, as a batched
    // claim transaction produces them.
    for donor in &donors {
        instrs.push(transfer_checked(USDC, 500, *donor));
        instrs.push(settled_event(SPLITTER, *donor, recipient, 500));
    }

    let r = recognize(&Tx { slot: 900, instrs }, &cfg());

    assert_eq!(r.births.len(), 3, "every birth in the batch is recognized");
    assert_eq!(
        r.settlements.len(),
        3,
        "every settlement in the batch is recognized"
    );
    assert_eq!(r.anomalies, 0, "each event found its own distinct transfer");
    for (i, (escrow, birth)) in r.births.iter().enumerate() {
        assert_eq!(*escrow, escrows[i]);
        assert_eq!(birth.donor, donors[i]);
        assert_eq!(
            birth.slot, 900,
            "the slot is the transaction's, not the event's"
        );
    }
}
