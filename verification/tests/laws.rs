//! The laws of the library on concrete values, and the outside functions through
//! the functions that call them.

use crown_indexer::applied::AppliedSet;
use crown_indexer::base58::decode_base58;
use crown_indexer::bytes::{arr32, array32, precedes, u64le};
use crown_indexer::certified::{birth_leaf, book_key, leaf_value, Birth, Certified};
use crown_indexer::derive::solana_is_off_curve;
use crown_indexer::recognize::{
    anchor_disc, collect_transfers, decode_birth, decode_settled, derive_escrow, escrow_salt,
    recognize_with, take_matching, ChainConfig, Instr, Recognized, Transfer, Tx, EVENT_IX_TAG_LE,
    TOKEN_PROGRAM_ID,
};
use crown_indexer::reduce::{fold_one, ChainId, Overflow, Settled};
use crown_indexer::state::{
    apply, attributable_as, birth_witness, combined_root, fold, heap_bytes, reputation_witness,
    retire, Applied, Folded,
};
use crown_indexer::{get_book_page, get_reputation, BirthView};
use ic_certified_map::{
    fork_hash, labeled_hash, leaf_hash, AsHashTree, RbTree,
};
use sha2::{Digest, Sha256};
use solana_program::pubkey::Pubkey;

const CHAIN: ChainId = ChainId([7; 32]);

fn settled(donor: [u8; 32], recipient: u8, gross: u128) -> Settled {
    Settled {
        chain: CHAIN,
        donor,
        recipient: [recipient; 32],
        gross,
    }
}

fn recognized(settlements: Vec<Settled>, births: Vec<([u8; 32], Birth)>) -> Recognized {
    Recognized {
        settlements,
        births,
        anomalies: 0,
    }
}

fn born(donor: u8, slot: u64) -> Birth {
    Birth {
        donor: [donor; 32],
        slot,
    }
}

#[test]
fn a_fold_adds_up_and_never_takes_back() {
    let mut s = Certified::new();
    let rec = recognized(
        vec![settled([1; 32], 2, 10), settled([1; 32], 2, 5), settled([3; 32], 2, 1)],
        vec![],
    );
    let keyless = vec![false; 3];
    assert!(matches!(
        fold(&mut s, b"a".to_vec(), &rec, &keyless),
        Folded::Applied(Applied {
            settlements: 3,
            births: 0,
            anomalies: 0
        })
    ));
    assert_eq!(s.reputation(CHAIN, [1; 32], [2; 32]), 15);
    assert_eq!(s.reputation(CHAIN, [3; 32], [2; 32]), 1);
    // Exactly once: the same signature, whatever comes under it.
    assert!(matches!(
        fold(&mut s, b"a".to_vec(), &rec, &keyless),
        Folded::Duplicate
    ));
    assert_eq!(s.reputation(CHAIN, [1; 32], [2; 32]), 15);
    // Another signature adds.
    assert!(matches!(
        fold(&mut s, b"b".to_vec(), &rec, &keyless),
        Folded::Applied(_)
    ));
    assert_eq!(s.reputation(CHAIN, [1; 32], [2; 32]), 30);
    assert_eq!(s.applied_count(), 2);
}

#[test]
fn an_overflow_is_an_anomaly_and_takes_nothing() {
    assert_eq!(fold_one(u128::MAX - 1, 1), Ok(u128::MAX));
    assert_eq!(fold_one(u128::MAX, 1), Err(Overflow));
    let mut s = Certified::new();
    s.apply_settlement(settled([1; 32], 2, u128::MAX)).expect("fits");
    let root = s.combined_root();
    assert_eq!(s.apply_settlement(settled([1; 32], 2, 1)), Err(Overflow));
    assert_eq!(s.combined_root(), root);
    let rec = recognized(vec![settled([1; 32], 2, 1), settled([1; 32], 3, 4)], vec![]);
    assert!(matches!(
        fold(&mut s, b"a".to_vec(), &rec, &vec![false, false]),
        Folded::Applied(Applied {
            settlements: 1,
            births: 0,
            anomalies: 1
        })
    ));
    assert_eq!(s.anomaly_count(), 1);
    assert_eq!(s.reputation(CHAIN, [1; 32], [2; 32]), u128::MAX);
    assert_eq!(s.reputation(CHAIN, [1; 32], [3; 32]), 4);
    assert!(s.is_applied(b"a"));
}

#[test]
fn refusal_is_all_or_nothing() {
    let mut s = Certified::new();
    s.record_birth([9; 32], born(1, 5));
    let root = s.combined_root();
    let mut rec = recognized(
        vec![settled([1; 32], 2, 10), settled([8; 32], 2, 5)],
        vec![([4; 32], born(1, 6))],
    );
    rec.anomalies = 3;
    let keyless = vec![false, true];
    assert!(matches!(
        fold(&mut s, b"a".to_vec(), &rec, &keyless),
        Folded::UnknownBirth
    ));
    assert_eq!(s.combined_root(), root);
    assert_eq!(s.anomaly_count(), 0);
    assert!(!s.is_applied(b"a"));
    assert_eq!(s.births_count(), 1);
    // Once the birth is in, the same signature folds, whole.
    s.record_birth([8; 32], born(6, 5));
    assert!(matches!(
        fold(&mut s, b"a".to_vec(), &rec, &keyless),
        Folded::Applied(Applied {
            settlements: 2,
            births: 1,
            anomalies: 3
        })
    ));
    assert_eq!(s.reputation(CHAIN, [6; 32], [2; 32]), 5);
    assert_eq!(s.reputation(CHAIN, [8; 32], [2; 32]), 0);
    assert_eq!(s.anomaly_count(), 3);
}

#[test]
fn an_empty_signature_folds_but_is_never_marked() {
    let mut s = Certified::new();
    let rec = recognized(vec![settled([1; 32], 2, 10)], vec![]);
    assert!(matches!(
        fold(&mut s, Vec::new(), &rec, &vec![false]),
        Folded::Applied(_)
    ));
    assert!(!s.is_applied(b""));
    assert_eq!(s.applied_count(), 0);
}

#[test]
fn a_retired_signature_is_never_folded_and_moves_no_root() {
    let mut s = Certified::new();
    let root = s.combined_root();
    assert!(retire(&mut s, b"a".to_vec()));
    assert!(!retire(&mut s, b"a".to_vec()));
    assert!(!retire(&mut s, Vec::new()));
    assert_eq!(s.combined_root(), root);
    let rec = recognized(vec![settled([1; 32], 2, 10)], vec![]);
    assert!(matches!(
        fold(&mut s, b"a".to_vec(), &rec, &vec![false]),
        Folded::Duplicate
    ));
    assert_eq!(s.book_keys(), 0);
}

#[test]
fn a_wallet_is_credited_itself_and_an_escrow_its_donor() {
    let mut s = Certified::new();
    assert!(attributable_as(&s, &[], &settled([5; 32], 2, 1), false));
    assert!(!attributable_as(&s, &[], &settled([5; 32], 2, 1), true));
    s.record_birth([5; 32], born(1, 9));
    assert!(attributable_as(&s, &[], &settled([5; 32], 2, 1), true));
    assert_eq!(s.attribute(settled([5; 32], 2, 1)), settled([1; 32], 2, 1));
    assert_eq!(s.attribute(settled([6; 32], 2, 1)), settled([6; 32], 2, 1));
}

#[test]
fn marks_are_kept_apart_and_in_order() {
    let mut a = AppliedSet::new();
    for key in [&b"b"[..], b"", b"ba", b"a", b"b\0"] {
        assert!(a.insert(key.to_vec()));
        assert!(!a.insert(key.to_vec()));
    }
    assert_eq!(a.len(), 5);
    assert!(a.contains(b"b\0"));
    assert!(!a.contains(b"c"));
}

#[test]
fn byte_strings_come_in_dictionary_order() {
    assert!(precedes(b"", b"a"));
    assert!(precedes(b"a", b"aa"));
    assert!(precedes(b"a\xff", b"b"));
    assert!(!precedes(b"b", b"b"));
    assert!(!precedes(b"b", b"a\xff"));
}

#[test]
fn fields_are_read_only_where_they_fit() {
    let d: Vec<u8> = (0..42).collect();
    assert_eq!(u64le(&d, 1), Some(u64::from_le_bytes([1, 2, 3, 4, 5, 6, 7, 8])));
    assert_eq!(u64le(&d, 34), Some(u64::from_le_bytes([34, 35, 36, 37, 38, 39, 40, 41])));
    assert_eq!(u64le(&d, 35), None);
    assert_eq!(u64le(&d, usize::MAX), None);
    assert_eq!(arr32(&d, 10).map(|a| a[0]), Some(10));
    assert_eq!(arr32(&d, 11), None);
    assert_eq!(arr32(&d, usize::MAX), None);
    assert_eq!(array32(&d), None);
}

#[test]
fn leaves_have_one_width() {
    assert_eq!(leaf_value(None), 0);
    assert_eq!(leaf_value(Some(&vec![1, 0, 0])), 0);
    let mut sixteen = vec![0u8; 16];
    sixteen[0] = 2;
    sixteen[15] = 1;
    assert_eq!(leaf_value(Some(&sixteen)), (1u128 << 120) + 2);
    let mut leaf = vec![3u8; 32];
    leaf.extend([1, 1, 0, 0, 0, 0, 0, 0]);
    assert_eq!(birth_leaf(&leaf), Some(born(3, 257)));
    assert_eq!(birth_leaf(&leaf[..39]), None);
    leaf.push(0);
    assert_eq!(birth_leaf(&leaf), None);
}

#[test]
fn the_heap_is_counted_in_pages_and_saturates() {
    assert_eq!(heap_bytes(0), 0);
    assert_eq!(heap_bytes(2), 131_072);
    assert_eq!(heap_bytes(u64::MAX), u64::MAX);
}

#[test]
fn a_view_surfaces_donor_and_slot() {
    let v = BirthView::from(born(4, 8));
    assert_eq!(v.donor, vec![4u8; 32]);
    assert_eq!(v.slot, 8);
}

#[test]
fn nothing_is_applied_by_default() {
    let a = Applied::default();
    assert_eq!((a.settlements, a.births, a.anomalies), (0, 0, 0));
    let r = Recognized::default();
    assert!(r.settlements.is_empty() && r.births.is_empty() && r.anomalies == 0);
    assert_eq!(
        Certified::default().combined_root(),
        Certified::new().combined_root()
    );
}

// ----- outside functions -----

#[test]
fn a_discriminator_is_the_front_of_a_sha256() {
    let full: [u8; 32] = Sha256::digest(b"global:create_escrow").into();
    assert_eq!(anchor_disc("global", "create_escrow"), full[..8]);
    assert_eq!(
        anchor_disc("global", "initialize"),
        [175, 175, 109, 31, 13, 152, 155, 237]
    );
}

#[test]
fn the_root_is_a_labeled_fork_of_both_trees() {
    let mut s = Certified::new();
    s.apply_settlement(settled([1; 32], 2, 300)).expect("fits");
    s.record_birth([9; 32], born(1, 5));
    let mut book: RbTree<Vec<u8>, Vec<u8>> = RbTree::new();
    book.insert(
        book_key(CHAIN, [1; 32], [2; 32]),
        300u128.to_le_bytes().to_vec(),
    );
    let mut births: RbTree<Vec<u8>, Vec<u8>> = RbTree::new();
    let mut leaf = vec![1u8; 32];
    leaf.extend(5u64.to_le_bytes());
    births.insert(vec![9; 32], leaf.clone());
    assert_eq!(s.book_root(), book.root_hash());
    assert_eq!(s.births_root(), births.root_hash());
    assert_eq!(
        s.births_root(),
        labeled_hash(&[9; 32], &leaf_hash(&leaf))
    );
    let root = fork_hash(
        &labeled_hash(b"book", &book.root_hash()),
        &labeled_hash(b"births", &births.root_hash()),
    );
    assert_eq!(s.combined_root(), root);
    assert_eq!(combined_root(&s), root.to_vec());
}

#[test]
fn witnesses_are_the_standard_cbor_of_hash_trees() {
    let mut s = Certified::new();
    s.apply_settlement(settled([1; 32], 2, 300)).expect("fits");
    s.record_birth([9; 32], born(1, 5));

    // fork(labeled("book", labeled(key, leaf(value))), pruned(births))
    let births = labeled_hash(b"births", &s.births_root());
    let mut expected = vec![0x83, 1, 0x83, 2, 0x44];
    expected.extend(b"book");
    expected.extend([0x83, 2, 0x58, 96]);
    expected.extend(book_key(CHAIN, [1; 32], [2; 32]));
    expected.extend([0x82, 3, 0x50]);
    expected.extend(300u128.to_le_bytes());
    expected.extend([0x82, 4, 0x58, 32]);
    expected.extend(births);
    let (value, bytes) = reputation_witness(&s, CHAIN, [1; 32], [2; 32]);
    assert_eq!(value, 300);
    assert_eq!(bytes, expected);

    // fork(pruned(book), labeled("births", labeled(escrow, leaf(donor ‖ slot))))
    let book = labeled_hash(b"book", &s.book_root());
    let mut expected = vec![0x83, 1, 0x82, 4, 0x58, 32];
    expected.extend(book);
    expected.extend([0x83, 2, 0x46]);
    expected.extend(b"births");
    expected.extend([0x83, 2, 0x58, 32]);
    expected.extend([9u8; 32]);
    expected.extend([0x82, 3, 0x58, 40]);
    expected.extend([1u8; 32]);
    expected.extend(5u64.to_le_bytes());
    let (birth, bytes) = birth_witness(&s, [9; 32]);
    assert_eq!(birth, Some(born(1, 5)));
    assert_eq!(bytes, expected);
}

#[test]
fn an_absence_is_proved_by_the_labels_around_it() {
    let mut s = Certified::new();
    for i in [2u8, 4, 6, 8] {
        s.record_birth([i; 32], born(i, 1));
    }
    let (birth, bytes) = birth_witness(&s, [5; 32]);
    assert_eq!(birth, None);
    let shows = |b: u8| bytes.windows(32).any(|w| w == [b; 32]);
    assert!(shows(4) && shows(6));
    assert!(!shows(2) && !shows(8) && !shows(5));
    assert_eq!(s.birth_witness([5; 32]).reconstruct(), s.combined_root());
    assert_eq!(s.birth_witness([1; 32]).reconstruct(), s.combined_root());
    assert_eq!(
        s.book_witness(CHAIN, [1; 32], [2; 32]).reconstruct(),
        s.combined_root()
    );
}

#[test]
fn roots_depend_on_the_order_but_contents_do_not() {
    let grow = |order: &[u8]| {
        let mut s = Certified::new();
        for i in order {
            s.record_birth([*i; 32], born(*i, 1));
        }
        s
    };
    let a = grow(&[1, 2, 3, 4]);
    let b = grow(&[4, 3, 2, 1]);
    assert_ne!(a.births_root(), b.births_root());
    assert_eq!(a.births_page(None, 10), b.births_page(None, 10));
    assert_eq!(a.births_count(), 4);
}

#[test]
fn the_same_birth_again_moves_no_root() {
    let mut s = Certified::new();
    for i in 0..20u8 {
        s.record_birth([i.wrapping_mul(37); 32], born(i, u64::from(i)));
    }
    let births = s.births_root();
    let combined = s.combined_root();
    for i in 0..20u8 {
        s.record_birth([i.wrapping_mul(37); 32], born(i, u64::from(i)));
        assert_eq!(s.births_root(), births);
        assert_eq!(s.combined_root(), combined);
    }
    assert_eq!(s.births_count(), 20);
    // Another birth of the same escrow overwrites, and moves it.
    s.record_birth([0; 32], born(99, 0));
    assert_ne!(s.births_root(), births);
    assert_eq!(s.births_count(), 20);
}

#[test]
fn settlements_and_births_in_any_order_give_the_same_contents() {
    let grow = |order: &[u8]| {
        let mut s = Certified::new();
        for i in order {
            if i % 2 == 0 {
                s.apply_settlement(settled([i / 4; 32], 2, u128::from(*i) + 1))
                    .expect("fits");
            } else {
                s.record_birth([*i; 32], born(*i, 1));
            }
        }
        s
    };
    let a = grow(&[0, 1, 2, 3, 4, 5, 6, 7]);
    let b = grow(&[7, 2, 5, 0, 3, 6, 1, 4]);
    assert_eq!(a.book_page(None, 10), b.book_page(None, 10));
    assert_eq!(a.births_page(None, 10), b.births_page(None, 10));
    assert_eq!(a.reputation(CHAIN, [0; 32], [2; 32]), 1 + 3);
    assert_eq!(b.reputation(CHAIN, [1; 32], [2; 32]), 5 + 7);
    // A limit of exactly the number of entries holds them all.
    assert_eq!(a.book_page(None, 2).len() as u64, a.book_keys());
    assert_eq!(a.births_page(None, 4).len() as u64, a.births_count());
    assert_eq!(a.births_page(None, 3).len(), 3);
}

#[test]
fn transactions_in_any_order_fold_to_the_same() {
    // Escrow 8 is born in `b`, escrow 9 in `c`, which also settles it.
    let mut counted = recognized(vec![settled([1; 32], 2, 10)], vec![]);
    counted.anomalies = 3;
    let txs = [
        ("a", counted, vec![false]),
        ("b", recognized(vec![], vec![([8; 32], born(6, 5))]), vec![]),
        (
            "c",
            recognized(
                vec![settled([9; 32], 2, 4), settled([1; 32], 2, 1)],
                vec![([9; 32], born(1, 6))],
            ),
            vec![true, false],
        ),
        ("d", recognized(vec![settled([8; 32], 2, 20)], vec![]), vec![true]),
        ("e", recognized(vec![settled([9; 32], 3, 30)], vec![]), vec![true]),
    ];
    let run = |order: &[usize]| {
        let mut s = Certified::new();
        for i in order {
            let (signature, r, keyless) = &txs[*i];
            assert!(matches!(
                fold(&mut s, signature.as_bytes().to_vec(), r, keyless),
                Folded::Applied(_)
            ));
        }
        s
    };
    let first = run(&[0, 1, 2, 3, 4]);
    assert_eq!(first.reputation(CHAIN, [1; 32], [2; 32]), 10 + 1 + 4);
    assert_eq!(first.reputation(CHAIN, [1; 32], [3; 32]), 30);
    assert_eq!(first.reputation(CHAIN, [6; 32], [2; 32]), 20);
    for order in [[2, 4, 1, 3, 0], [1, 3, 0, 2, 4], [0, 2, 1, 4, 3]] {
        let s = run(&order);
        assert_eq!(s.book_page(None, 10), first.book_page(None, 10));
        assert_eq!(s.births_page(None, 10), first.births_page(None, 10));
        assert_eq!(s.applied_count(), 5);
        assert_eq!(s.anomaly_count(), 3);
        for (signature, _, _) in &txs {
            assert!(s.is_applied(signature.as_bytes()));
        }
    }
}

#[test]
fn an_escrow_born_in_two_ways_keeps_the_last() {
    let one = recognized(vec![], vec![([9; 32], born(1, 5))]);
    let other = recognized(vec![], vec![([9; 32], born(2, 5))]);
    let mut s = Certified::new();
    let mut t = Certified::new();
    assert!(matches!(fold(&mut s, b"a".to_vec(), &one, &vec![]), Folded::Applied(_)));
    assert!(matches!(fold(&mut s, b"b".to_vec(), &other, &vec![]), Folded::Applied(_)));
    assert!(matches!(fold(&mut t, b"b".to_vec(), &other, &vec![]), Folded::Applied(_)));
    assert!(matches!(fold(&mut t, b"a".to_vec(), &one, &vec![]), Folded::Applied(_)));
    assert_eq!(s.birth(&[9; 32]), Some(born(2, 5)));
    assert_eq!(t.birth(&[9; 32]), Some(born(1, 5)));
}

#[test]
fn a_walk_is_as_long_as_the_count() {
    let mut s = Certified::new();
    for i in 0..11u8 {
        s.apply_settlement(settled([i; 32], 2, 1)).expect("fits");
    }
    for limit in [1usize, 3, 11, 50] {
        let mut seen: u64 = 0;
        let mut cursor: Option<Vec<u8>> = None;
        loop {
            let page = s.book_page(cursor.as_deref(), limit);
            match page.last() {
                None => break,
                Some((chain, donor, recipient, _)) => {
                    cursor = Some(book_key(*chain, *donor, *recipient));
                }
            }
            seen += page.len() as u64;
        }
        assert_eq!(seen, s.book_keys(), "limit {limit}");
    }
}

#[test]
fn a_page_surfaces_the_parts_of_each_key() {
    let mut s = Certified::new();
    for i in 1..6u8 {
        s.apply_settlement(Settled {
            chain: ChainId([i; 32]),
            donor: [i + 10; 32],
            recipient: [i + 20; 32],
            gross: u128::from(i) * 7,
        })
        .expect("fits");
    }
    let page = get_book_page(&s, None, 10).expect("page");
    assert_eq!(page.len(), 5);
    for (n, e) in page.into_iter().enumerate() {
        let i = n as u8 + 1;
        assert_eq!(e.chain, vec![i; 32]);
        assert_eq!(e.donor, vec![i + 10; 32]);
        assert_eq!(e.recipient, vec![i + 20; 32]);
        assert_eq!(e.reputation, u128::from(i) * 7);
        let point = get_reputation(&s, e.chain, e.donor, e.recipient);
        assert_eq!(point.0, e.reputation);
    }
}

#[test]
fn an_address_is_derived_at_the_greatest_bump_off_the_curve() {
    let disc = anchor_disc("global", "create_escrow");
    let mut below_the_top = 0;
    for salt in 0..24u8 {
        let program = [5u8; 32];
        let mut data = disc.to_vec();
        data.extend([salt; 32]);
        let instr = Instr {
            program,
            accounts: vec![[1; 32], [2; 32]],
            data,
        };
        let digest = |bump: u8| -> [u8; 32] {
            let mut h = Sha256::new();
            h.update(b"escrow");
            h.update([salt; 32]);
            h.update([bump]);
            h.update(program);
            h.update(b"ProgramDerivedAddress");
            h.finalize().into()
        };
        let bump = (1..=255u8)
            .rev()
            .find(|b| solana_is_off_curve(&digest(*b)))
            .expect("some bump");
        if bump < 255 {
            below_the_top += 1;
        }
        assert_eq!(
            derive_escrow(&instr, &disc, &vec![program]),
            Some(digest(bump)),
            "salt {salt}"
        );
    }
    assert!(below_the_top > 0);
}

#[test]
fn texts_stand_for_bytes() {
    assert_eq!(decode_base58(""), Some(vec![]));
    assert_eq!(decode_base58("1"), Some(vec![0]));
    assert_eq!(decode_base58("StV1DL6CwTryKyV"), Some(b"hello world".to_vec()));
    assert_eq!(decode_base58("11StV1DL6CwTryKyV"), Some(b"\0\0hello world".to_vec()));
    for bad in ["0", "O", "I", "l", " 1", "1\n", "é", "2-3"] {
        assert_eq!(decode_base58(bad), None, "{bad}");
    }
    // Whatever bytes are written are read.
    for len in 0..40usize {
        let bytes: Vec<u8> = (0..len).map(|i| (i * 37 % 251) as u8).collect();
        let text = bs58::encode(&bytes).into_string();
        assert_eq!(decode_base58(&text), Some(bytes));
    }
}

#[test]
fn derived_addresses_are_off_the_curve() {
    let factory = [3u8; 32];
    let mut data = anchor_disc("global", "create_escrow").to_vec();
    data.extend([42u8; 32]);
    let instr = Instr {
        program: factory,
        accounts: vec![[1; 32], [2; 32]],
        data,
    };
    let disc = anchor_disc("global", "create_escrow");
    let (expected, _bump) = Pubkey::find_program_address(
        &[b"escrow", &[42u8; 32]],
        &Pubkey::new_from_array(factory),
    );
    let escrow = derive_escrow(&instr, &disc, &vec![factory]).expect("derives");
    assert_eq!(escrow, expected.to_bytes());
    assert!(solana_is_off_curve(&escrow));
    assert!(!solana_is_off_curve(&[1u8; 32]));

    assert_eq!(escrow_salt(&instr, &disc, &vec![factory]), Some([42; 32]));
    // Another program, another discriminator, or too few accounts: no escrow.
    assert_eq!(escrow_salt(&instr, &disc, &vec![[4; 32]]), None);
    assert_eq!(derive_escrow(&instr, &[0; 8], &vec![factory]), None);
    let mut short = instr.clone();
    short.accounts.pop();
    assert_eq!(escrow_salt(&short, &disc, &vec![factory]), None);
    let mut cut = instr.clone();
    cut.data.truncate(39);
    assert_eq!(escrow_salt(&cut, &disc, &vec![factory]), None);

    assert!(decode_birth(&instr, &disc, &vec![factory], &Some(escrow), 5).is_none());
    let mut real = instr.clone();
    real.accounts[1] = escrow;
    assert_eq!(
        decode_birth(&real, &disc, &vec![factory], &Some(escrow), 5),
        Some((escrow, Birth { donor: [1; 32], slot: 5 }))
    );
    assert!(decode_birth(&real, &disc, &vec![factory], &None, 5).is_none());
}

// ----- recognition -----

fn transfer_checked(mint: [u8; 32], amount: u64, authority: [u8; 32]) -> Instr {
    let mut data = vec![12u8];
    data.extend(amount.to_le_bytes());
    data.push(6);
    Instr {
        program: TOKEN_PROGRAM_ID,
        accounts: vec![[0; 32], mint, [0; 32], authority],
        data,
    }
}

fn event(program: [u8; 32], disc: [u8; 8], donor: [u8; 32], gross: u64) -> Instr {
    let mut data = EVENT_IX_TAG_LE.to_vec();
    data.extend(disc);
    data.extend(donor);
    data.extend([11u8; 32]);
    data.extend(gross.to_le_bytes());
    Instr {
        program,
        accounts: vec![],
        data,
    }
}

fn cfg(min_gross: u128) -> ChainConfig {
    ChainConfig {
        chain: CHAIN,
        splitter: [1; 32],
        usdc: [2; 32],
        factories: vec![[1; 32]],
        min_gross,
    }
}

#[test]
fn transfers_are_read_from_the_token_program_alone() {
    let good = transfer_checked([2; 32], 500, [10; 32]);
    let mut other_program = good.clone();
    other_program.program = [9; 32];
    let mut other_tag = good.clone();
    other_tag.data[0] = 3;
    let mut short_data = good.clone();
    short_data.data.truncate(8);
    let mut few_accounts = good.clone();
    few_accounts.accounts.pop();
    let mut empty = good.clone();
    empty.data.clear();
    let tx = Tx {
        slot: 1,
        instrs: vec![other_program, other_tag, good, short_data, few_accounts, empty],
    };
    let found = collect_transfers(&tx);
    assert_eq!(found.len(), 1);
    assert_eq!(found[0].mint, [2; 32]);
    assert_eq!(found[0].amount, 500);
    assert_eq!(found[0].authority, [10; 32]);
}

#[test]
fn a_transfer_is_consumed_by_one_claim() {
    let transfer = |amount: u64| Transfer {
        mint: [2; 32],
        amount,
        authority: [10; 32],
    };
    let claim = settled([10; 32], 3, 500);
    let mut pool = vec![None, Some(transfer(499)), Some(transfer(500)), Some(transfer(500))];
    assert!(take_matching(&mut pool, &[2; 32], &claim));
    assert!(pool[1].is_some() && pool[2].is_none() && pool[3].is_some());
    assert!(!take_matching(&mut pool, &[5; 32], &claim));
    assert!(take_matching(&mut pool, &[2; 32], &claim));
    assert!(!take_matching(&mut pool, &[2; 32], &claim));
    assert!(pool[1].is_some());
}

#[test]
fn an_event_is_decoded_by_its_tag_and_discriminator() {
    let disc = [1, 2, 3, 4, 5, 6, 7, 8];
    let e = event([1; 32], disc, [10; 32], 500);
    let s = decode_settled(&e.data, &disc, CHAIN).expect("decodes");
    assert_eq!(s.donor, [10; 32]);
    assert_eq!(s.recipient, [11; 32]);
    assert_eq!(s.gross, 500);
    assert_eq!(s.chain, CHAIN);
    assert!(decode_settled(&e.data, &[0; 8], CHAIN).is_none());
    assert!(decode_settled(&e.data[..87], &disc, CHAIN).is_none());
    let mut bad_tag = e.data.clone();
    bad_tag[0] ^= 1;
    assert!(decode_settled(&bad_tag, &disc, CHAIN).is_none());
}

#[test]
fn settled_money_was_moved() {
    let settled_disc = [1; 8];
    let create_disc = [2; 8];
    let d = [10u8; 32];
    let tx = Tx {
        slot: 4,
        instrs: vec![
            event([1; 32], settled_disc, d, 500),
            event([1; 32], settled_disc, d, 500),
            transfer_checked([2; 32], 500, d),
            event([1; 32], settled_disc, d, 700),
            transfer_checked([2; 32], 700, d),
            event([1; 32], settled_disc, d, 50),
            event([1; 32], settled_disc, [12; 32], 500),
            transfer_checked([2; 32], 50, d),
        ],
    };
    let pdas = vec![None; tx.instrs.len()];
    let r = recognize_with(&tx, &cfg(100), &settled_disc, &create_disc, &pdas);
    // One 500 of two, the 700; the 50 is dust; the stranger's 500 is unbacked.
    assert_eq!(r.settlements.len(), 2);
    assert_eq!(r.anomalies, 2);
    let total: u128 = r.settlements.iter().map(|s| s.gross).sum();
    assert!(total <= 500 + 700 + 50);
    assert!(r.settlements.iter().all(|s| s.donor == d));
    // Claims above the floor are settled or anomalies.
    assert_eq!(r.settlements.len() as u64 + r.anomalies, 4);
}

#[test]
fn a_claim_settles_as_often_as_it_is_made_and_moved() {
    let settled_disc = [1; 8];
    let d = [10u8; 32];
    for claims in 0..4usize {
        for moves in 0..4usize {
            let mut instrs = vec![event([1; 32], settled_disc, d, 500); claims];
            instrs.extend(vec![transfer_checked([2; 32], 500, d); moves]);
            let tx = Tx { slot: 4, instrs };
            let pdas = vec![None; tx.instrs.len()];
            let r = recognize_with(&tx, &cfg(100), &settled_disc, &[2; 8], &pdas);
            assert_eq!(r.settlements.len(), claims.min(moves));
            assert_eq!(r.anomalies as usize, claims - claims.min(moves));
        }
    }
}

#[test]
fn a_splitter_that_is_a_factory_still_bears_what_is_no_event() {
    let disc = [2; 8];
    let mut data = disc.to_vec();
    data.extend([5u8; 32]);
    let tx = Tx {
        slot: 9,
        instrs: vec![Instr {
            program: [1; 32],
            accounts: vec![[10; 32], [20; 32]],
            data,
        }],
    };
    let r = recognize_with(&tx, &cfg(0), &[1; 8], &disc, &vec![Some([20; 32])]);
    assert_eq!(r.births, vec![([20; 32], Birth { donor: [10; 32], slot: 9 })]);
    let spoofed = recognize_with(&tx, &cfg(0), &[1; 8], &disc, &vec![Some([21; 32])]);
    assert!(spoofed.births.is_empty());
}

#[test]
fn apply_publishes_a_root_exactly_where_it_folds() {
    let mut s = Certified::new();
    let donor = [1u8; 32];
    let mut config = cfg(0);
    config.splitter = [71; 32];
    let tx = Tx {
        slot: 1,
        instrs: vec![
            transfer_checked([2; 32], 500, donor),
            event([71; 32], anchor_disc("event", "Settled"), donor, 500),
        ],
    };
    let (folded, root) = apply(&mut s, b"a".to_vec(), &tx, &config);
    assert!(matches!(folded, Folded::Applied(Applied { settlements: 1, .. })));
    assert_eq!(root, Some(s.combined_root()));
    let (folded, root) = apply(&mut s, b"a".to_vec(), &tx, &config);
    assert!(matches!(folded, Folded::Duplicate));
    assert_eq!(root, None);
    assert_eq!(s.reputation(CHAIN, donor, [11; 32]), 500);
}
