//! The certified state: the law of the book, births, pages, witnesses, exactly-once.

use crown_indexer::certified::{book_key, Birth, Certified};
use crown_indexer::reduce::{ChainId, Settled};

fn settled(chain: u8, d: u8, r: u8, gross: u128) -> Settled {
    let mut c = [0u8; 32];
    c[0] = chain;
    Settled {
        chain: ChainId(c),
        donor: [d; 32],
        recipient: [r; 32],
        gross,
    }
}

#[test]
fn fold_is_the_law_and_root_moves() {
    let mut s = Certified::new();
    let empty = s.combined_root();

    s.apply_settlement(settled(1, 1, 2, 100)).unwrap();
    s.apply_settlement(settled(1, 1, 2, 50)).unwrap(); // same key accumulates
    s.apply_settlement(settled(1, 3, 4, 7)).unwrap();

    // The law of the book held.
    let mut c = [0u8; 32];
    c[0] = 1;
    assert_eq!(s.reputation(ChainId([0; 32]), [0; 32], [0; 32]), 0); // absent key
    assert_eq!(s.reputation(ChainId(c), [7; 32], [8; 32]), 0); // absent key
    assert_eq!(s.reputation(ChainId(c), [1; 32], [2; 32]), 150);
    assert_eq!(s.reputation(ChainId(c), [3; 32], [4; 32]), 7);

    // Root is non-empty and changed from empty.
    assert_ne!(s.combined_root(), empty);
}

#[test]
fn witness_reconstructs_to_root() {
    let mut s = Certified::new();
    s.apply_settlement(settled(1, 1, 2, 150)).unwrap();
    s.apply_settlement(settled(1, 3, 4, 7)).unwrap();

    let mut c = [0u8; 32];
    c[0] = 1;
    let w = s.book_witness(ChainId(c), [1; 32], [2; 32]);
    // The full (forked) witness reconstructs to exactly the combined root —
    // this is what the NNS certificate certifies.
    assert_eq!(w.reconstruct(), s.combined_root());
}

#[test]
fn birth_is_recorded_and_roots_are_independent() {
    let mut s = Certified::new();
    let book_before = s.book_root();
    s.record_birth(
        [9; 32],
        Birth {
            donor: [1; 32],
            slot: 42,
        },
    );
    // Recording a birth does not touch the book root.
    assert_eq!(s.book_root(), book_before);
    assert_ne!(s.births_root(), Certified::new().births_root());
    let w = s.birth_witness([9; 32]);
    // The birth witness also reconstructs to the combined root.
    assert_eq!(w.reconstruct(), s.combined_root());
}

#[test]
fn births_page_walks_every_birth_exactly_once() {
    let mut s = Certified::new();
    for i in 0..10u8 {
        s.record_birth(
            [i; 32],
            Birth {
                donor: [i.wrapping_add(100); 32],
                slot: u64::from(i),
            },
        );
    }

    // Walk in pages of 3, feeding the last escrow back as the cursor — the
    // handoff's access pattern.
    let mut seen: Vec<[u8; 32]> = Vec::new();
    let mut cursor = None;
    loop {
        let page = s.births_page(cursor, 3);
        if page.is_empty() {
            break;
        }
        assert!(page.len() <= 3, "a page never exceeds its limit");
        cursor = page.last().map(|(k, _)| *k);
        seen.extend(page.into_iter().map(|(k, _)| k));
    }

    // Every birth, once, in key order: a page boundary neither skips nor
    // repeats — a skipped birth is a permanent misattribution in the successor.
    assert_eq!(seen.len(), 10);
    let mut expected: Vec<[u8; 32]> = (0..10u8).map(|i| [i; 32]).collect();
    expected.sort();
    assert_eq!(seen, expected);
    assert_eq!(s.births_count(), 10);
}

#[test]
fn book_page_walks_every_key_exactly_once_and_carries_the_total() {
    let mut s = Certified::new();
    for i in 0..10u8 {
        s.apply_settlement(settled(1, i, i.wrapping_add(1), 100))
            .unwrap();
        // Same key twice: the page must carry the accumulated total, not the
        // last settlement — the successor folds what it is given, once.
        s.apply_settlement(settled(1, i, i.wrapping_add(1), 5))
            .unwrap();
    }

    let mut seen: Vec<(Vec<u8>, u128)> = Vec::new();
    let mut cursor: Option<Vec<u8>> = None;
    loop {
        let page = s.book_page(cursor.as_deref(), 3);
        if page.is_empty() {
            break;
        }
        assert!(page.len() <= 3, "a page never exceeds its limit");
        cursor = page.last().map(|(c, d, r, _)| book_key(*c, *d, *r));
        seen.extend(page.into_iter().map(|(c, d, r, v)| (book_key(c, d, r), v)));
    }

    // Every key, once, in key order. A skipped key is reputation the successor
    // never learns about; a repeated one is reputation invented out of a page
    // boundary — and the law has no way to take either back.
    assert_eq!(seen.len(), 10);
    assert_eq!(s.book_keys(), 10);
    assert!(seen.iter().all(|(_, v)| *v == 105));
    let mut keys: Vec<Vec<u8>> = seen.iter().map(|(k, _)| k.clone()).collect();
    let sorted = {
        let mut k = keys.clone();
        k.sort();
        k
    };
    assert_eq!(keys, sorted, "pages come in key order");
    keys.dedup();
    assert_eq!(keys.len(), 10);
}

/// Two predecessors with the same content, grown in different orders, replay to
/// one successor. (Their own roots differ: the hash of a tree depends on the order
/// its keys were inserted in.)
#[test]
fn a_canonical_replay_of_the_pages_normalizes_whatever_order_gen1_grew_in() {
    // Two predecessors with identical content, grown in different orders —
    // exactly what "ingest order is arbitrary" means in production.
    let order_a: [u8; 7] = [0, 1, 2, 3, 4, 5, 6];
    let order_b: [u8; 7] = [4, 0, 6, 2, 5, 1, 3];
    let grow = |order: &[u8]| {
        let mut g = Certified::new();
        for &i in order {
            g.apply_settlement(settled(1, i, i.wrapping_add(1), 100 + u128::from(i)))
                .unwrap();
            g.apply_settlement(settled(2, i, i.wrapping_add(1), 9))
                .unwrap();
            g.record_birth(
                [i; 32],
                Birth {
                    donor: [i.wrapping_add(100); 32],
                    slot: u64::from(i),
                },
            );
        }
        g
    };
    let gen1a = grow(&order_a);
    let gen1b = grow(&order_b);

    // The same content really is the same content…
    assert_eq!(gen1a.book_keys(), gen1b.book_keys());
    assert_eq!(gen1a.births_count(), gen1b.births_count());
    assert_eq!(gen1a.book_page(None, 1_000), gen1b.book_page(None, 1_000));
    assert_eq!(
        gen1a.births_page(None, 1_000),
        gen1b.births_page(None, 1_000)
    );

    // …and the replay of that content is one successor, not two.
    let replay = |src: &Certified| {
        let mut g = Certified::new();
        for (chain, donor, recipient, gross) in src.book_page(None, 1_000) {
            g.apply_settlement(Settled {
                chain,
                donor,
                recipient,
                gross,
            })
            .unwrap();
        }
        for (escrow, birth) in src.births_page(None, 1_000) {
            g.record_birth(escrow, birth);
        }
        g
    };
    let gen2a = replay(&gen1a);
    let gen2b = replay(&gen1b);

    assert_eq!(
        gen2a.combined_root(),
        gen2b.combined_root(),
        "a canonical replay must not depend on how the predecessor grew — without \
         this the successor is unverifiable by anyone who did not watch the ingests"
    );
    assert_eq!(gen2a.book_keys(), gen1a.book_keys());
    assert_eq!(gen2a.births_count(), gen1a.births_count());
    assert_eq!(gen2a.book_page(None, 1_000), gen1a.book_page(None, 1_000));
    assert_eq!(
        gen2a.births_page(None, 1_000),
        gen1a.births_page(None, 1_000)
    );
}

/// One escrow is one birth, however often it is recorded.
#[test]
fn re_recording_a_birth_overwrites_without_double_counting() {
    let mut s = Certified::new();
    let escrow = [3u8; 32];
    s.record_birth(
        escrow,
        Birth {
            donor: [1; 32],
            slot: 10,
        },
    );
    assert_eq!(s.births_count(), 1);
    // Same escrow again (a re-ingest of the same `create_escrow`).
    s.record_birth(
        escrow,
        Birth {
            donor: [1; 32],
            slot: 10,
        },
    );
    assert_eq!(s.births_count(), 1, "one escrow is one birth");
    assert_eq!(s.births_page(None, 10).len(), 1);
    // A different escrow does move it.
    s.record_birth(
        [4u8; 32],
        Birth {
            donor: [2; 32],
            slot: 11,
        },
    );
    assert_eq!(s.births_count(), 2);
}

/// A birth is read off the same leaf that its witness proves.
#[test]
fn a_birth_reads_back_from_the_certified_leaf() {
    let mut s = Certified::new();
    let b = Birth {
        donor: [8; 32],
        slot: 4_242,
    };
    s.record_birth([6u8; 32], b);
    assert_eq!(s.birth(&[6u8; 32]), Some(b));
    assert_eq!(s.birth(&[7u8; 32]), None);
}

#[test]
fn births_page_carries_the_donor_the_successor_needs() {
    let mut s = Certified::new();
    s.record_birth(
        [4; 32],
        Birth {
            donor: [7; 32],
            slot: 99,
        },
    );
    let page = s.births_page(None, 10);
    assert_eq!(page.len(), 1);
    assert_eq!(page[0].0, [4u8; 32]);
    // Donor and slot survive the page — the seed is exactly what `attribute`
    // reads, so a seeded successor attributes an escrow born before it.
    assert_eq!(page[0].1.donor, [7u8; 32]);
    assert_eq!(page[0].1.slot, 99);
}

/// Nothing past the cutover is marked.
#[test]
fn a_signature_past_the_cutover_is_left_untouched() {
    let s = Certified::new();
    assert!(!s.is_applied(b"sigC"));
}

#[test]
fn book_keys_counts_distinct_keys_not_settlements() {
    let mut s = Certified::new();
    assert_eq!(s.book_keys(), 0);
    s.apply_settlement(settled(1, 1, 2, 100)).unwrap();
    s.apply_settlement(settled(1, 1, 2, 50)).unwrap(); // same key accumulates
    assert_eq!(s.book_keys(), 1, "the gauge measures stored keys");
    s.apply_settlement(settled(1, 3, 4, 7)).unwrap();
    assert_eq!(s.book_keys(), 2);
}

#[test]
fn attribution_credits_the_escrow_donor() {
    let mut s = Certified::new();
    let escrow = [5u8; 32];
    let real_donor = [1u8; 32];
    s.record_birth(
        escrow,
        Birth {
            donor: real_donor,
            slot: 1,
        },
    );
    let mut c = [0u8; 32];
    c[0] = 1;
    // A settlement whose donor is the escrow → credited to the funding donor.
    let event = Settled {
        chain: ChainId(c),
        donor: escrow,
        recipient: [2; 32],
        gross: 485,
    };
    assert_eq!(s.attribute(event).donor, real_donor);
    // A direct donation (no birth) → donor stands.
    let direct = Settled {
        chain: ChainId(c),
        donor: [9; 32],
        recipient: [2; 32],
        gross: 10,
    };
    assert_eq!(s.attribute(direct).donor, [9; 32]);
}

#[test]
fn exactly_once_and_empty_signature() {
    let mut s = Certified::new();
    assert!(!s.is_applied(b"sigA"));
    assert!(s.mark_applied(b"sigA".to_vec())); // newly applied
    assert!(s.is_applied(b"sigA"));
    assert!(!s.mark_applied(b"sigA".to_vec())); // already applied → not new

    // Empty signatures are never marked (invariant #1).
    assert!(!s.mark_applied(Vec::new()));
    assert!(!s.is_applied(b""));
    assert_eq!(s.applied_count(), 1);
}

/// Whichever copy of a signature comes first marks it; every other is refused.
#[test]
fn the_applied_set_is_the_whole_of_exactly_once() {
    let mut s = Certified::new();
    assert!(s.mark_applied(b"sigA".to_vec())); // the winner folds
    assert!(!s.mark_applied(b"sigA".to_vec())); // every sibling is refused
    assert!(!s.mark_applied(b"sigA".to_vec()));
    assert!(s.is_applied(b"sigA"));
    assert_eq!(s.applied_count(), 1, "one fold, however many callers raced");
}

/// Only a real fold marks a signature.
#[test]
fn a_signature_that_could_not_be_read_stays_foldable_forever() {
    let mut s = Certified::new();
    // No amount of failed reads is recorded anywhere: `applied` is the only
    // terminal state, and only a real fold sets it.
    assert!(!s.is_applied(b"sigB"));
    assert_eq!(s.applied_count(), 0);
    // The read finally lands — the signature folds normally.
    assert!(s.mark_applied(b"sigB".to_vec()));
    assert!(s.is_applied(b"sigB"));
    assert_eq!(s.applied_count(), 1);
}
