//! Which settlements can be credited to the wallet that paid them.

use crown_indexer::certified::{Birth, Certified};
use crown_indexer::derive::solana_is_off_curve;
use crown_indexer::reduce::{ChainId, Settled};
use crown_indexer::state::attributable;
use solana_program::pubkey::Pubkey;

fn settled(donor: [u8; 32]) -> Settled {
    Settled {
        chain: ChainId([1u8; 32]),
        donor,
        recipient: [2u8; 32],
        gross: 500_000,
    }
}

/// A canonical PDA — off the curve by construction, which is exactly the
/// shape of every escrow address.
fn pda(salt: [u8; 32]) -> [u8; 32] {
    let (addr, _bump) =
        Pubkey::find_program_address(&[b"escrow", &salt], &Pubkey::new_from_array([9u8; 32]));
    addr.to_bytes()
}

/// An address a private key could exist for — the shape of every wallet.
/// Asserted rather than assumed: roughly half of all byte patterns are off
/// the curve, so a fixture picked by eye would quietly exercise the *other*
/// branch and the test would pass for the wrong reason.
fn wallet() -> [u8; 32] {
    let w = [1u8; 32];
    assert!(
        !solana_is_off_curve(&w),
        "this fixture must be a possible public key"
    );
    w
}

#[test]
fn a_wallet_payer_needs_no_birth() {
    let s = Certified::new();
    assert!(attributable(&s, &[], &settled(wallet())));
}

/// An escrow settles and its birth is not in: refused until the birth lands.
#[test]
fn a_keyless_payer_without_a_birth_is_refused_until_the_birth_lands() {
    let mut s = Certified::new();
    let escrow = pda([42u8; 32]);
    assert!(!attributable(&s, &[], &settled(escrow)));

    s.record_birth(
        escrow,
        Birth {
            donor: [7u8; 32],
            slot: 1,
        },
    );
    assert!(attributable(&s, &[], &settled(escrow)));
}

/// A create-and-claim batch does not refuse itself.
#[test]
fn a_birth_in_the_same_transaction_counts() {
    let s = Certified::new();
    let escrow = pda([1u8; 32]);
    let births = [(
        escrow,
        Birth {
            donor: [7u8; 32],
            slot: 5,
        },
    )];
    assert!(!attributable(&s, &[], &settled(escrow)));
    assert!(attributable(&s, &births, &settled(escrow)));
}

/// A recorded birth of another escrow proves nothing about this one.
#[test]
fn another_escrows_birth_does_not_admit_this_one() {
    let mut s = Certified::new();
    s.record_birth(
        pda([1u8; 32]),
        Birth {
            donor: [7u8; 32],
            slot: 1,
        },
    );
    assert!(!attributable(&s, &[], &settled(pda([2u8; 32]))));
}
