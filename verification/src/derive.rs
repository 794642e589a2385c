//! Addresses on and off the ed25519 curve.

use crate::bytes::Address;
use crate::digest::sha256_of;
use solana_program::pubkey::Pubkey;
use vstd::prelude::*;
use vstd::string::*;

verus! {

/// Whether an address is a point of the ed25519 curve, as every public key is.
pub uninterp spec fn on_curve(address: Seq<u8>) -> bool;

/// Whether an address is off the curve, so that no private key can exist for it.
pub open spec fn off_curve(address: Seq<u8>) -> bool {
    !on_curve(address)
}

/// What a program derives from its seeds and a bump: a SHA-256 digest.
pub open spec fn derived_at(
    program: Seq<u8>,
    first: Seq<u8>,
    second: Seq<u8>,
    bump: u8,
) -> Seq<u8> {
    sha256_of(
        first + second + seq![bump] + program + "ProgramDerivedAddress".spec_bytes(),
    )
}

/// The derived digest off the curve with the greatest bump that is at most `bump`
/// and above zero.
pub open spec fn derived_from(
    program: Seq<u8>,
    first: Seq<u8>,
    second: Seq<u8>,
    bump: u8,
) -> Option<Seq<u8>>
    decreases bump,
{
    if bump == 0 {
        None
    } else if off_curve(derived_at(program, first, second, bump)) {
        Some(derived_at(program, first, second, bump))
    } else {
        derived_from(program, first, second, (bump - 1) as u8)
    }
}

/// The address a program derives from two seeds, if there is one: that of the
/// greatest bump whose digest is off the curve. A seed has at most 32 bytes.
pub open spec fn program_address(program: Seq<u8>, first: Seq<u8>, second: Seq<u8>) -> Option<
    Seq<u8>,
> {
    if first.len() > 32 || second.len() > 32 {
        None
    } else {
        derived_from(program, first, second, 255)
    }
}

/// A derived address is off the curve: no private key can exist for it.
pub proof fn derived_addresses_are_off_the_curve(
    program: Seq<u8>,
    first: Seq<u8>,
    second: Seq<u8>,
)
    ensures
        program_address(program, first, second) matches Some(a) ==> off_curve(a),
{
    lemma_derived_from(program, first, second, 255);
}

proof fn lemma_derived_from(program: Seq<u8>, first: Seq<u8>, second: Seq<u8>, bump: u8)
    ensures
        derived_from(program, first, second, bump) matches Some(a) ==> off_curve(a),
    decreases bump,
{
    if bump > 0 {
        lemma_derived_from(program, first, second, (bump - 1) as u8);
    }
}

/// An address where there is one, as bytes.
pub open spec fn address_bytes(a: Option<Address>) -> Option<Seq<u8>> {
    match a {
        Some(x) => Some(x@),
        None => None,
    }
}

/// `solana_program::pubkey::Pubkey::try_find_program_address` for two seeds: it
/// tries the bumps from 255 down to 1 and answers with the first SHA-256 digest of
/// the seeds, the bump, the program and a marker that is off the curve; with
/// nothing where there is none or a seed is longer than 32 bytes.
#[verifier::external_body]
pub(crate) fn solana_pda_address(program: Address, first: &[u8], second: &[u8]) -> (r: Option<
    Address,
>)
    ensures
        address_bytes(r) == program_address(program@, first@, second@),
{
    Pubkey::try_find_program_address(&[first, second], &Pubkey::new_from_array(program)).map(
        |(address, _bump)| address.to_bytes(),
    )
}

/// `solana_program::pubkey::Pubkey::is_on_curve`: whether the address is a point
/// of the curve, a function of its bytes.
#[verifier::external_body]
pub(crate) fn solana_is_on_curve(address: &Address) -> (r: bool)
    ensures
        r == on_curve(address@),
{
    Pubkey::new_from_array(*address).is_on_curve()
}

/// Whether an address is off the curve.
pub fn solana_is_off_curve(address: &Address) -> (r: bool)
    ensures
        r == off_curve(address@),
{
    !solana_is_on_curve(address)
}

} // verus!
