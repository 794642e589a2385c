//! The law of the book: reputation is the sum of what was settled. It only ever
//! adds.

use crate::bytes::Address;
use vstd::prelude::*;

verus! {

/// The identity of a chain in a book key: 32 opaque bytes.
#[derive(Clone, Copy, Debug, PartialEq, Eq)]
pub struct ChainId(pub [u8; 32]);

/// One settlement: `gross` moved from `donor` to `recipient`.
#[derive(Clone, Copy, Debug, PartialEq, Eq)]
pub struct Settled {
    pub chain: ChainId,
    pub donor: Address,
    pub recipient: Address,
    pub gross: u128,
}

/// A sum that does not fit the book.
#[derive(Clone, Copy, Debug, PartialEq, Eq)]
pub struct Overflow;

/// What a settlement says.
pub struct SettledSpec {
    pub chain: Seq<u8>,
    pub donor: Seq<u8>,
    pub recipient: Seq<u8>,
    pub gross: u128,
}

impl View for Settled {
    type V = SettledSpec;

    open spec fn view(&self) -> SettledSpec {
        SettledSpec {
            chain: self.chain.0@,
            donor: self.donor@,
            recipient: self.recipient@,
            gross: self.gross,
        }
    }
}

/// Fold one settlement into an accumulated value: their sum, or a refusal where
/// the sum does not fit.
pub fn fold_one(acc: u128, gross: u128) -> (r: Result<u128, Overflow>)
    ensures
        (match r {
            Ok(sum) => sum == acc + gross,
            Err(_) => acc + gross > u128::MAX,
        }),
{
    match acc.checked_add(gross) {
        Some(sum) => Ok(sum),
        None => Err(Overflow),
    }
}

} // verus!
