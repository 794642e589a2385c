//! The fixed order of cheap checks that run *before* any expensive work: nothing
//! costly happens until payment is accepted, so an unpaid or duplicate ingest
//! costs only reads.

use vstd::prelude::*;

verus! {

/// The verdict. Only `Proceed` is allowed to accept cycles and do work.
#[derive(Clone, Copy, Debug, PartialEq, Eq, Structural)]
pub enum Gate {
    /// Signature already folded in — nothing to do, no charge, no outcall.
    Duplicate,
    /// Attached cycles below the ingest price — reject before any work.
    Underpaid,
    /// Canister balance below the cycle floor — refuse to dip into the reserve.
    LowBalance,
    /// Paid and healthy — accept cycles, then fetch and recognize.
    Proceed,
}

/// The verdict by the first check that fails: already applied, then underpaid,
/// then a balance below the floor.
pub open spec fn verdict(
    is_applied: bool,
    attached: u128,
    balance: u128,
    ingest_price: u128,
    cycle_floor: u128,
) -> Gate {
    if is_applied {
        Gate::Duplicate
    } else if attached < ingest_price {
        Gate::Underpaid
    } else if balance < cycle_floor {
        Gate::LowBalance
    } else {
        Gate::Proceed
    }
}

/// Decide purely, in order: `is_applied` → attached ≥ `ingest_price` → balance ≥
/// `cycle_floor` → proceed. A duplicate is free even when underpaid, and
/// underpayment is rejected before the balance floor is even consulted.
pub fn gate(
    is_applied: bool,
    attached: u128,
    balance: u128,
    ingest_price: u128,
    cycle_floor: u128,
) -> (r: Gate)
    ensures
        r == verdict(is_applied, attached, balance, ingest_price, cycle_floor),
        r == Gate::Proceed <==> !is_applied && attached >= ingest_price && balance >= cycle_floor,
{
    if is_applied {
        return Gate::Duplicate;
    }
    if attached < ingest_price {
        return Gate::Underpaid;
    }
    if balance < cycle_floor {
        return Gate::LowBalance;
    }
    Gate::Proceed
}

} // verus!
