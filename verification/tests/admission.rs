//! The order of the checks that run before any work.

use crown_indexer::gate::{gate, Gate};

const PRICE: u128 = 10_000_000_000;
const FLOOR: u128 = 1_000_000_000_000;

#[test]
fn unpaid_ingest_does_not_proceed() {
    // Nothing attached, healthy balance — must not proceed (no outcall).
    assert_eq!(gate(false, 0, FLOOR, PRICE, FLOOR), Gate::Underpaid);
    // One cycle short is still underpaid.
    assert_eq!(gate(false, PRICE - 1, FLOOR, PRICE, FLOOR), Gate::Underpaid);
}

#[test]
fn duplicate_is_free_even_when_paid_or_underpaid() {
    // A duplicate wins over every other verdict — never charged, never worked.
    assert_eq!(gate(true, PRICE, FLOOR, PRICE, FLOOR), Gate::Duplicate);
    assert_eq!(gate(true, 0, 0, PRICE, FLOOR), Gate::Duplicate);
}

#[test]
fn paid_but_low_balance_refuses_to_touch_reserve() {
    assert_eq!(
        gate(false, PRICE, FLOOR - 1, PRICE, FLOOR),
        Gate::LowBalance
    );
}

#[test]
fn paid_and_healthy_proceeds() {
    assert_eq!(gate(false, PRICE, FLOOR, PRICE, FLOOR), Gate::Proceed);
    // Overpayment proceeds too (the update accepts exactly INGEST_PRICE).
    assert_eq!(
        gate(false, PRICE * 2, FLOOR * 2, PRICE, FLOOR),
        Gate::Proceed
    );
}
