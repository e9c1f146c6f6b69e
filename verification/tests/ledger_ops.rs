use parami_magic::ledger::{Ledger, LedgerError};

fn acct(bytes: &[u8]) -> Vec<u8> {
    bytes.to_vec()
}

#[test]
fn issue_and_query_balances() {
    let mut ledger = Ledger::new(5);
    let a = acct(b"a");
    assert_eq!(ledger.minimum_balance(), 5);
    assert_eq!(ledger.free_balance(&a), 0);
    ledger.issue(&a, 40).unwrap();
    ledger.issue(&a, 2).unwrap();
    assert_eq!(ledger.free_balance(&a), 42);
    assert_eq!(ledger.total_issued(), 42);
}

#[test]
fn issuance_overflow_is_refused() {
    let mut ledger = Ledger::new(0);
    let a = acct(b"a");
    let b = acct(b"b");
    ledger.issue(&a, u128::MAX - 1).unwrap();
    let r = ledger.issue(&b, 2);
    assert_eq!(r.unwrap_err(), LedgerError::IssuanceOverflow);
    assert_eq!(ledger.free_balance(&b), 0);
    assert_eq!(ledger.total_issued(), u128::MAX - 1);
}

#[test]
fn transfer_requires_funds() {
    let mut ledger = Ledger::new(1);
    let a = acct(b"a");
    let b = acct(b"b");
    ledger.issue(&a, 10).unwrap();
    let r = ledger.transfer(&a, &b, 11, true);
    assert_eq!(r.unwrap_err(), LedgerError::InsufficientFunds);
    assert_eq!(ledger.free_balance(&a), 10);
}

#[test]
fn keep_alive_transfer_protects_the_source() {
    let mut ledger = Ledger::new(5);
    let a = acct(b"a");
    let b = acct(b"b");
    ledger.issue(&a, 10).unwrap();
    let r = ledger.transfer(&a, &b, 7, true);
    assert_eq!(r.unwrap_err(), LedgerError::WouldKillSource);
    assert_eq!(ledger.free_balance(&a), 10);
    assert_eq!(ledger.free_balance(&b), 0);

    ledger.transfer(&a, &b, 5, true).unwrap();
    assert_eq!(ledger.free_balance(&a), 5);
    assert_eq!(ledger.free_balance(&b), 5);
}

#[test]
fn allow_removal_transfer_burns_dust() {
    let mut ledger = Ledger::new(5);
    let a = acct(b"a");
    let b = acct(b"b");
    ledger.issue(&a, 10).unwrap();
    // The remainder 3 is below the minimum: the account goes, the dust burns.
    ledger.transfer(&a, &b, 7, false).unwrap();
    assert_eq!(ledger.free_balance(&a), 0);
    assert_eq!(ledger.free_balance(&b), 7);
    assert_eq!(ledger.total_issued(), 7);
}

#[test]
fn full_balance_transfer_loses_nothing() {
    let mut ledger = Ledger::new(5);
    let a = acct(b"a");
    let b = acct(b"b");
    ledger.issue(&a, 10).unwrap();
    ledger.transfer(&a, &b, 10, false).unwrap();
    assert_eq!(ledger.free_balance(&a), 0);
    assert_eq!(ledger.free_balance(&b), 10);
    assert_eq!(ledger.total_issued(), 10);
}

#[test]
fn self_transfer_changes_nothing() {
    let mut ledger = Ledger::new(1);
    let a = acct(b"a");
    ledger.issue(&a, 10).unwrap();
    ledger.transfer(&a, &a, 10, true).unwrap();
    assert_eq!(ledger.free_balance(&a), 10);
    let r = ledger.transfer(&a, &a, 11, true);
    assert_eq!(r.unwrap_err(), LedgerError::InsufficientFunds);
}
