use pay_tx::Balance;
use pay_tx::Ledger;
use pay_tx::Outcome;
use pay_tx::Tx;
use pay_tx::TxKind;

fn tx(kind: TxKind, client: u64, tx_id: u64, amount: i64) -> Tx {
    Tx { kind, client, tx_id, amount }
}

fn balance(l: &Ledger, client: u64) -> Balance {
    l.balance_of(client).expect("client should exist")
}

#[test]
fn it_works() {
    assert_eq!(2 + 2, 4);
}

#[test]
fn withdraw_test() {
    // A client with 10.0 available; a withdrawal of 8.8 by an unknown
    // client changes nothing, the same withdrawal by the right client
    // leaves 1.2 available.
    let mut l = Ledger::new();
    assert_eq!(l.deposit(&tx(TxKind::Deposit, 2, 100, 100000)), Outcome::Applied);

    assert_eq!(l.withdraw(&tx(TxKind::Withdrawal, 1, 1, 88000)), Outcome::UnknownClient);
    assert_eq!(balance(&l, 2).available, 100000);

    assert_eq!(l.withdraw(&tx(TxKind::Withdrawal, 2, 1, 88000)), Outcome::Applied);
    assert_eq!(balance(&l, 2).available, 12000);
}

#[test]
fn deposit_creates_client_with_available_funds() {
    // deposit c1 tx1 5.0 -> available=5.0, held=0.0, locked=false
    let mut l = Ledger::new();
    assert_eq!(l.apply(&tx(TxKind::Deposit, 1, 1, 50000)), Outcome::Applied);
    let b = balance(&l, 1);
    assert_eq!(b.available, 50000);
    assert_eq!(b.held, 0);
    assert!(!b.locked);
}

#[test]
fn second_deposit_accumulates() {
    // ... then deposit c1 tx2 3.0 -> available=8.0
    let mut l = Ledger::new();
    assert_eq!(l.apply(&tx(TxKind::Deposit, 1, 1, 50000)), Outcome::Applied);
    assert_eq!(l.apply(&tx(TxKind::Deposit, 1, 2, 30000)), Outcome::Applied);
    assert_eq!(balance(&l, 1).available, 80000);
}

#[test]
fn withdrawal_records_negative_amount() {
    // ... then withdrawal c1 tx3 2.0 -> available=6.0, applied[tx3]=-2.0
    let mut l = Ledger::new();
    assert_eq!(l.apply(&tx(TxKind::Deposit, 1, 1, 50000)), Outcome::Applied);
    assert_eq!(l.apply(&tx(TxKind::Deposit, 1, 2, 30000)), Outcome::Applied);
    assert_eq!(l.apply(&tx(TxKind::Withdrawal, 1, 3, 20000)), Outcome::Applied);
    assert_eq!(balance(&l, 1).available, 60000);
    assert_eq!(l.applied_amount(3), Some(-20000));
}

#[test]
fn dispute_moves_amount_into_held() {
    // ... then dispute tx1 -> available=1.0, held=5.0, total=6.0
    let mut l = Ledger::new();
    assert_eq!(l.apply(&tx(TxKind::Deposit, 1, 1, 50000)), Outcome::Applied);
    assert_eq!(l.apply(&tx(TxKind::Deposit, 1, 2, 30000)), Outcome::Applied);
    assert_eq!(l.apply(&tx(TxKind::Withdrawal, 1, 3, 20000)), Outcome::Applied);
    assert_eq!(l.apply(&tx(TxKind::Dispute, 1, 1, 0)), Outcome::Applied);
    let b = balance(&l, 1);
    assert_eq!(b.available, 10000);
    assert_eq!(b.held, 50000);
    assert!(!b.locked);
    assert!(l.is_disputed(1));
}

#[test]
fn resolve_restores_available_funds() {
    // Branch A: resolve tx1 -> available=6.0, held=0.0, tx1 out of dispute
    let mut l = Ledger::new();
    assert_eq!(l.apply(&tx(TxKind::Deposit, 1, 1, 50000)), Outcome::Applied);
    assert_eq!(l.apply(&tx(TxKind::Deposit, 1, 2, 30000)), Outcome::Applied);
    assert_eq!(l.apply(&tx(TxKind::Withdrawal, 1, 3, 20000)), Outcome::Applied);
    assert_eq!(l.apply(&tx(TxKind::Dispute, 1, 1, 0)), Outcome::Applied);
    assert_eq!(l.apply(&tx(TxKind::Resolve, 1, 1, 0)), Outcome::Applied);
    let b = balance(&l, 1);
    assert_eq!(b.available, 60000);
    assert_eq!(b.held, 0);
    assert!(!b.locked);
    assert!(!l.is_disputed(1));
}

#[test]
fn chargeback_removes_held_funds_and_locks() {
    // Branch B: chargeback tx1 -> available=1.0, held=0.0, locked=true
    let mut l = Ledger::new();
    assert_eq!(l.apply(&tx(TxKind::Deposit, 1, 1, 50000)), Outcome::Applied);
    assert_eq!(l.apply(&tx(TxKind::Deposit, 1, 2, 30000)), Outcome::Applied);
    assert_eq!(l.apply(&tx(TxKind::Withdrawal, 1, 3, 20000)), Outcome::Applied);
    assert_eq!(l.apply(&tx(TxKind::Dispute, 1, 1, 0)), Outcome::Applied);
    assert_eq!(l.apply(&tx(TxKind::Chargeback, 1, 1, 0)), Outcome::Applied);
    let b = balance(&l, 1);
    assert_eq!(b.available, 10000);
    assert_eq!(b.held, 0);
    assert!(b.locked);
    // A chargeback leaves the id in the dispute set.
    assert!(l.is_disputed(1));
}

#[test]
fn withdrawal_on_unknown_client_creates_nothing() {
    let mut l = Ledger::new();
    assert_eq!(l.apply(&tx(TxKind::Withdrawal, 7, 1, 10000)), Outcome::UnknownClient);
    assert!(l.balance_of(7).is_none());
    assert_eq!(l.applied_amount(1), None);
}

#[test]
fn duplicate_deposit_is_a_no_op() {
    let mut l = Ledger::new();
    assert_eq!(l.apply(&tx(TxKind::Deposit, 1, 1, 50000)), Outcome::Applied);
    assert_eq!(l.apply(&tx(TxKind::Deposit, 1, 1, 70000)), Outcome::DuplicateTx);
    assert_eq!(balance(&l, 1).available, 50000);
    assert_eq!(l.applied_amount(1), Some(50000));
}

#[test]
fn duplicate_withdrawal_is_a_no_op() {
    let mut l = Ledger::new();
    assert_eq!(l.apply(&tx(TxKind::Deposit, 1, 1, 50000)), Outcome::Applied);
    assert_eq!(l.apply(&tx(TxKind::Withdrawal, 1, 2, 10000)), Outcome::Applied);
    assert_eq!(l.apply(&tx(TxKind::Withdrawal, 1, 2, 10000)), Outcome::DuplicateTx);
    assert_eq!(balance(&l, 1).available, 40000);
}

#[test]
fn second_dispute_without_resolve_is_rejected() {
    let mut l = Ledger::new();
    assert_eq!(l.apply(&tx(TxKind::Deposit, 1, 1, 50000)), Outcome::Applied);
    assert_eq!(l.apply(&tx(TxKind::Dispute, 1, 1, 0)), Outcome::Applied);
    assert_eq!(l.apply(&tx(TxKind::Dispute, 1, 1, 0)), Outcome::AlreadyDisputed);
    let b = balance(&l, 1);
    assert_eq!(b.available, 0);
    assert_eq!(b.held, 50000);
    // After a resolve the same id can be disputed again.
    assert_eq!(l.apply(&tx(TxKind::Resolve, 1, 1, 0)), Outcome::Applied);
    assert_eq!(l.apply(&tx(TxKind::Dispute, 1, 1, 0)), Outcome::Applied);
}

#[test]
fn locked_client_rejects_deposits_and_withdrawals() {
    let mut l = Ledger::new();
    assert_eq!(l.apply(&tx(TxKind::Deposit, 1, 1, 50000)), Outcome::Applied);
    assert_eq!(l.apply(&tx(TxKind::Dispute, 1, 1, 0)), Outcome::Applied);
    assert_eq!(l.apply(&tx(TxKind::Chargeback, 1, 1, 0)), Outcome::Applied);
    assert!(balance(&l, 1).locked);
    assert_eq!(l.apply(&tx(TxKind::Deposit, 1, 5, 10000)), Outcome::Locked);
    assert_eq!(l.apply(&tx(TxKind::Withdrawal, 1, 6, 10000)), Outcome::Locked);
    let b = balance(&l, 1);
    assert_eq!(b.available, 0);
    assert_eq!(b.held, 0);
}

#[test]
fn dispute_of_withdrawal_moves_signed_amount() {
    // Disputing a withdrawal moves a negative amount: available rises and
    // held goes negative.
    let mut l = Ledger::new();
    assert_eq!(l.apply(&tx(TxKind::Deposit, 2, 1, 50000)), Outcome::Applied);
    assert_eq!(l.apply(&tx(TxKind::Withdrawal, 2, 2, 22000)), Outcome::Applied);
    assert_eq!(l.apply(&tx(TxKind::Dispute, 2, 2, 0)), Outcome::Applied);
    let b = balance(&l, 2);
    assert_eq!(b.available, 50000);
    assert_eq!(b.held, -22000);
    assert!(!b.locked);
}

#[test]
fn insufficient_funds_rejects_withdrawal() {
    let mut l = Ledger::new();
    assert_eq!(l.apply(&tx(TxKind::Deposit, 1, 1, 10000)), Outcome::Applied);
    assert_eq!(l.apply(&tx(TxKind::Withdrawal, 1, 2, 10001)), Outcome::InsufficientFunds);
    assert_eq!(balance(&l, 1).available, 10000);
}

#[test]
fn dispute_of_unknown_tx_is_rejected() {
    let mut l = Ledger::new();
    assert_eq!(l.apply(&tx(TxKind::Deposit, 1, 1, 10000)), Outcome::Applied);
    assert_eq!(l.apply(&tx(TxKind::Dispute, 1, 99, 0)), Outcome::UnknownTx);
    assert_eq!(l.apply(&tx(TxKind::Resolve, 1, 99, 0)), Outcome::NotDisputed);
    assert_eq!(l.apply(&tx(TxKind::Chargeback, 1, 99, 0)), Outcome::NotDisputed);
}

#[test]
fn deposit_overflow_is_discarded() {
    let mut l = Ledger::new();
    assert_eq!(l.apply(&tx(TxKind::Deposit, 1, 1, i64::MAX)), Outcome::Applied);
    assert_eq!(l.apply(&tx(TxKind::Deposit, 1, 2, 1)), Outcome::OutOfRange);
    assert_eq!(balance(&l, 1).available, i64::MAX);
}

#[test]
fn dispute_on_locked_client_is_rejected() {
    let mut l = Ledger::new();
    assert_eq!(l.apply(&tx(TxKind::Deposit, 1, 1, 50000)), Outcome::Applied);
    assert_eq!(l.apply(&tx(TxKind::Deposit, 1, 2, 10000)), Outcome::Applied);
    assert_eq!(l.apply(&tx(TxKind::Dispute, 1, 1, 0)), Outcome::Applied);
    assert_eq!(l.apply(&tx(TxKind::Chargeback, 1, 1, 0)), Outcome::Applied);
    assert_eq!(l.apply(&tx(TxKind::Dispute, 1, 2, 0)), Outcome::Locked);
}

#[test]
fn resolve_is_not_blocked_by_a_lock() {
    // Chargeback keeps the id under dispute and resolve does not check the
    // lock, so a later resolve of the same id still moves the funds.
    let mut l = Ledger::new();
    assert_eq!(l.apply(&tx(TxKind::Deposit, 1, 1, 50000)), Outcome::Applied);
    assert_eq!(l.apply(&tx(TxKind::Dispute, 1, 1, 0)), Outcome::Applied);
    assert_eq!(l.apply(&tx(TxKind::Chargeback, 1, 1, 0)), Outcome::Applied);
    assert_eq!(l.apply(&tx(TxKind::Resolve, 1, 1, 0)), Outcome::Applied);
    let b = balance(&l, 1);
    assert_eq!(b.available, 50000);
    assert_eq!(b.held, -50000);
    assert!(b.locked);
    assert!(!l.is_disputed(1));
}

#[test]
fn snapshot_reports_total_as_sum() {
    let mut l = Ledger::new();
    assert_eq!(l.apply(&tx(TxKind::Deposit, 1, 1, 50000)), Outcome::Applied);
    assert_eq!(l.apply(&tx(TxKind::Deposit, 2, 2, 30000)), Outcome::Applied);
    assert_eq!(l.apply(&tx(TxKind::Dispute, 1, 1, 0)), Outcome::Applied);
    let rows = l.snapshot();
    assert_eq!(rows.len(), 2);
    for r in &rows {
        assert_eq!(r.total, r.available as i128 + r.held as i128);
    }
    let r1 = rows.iter().find(|r| r.client == 1).expect("row for client 1");
    assert_eq!(r1.available, 0);
    assert_eq!(r1.held, 50000);
    assert_eq!(r1.total, 50000);
    let r2 = rows.iter().find(|r| r.client == 2).expect("row for client 2");
    assert_eq!(r2.total, 30000);
}
