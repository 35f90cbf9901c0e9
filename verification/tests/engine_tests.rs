use ledger::engine::{parse_kind, Account, Ledger, LedgerError, Transaction, TxKind};

fn acct(l: &Ledger, c: u16) -> Account {
    l.account(c).expect("account should exist")
}

#[test]
fn deposit_then_dispute_then_resolve() {
    let mut l = Ledger::new();
    assert_eq!(l.apply(&Transaction::deposit(5, 1, 100000)), Ok(()));
    assert_eq!(l.apply(&Transaction::dispute(5, 1)), Ok(()));
    let mid = acct(&l, 5);
    assert_eq!(mid.available, 0);
    assert_eq!(mid.held, 100000);
    assert_eq!(mid.total, 100000);
    assert_eq!(l.apply(&Transaction::resolve(5, 1)), Ok(()));
    let a = acct(&l, 5);
    assert_eq!(a.available, 100000);
    assert_eq!(a.held, 0);
    assert_eq!(a.total, 100000);
    assert!(!a.locked);
}

#[test]
fn chargeback_scenario() {
    let mut l = Ledger::new();
    assert_eq!(l.apply(&Transaction::deposit(1, 1, 200000)), Ok(()));
    assert_eq!(l.apply(&Transaction::dispute(1, 1)), Ok(()));
    assert_eq!(l.apply(&Transaction::chargeback(1, 1)), Ok(()));
    let a = acct(&l, 1);
    assert_eq!(a.available, 0);
    assert_eq!(a.held, 0);
    assert_eq!(a.total, 0);
    assert!(a.locked);
}

#[test]
fn insufficient_funds_withdrawal_is_ignored() {
    let mut l = Ledger::new();
    assert_eq!(l.apply(&Transaction::deposit(1, 1, 50000)), Ok(()));
    assert_eq!(l.apply(&Transaction::withdrawal(1, 2, 1000000)), Ok(()));
    let a = acct(&l, 1);
    assert_eq!(a.available, 50000);
    assert_eq!(a.held, 0);
    assert_eq!(a.total, 50000);
    assert!(!a.locked);
}

#[test]
fn withdrawal_within_funds_is_applied() {
    let mut l = Ledger::new();
    assert_eq!(l.apply(&Transaction::deposit(1, 1, 50000)), Ok(()));
    assert_eq!(l.apply(&Transaction::withdrawal(1, 2, 20000)), Ok(()));
    let a = acct(&l, 1);
    assert_eq!(a.available, 30000);
    assert_eq!(a.total, 30000);
}

#[test]
fn dispute_of_unknown_tx_is_a_no_op() {
    let mut l = Ledger::new();
    assert_eq!(l.apply(&Transaction::deposit(1, 1, 50000)), Ok(()));
    assert_eq!(l.apply(&Transaction::dispute(1, 99)), Ok(()));
    let a = acct(&l, 1);
    assert_eq!(a.available, 50000);
    assert_eq!(a.held, 0);
    assert_eq!(a.total, 50000);
    assert!(!a.locked);
}

#[test]
fn unknown_dispute_twice_equals_once() {
    let mut once = Ledger::new();
    assert_eq!(once.apply(&Transaction::deposit(1, 1, 50000)), Ok(()));
    assert_eq!(once.apply(&Transaction::dispute(1, 99)), Ok(()));
    let mut twice = Ledger::new();
    assert_eq!(twice.apply(&Transaction::deposit(1, 1, 50000)), Ok(()));
    assert_eq!(twice.apply(&Transaction::dispute(1, 99)), Ok(()));
    assert_eq!(twice.apply(&Transaction::dispute(1, 99)), Ok(()));
    assert_eq!(once.summaries(), twice.summaries());
}

#[test]
fn chargeback_is_terminal() {
    let mut l = Ledger::new();
    assert_eq!(l.apply(&Transaction::deposit(1, 1, 70000)), Ok(()));
    assert_eq!(l.apply(&Transaction::dispute(1, 1)), Ok(()));
    assert_eq!(l.apply(&Transaction::chargeback(1, 1)), Ok(()));
    let after = acct(&l, 1);
    assert_eq!(l.apply(&Transaction::resolve(1, 1)), Ok(()));
    assert_eq!(acct(&l, 1), after);
    assert_eq!(l.apply(&Transaction::chargeback(1, 1)), Ok(()));
    assert_eq!(acct(&l, 1), after);
    assert!(acct(&l, 1).locked);
}

#[test]
fn locked_account_ignores_deposits_and_withdrawals() {
    let mut l = Ledger::new();
    assert_eq!(l.apply(&Transaction::deposit(1, 1, 70000)), Ok(()));
    assert_eq!(l.apply(&Transaction::dispute(1, 1)), Ok(()));
    assert_eq!(l.apply(&Transaction::chargeback(1, 1)), Ok(()));
    let frozen = acct(&l, 1);
    assert_eq!(l.apply(&Transaction::deposit(1, 2, 10000)), Ok(()));
    assert_eq!(l.apply(&Transaction::withdrawal(1, 3, 10000)), Ok(()));
    assert_eq!(acct(&l, 1), frozen);
}

#[test]
fn dispute_still_honoured_on_locked_account() {
    let mut l = Ledger::new();
    assert_eq!(l.apply(&Transaction::deposit(1, 1, 70000)), Ok(()));
    assert_eq!(l.apply(&Transaction::deposit(1, 2, 30000)), Ok(()));
    assert_eq!(l.apply(&Transaction::dispute(1, 1)), Ok(()));
    assert_eq!(l.apply(&Transaction::chargeback(1, 1)), Ok(()));
    assert!(acct(&l, 1).locked);
    assert_eq!(l.apply(&Transaction::dispute(1, 2)), Ok(()));
    let a = acct(&l, 1);
    assert_eq!(a.available, 0);
    assert_eq!(a.held, 30000);
    assert_eq!(a.total, 30000);
}

#[test]
fn dispute_by_wrong_client_is_a_no_op() {
    let mut l = Ledger::new();
    assert_eq!(l.apply(&Transaction::deposit(1, 1, 50000)), Ok(()));
    assert_eq!(l.apply(&Transaction::dispute(2, 1)), Ok(()));
    let a = acct(&l, 1);
    assert_eq!(a.available, 50000);
    assert_eq!(a.held, 0);
    // the referencing client's account was still created, with zeros
    let b = acct(&l, 2);
    assert_eq!(b.total, 0);
}

#[test]
fn resolve_without_dispute_is_a_no_op() {
    let mut l = Ledger::new();
    assert_eq!(l.apply(&Transaction::deposit(1, 1, 50000)), Ok(()));
    assert_eq!(l.apply(&Transaction::resolve(1, 1)), Ok(()));
    let a = acct(&l, 1);
    assert_eq!(a.available, 50000);
    assert_eq!(a.held, 0);
}

#[test]
fn second_dispute_on_same_tx_is_a_no_op() {
    let mut l = Ledger::new();
    assert_eq!(l.apply(&Transaction::deposit(1, 1, 50000)), Ok(()));
    assert_eq!(l.apply(&Transaction::dispute(1, 1)), Ok(()));
    assert_eq!(l.apply(&Transaction::dispute(1, 1)), Ok(()));
    let a = acct(&l, 1);
    assert_eq!(a.available, 0);
    assert_eq!(a.held, 50000);
    assert_eq!(a.total, 50000);
}

#[test]
fn invariant_holds_after_every_step() {
    let mut l = Ledger::new();
    let txs = vec![
        Transaction::deposit(1, 1, 70000),
        Transaction::deposit(2, 2, 20000),
        Transaction::dispute(1, 1),
        Transaction::withdrawal(2, 3, 5000),
        Transaction::resolve(1, 1),
        Transaction::dispute(2, 2),
        Transaction::chargeback(2, 2),
        Transaction::deposit(2, 4, 10000),
    ];
    for t in txs {
        assert_eq!(l.apply(&t), Ok(()));
        for s in l.summaries() {
            assert_eq!(s.total, s.available + s.held);
            assert!(s.held >= 0);
        }
    }
}

#[test]
fn missing_amount_is_refused() {
    let mut l = Ledger::new();
    let t = Transaction { kind: TxKind::Deposit, client: 1, tx: 1, amount: None };
    assert_eq!(l.apply(&t), Err(LedgerError::MissingAmount));
    assert!(l.account(1).is_none());
}

#[test]
fn negative_amount_is_refused() {
    let mut l = Ledger::new();
    assert_eq!(
        l.apply(&Transaction::withdrawal(1, 1, -5)),
        Err(LedgerError::NegativeAmount)
    );
    assert!(l.account(1).is_none());
}

#[test]
fn duplicate_tx_id_is_refused() {
    let mut l = Ledger::new();
    assert_eq!(l.apply(&Transaction::deposit(1, 1, 10000)), Ok(()));
    assert_eq!(
        l.apply(&Transaction::deposit(1, 1, 10000)),
        Err(LedgerError::DuplicateTransaction)
    );
    let a = acct(&l, 1);
    assert_eq!(a.total, 10000);
}

#[test]
fn overflowing_deposit_is_refused() {
    let mut l = Ledger::new();
    assert_eq!(l.apply(&Transaction::deposit(1, 1, i64::MAX)), Ok(()));
    assert_eq!(
        l.apply(&Transaction::deposit(1, 2, 1)),
        Err(LedgerError::AmountOverflow)
    );
    let a = acct(&l, 1);
    assert_eq!(a.available, i64::MAX);
    assert_eq!(a.total, i64::MAX);
}

#[test]
fn summaries_come_in_first_seen_order() {
    let mut l = Ledger::new();
    assert_eq!(l.apply(&Transaction::deposit(7, 1, 10000)), Ok(()));
    assert_eq!(l.apply(&Transaction::deposit(3, 2, 20000)), Ok(()));
    assert_eq!(l.apply(&Transaction::deposit(7, 3, 5000)), Ok(()));
    let rows = l.summaries();
    assert_eq!(rows.len(), 2);
    assert_eq!(rows[0].client, 7);
    assert_eq!(rows[0].available, 15000);
    assert_eq!(rows[1].client, 3);
    assert_eq!(rows[1].available, 20000);
}

#[test]
fn parse_kind_accepts_the_five_kinds() {
    assert_eq!(parse_kind(b"deposit"), Some(TxKind::Deposit));
    assert_eq!(parse_kind(b"withdrawal"), Some(TxKind::Withdrawal));
    assert_eq!(parse_kind(b"dispute"), Some(TxKind::Dispute));
    assert_eq!(parse_kind(b"resolve"), Some(TxKind::Resolve));
    assert_eq!(parse_kind(b"chargeback"), Some(TxKind::Chargeback));
}

#[test]
fn parse_kind_tolerates_case_and_whitespace() {
    assert_eq!(parse_kind(b" DePoSiT "), Some(TxKind::Deposit));
    assert_eq!(parse_kind(b"\tWITHDRAWAL\r"), Some(TxKind::Withdrawal));
    assert_eq!(parse_kind(b"Chargeback\n"), Some(TxKind::Chargeback));
}

#[test]
fn parse_kind_rejects_unknown_words() {
    assert_eq!(parse_kind(b""), None);
    assert_eq!(parse_kind(b"   "), None);
    assert_eq!(parse_kind(b"transfer"), None);
    assert_eq!(parse_kind(b"deposits"), None);
    assert_eq!(parse_kind(b"depositx"), None);
    assert_eq!(parse_kind(b"with drawal"), None);
}
