//! The ledger state machine.
//!
//! A [`Ledger`] consumes transactions one at a time through [`Ledger::apply`]
//! and keeps, per client, an account with available funds, held funds, the
//! derived total, and a lock flag, together with one [`DisputableRecord`] per
//! registered deposit or withdrawal so that a later dispute, resolve or
//! chargeback can find the referenced amount in one lookup.
//!
//! The whole behaviour of `apply` is written down as the specification
//! function [`step`]; the proved invariant [`LedgerView::wf`] gives
//! `total == available + held` and `held >= 0` for every account after every
//! application.

use std::collections::HashMap;
use vstd::prelude::*;

verus! {

broadcast use
    vstd::std_specs::hash::group_hash_axioms,
    vstd::seq_lib::lemma_seq_contains_after_push,
    vstd::seq_lib::lemma_seq_empty_contains_nothing;

/// The closed set of transaction kinds the engine understands.
#[derive(Clone, Copy, PartialEq, Eq, Structural, Debug)]
pub enum TxKind {
    Deposit,
    Withdrawal,
    Dispute,
    Resolve,
    Chargeback,
}

/// An ASCII whitespace byte tolerated around a kind word.
pub open spec fn is_space(b: u8) -> bool {
    b == 32 || b == 9 || b == 13 || b == 10
}

/// ASCII lower-casing of one byte.
pub open spec fn lower(b: u8) -> u8 {
    if 65 <= b && b <= 90 {
        (b + 32) as u8
    } else {
        b
    }
}

/// Length of the longest whitespace prefix of `s`.
pub open spec fn lead_spaces(s: Seq<u8>) -> int
    decreases s.len(),
{
    if s.len() == 0 || !is_space(s[0]) {
        0
    } else {
        1 + lead_spaces(s.drop_first())
    }
}

/// Length of the longest whitespace suffix of `s`.
pub open spec fn trail_spaces(s: Seq<u8>) -> int
    decreases s.len(),
{
    if s.len() == 0 || !is_space(s.last()) {
        0
    } else {
        1 + trail_spaces(s.drop_last())
    }
}

/// `s` without leading and trailing whitespace.
pub open spec fn trimmed(s: Seq<u8>) -> Seq<u8> {
    let a = lead_spaces(s);
    if a == s.len() {
        Seq::empty()
    } else {
        s.subrange(a, s.len() - trail_spaces(s))
    }
}

/// `s` trimmed and lower-cased: the canonical form a kind word is
/// recognised in.
pub open spec fn folded(s: Seq<u8>) -> Seq<u8> {
    trimmed(s).map_values(|b: u8| lower(b))
}

/// The bytes of `deposit`.
pub open spec fn deposit_word() -> Seq<u8> {
    seq![100u8, 101u8, 112u8, 111u8, 115u8, 105u8, 116u8]
}

/// The bytes of `withdrawal`.
pub open spec fn withdrawal_word() -> Seq<u8> {
    seq![119u8, 105u8, 116u8, 104u8, 100u8, 114u8, 97u8, 119u8, 97u8, 108u8]
}

/// The bytes of `dispute`.
pub open spec fn dispute_word() -> Seq<u8> {
    seq![100u8, 105u8, 115u8, 112u8, 117u8, 116u8, 101u8]
}

/// The bytes of `resolve`.
pub open spec fn resolve_word() -> Seq<u8> {
    seq![114u8, 101u8, 115u8, 111u8, 108u8, 118u8, 101u8]
}

/// The bytes of `chargeback`.
pub open spec fn chargeback_word() -> Seq<u8> {
    seq![99u8, 104u8, 97u8, 114u8, 103u8, 101u8, 98u8, 97u8, 99u8, 107u8]
}

/// Which transaction kind, if any, the field `s` names, up to surrounding
/// whitespace and letter case.
pub open spec fn spec_parse_kind(s: Seq<u8>) -> Option<TxKind> {
    if folded(s) == deposit_word() {
        Some(TxKind::Deposit)
    } else if folded(s) == withdrawal_word() {
        Some(TxKind::Withdrawal)
    } else if folded(s) == dispute_word() {
        Some(TxKind::Dispute)
    } else if folded(s) == resolve_word() {
        Some(TxKind::Resolve)
    } else if folded(s) == chargeback_word() {
        Some(TxKind::Chargeback)
    } else {
        None
    }
}

/// Where a registered deposit or withdrawal stands in the dispute workflow.
///
/// `Clear` means no dispute is active, so a dispute may open one;
/// `UnderDispute` means the referenced amount is held; `ChargedBack` is
/// terminal: the record can never be disputed or resolved again.
#[derive(Clone, Copy, PartialEq, Eq, Structural, Debug)]
pub enum DisputeState {
    Clear,
    UnderDispute,
    ChargedBack,
}

/// One decoded event from the input stream.
///
/// `amount` is a fixed-point count of 1/10000 currency units. It is present
/// for deposits and withdrawals and absent for the dispute-workflow kinds,
/// whose amount is looked up from the referenced record, never re-supplied.
#[derive(Clone, Copy, Debug)]
pub struct Transaction {
    pub kind: TxKind,
    pub client: u16,
    pub tx: u32,
    pub amount: Option<i64>,
}

/// One client's balances. All three quantities are fixed-point counts of
/// 1/10000 currency units; `total` is maintained equal to
/// `available + held`.
#[derive(Clone, Copy, PartialEq, Eq, Structural, Debug)]
pub struct Account {
    pub available: i64,
    pub held: i64,
    pub total: i64,
    pub locked: bool,
}

/// What the engine remembers about a registered deposit or withdrawal so
/// that a later dispute can be honoured without rescanning history.
#[derive(Clone, Copy, PartialEq, Eq, Structural, Debug)]
pub struct DisputableRecord {
    pub owning_client: u16,
    pub amount: i64,
    pub state: DisputeState,
}

/// The conditions under which [`Ledger::apply`] refuses a transaction
/// outright. Each marks input the engine cannot interpret; transactions
/// whose semantic preconditions are merely unmet are absorbed as no-ops
/// instead and never produce an error.
#[derive(Clone, Copy, PartialEq, Eq, Structural, Debug)]
pub enum LedgerError {
    /// A deposit or withdrawal arrived without an amount.
    MissingAmount,
    /// A deposit or withdrawal carried a negative amount.
    NegativeAmount,
    /// A deposit or withdrawal reused a transaction id that is already
    /// registered.
    DuplicateTransaction,
    /// Applying the amount would take a balance outside the representable
    /// fixed-point range.
    AmountOverflow,
}

/// The mathematical state of a [`Ledger`]: the two maps it maintains, plus
/// the first-seen order of clients (for snapshot export) and the
/// registration order of disputable records (ghost bookkeeping used by the
/// invariant).
#[verifier::ext_equal]
pub struct LedgerView {
    pub accounts: Map<u16, Account>,
    pub order: Seq<u16>,
    pub records: Map<u32, DisputableRecord>,
    pub tx_order: Seq<u32>,
}

/// An account as lazily created on first reference: all balances zero,
/// unlocked.
pub open spec fn zero_account() -> Account {
    Account { available: 0, held: 0, total: 0, locked: false }
}

/// The per-account balance invariant: the total is the sum of available and
/// held funds, and held funds are never negative.
pub open spec fn account_ok(a: Account) -> bool {
    &&& a.total == a.available + a.held
    &&& a.held >= 0
}

/// How much the record registered under `t` contributes to the held funds
/// of client `c`: its amount while it is under dispute and owned by `c`,
/// nothing otherwise.
pub open spec fn held_part(m: Map<u32, DisputableRecord>, t: u32, c: u16) -> int {
    if m.contains_key(t) && m[t].owning_client == c && m[t].state is UnderDispute {
        m[t].amount as int
    } else {
        0
    }
}

/// The held funds client `c` ought to have: the sum, over the registered
/// transaction ids `s`, of each record's contribution.
pub open spec fn held_sum(s: Seq<u32>, m: Map<u32, DisputableRecord>, c: u16) -> int
    decreases s.len(),
{
    if s.len() == 0 {
        0
    } else {
        held_sum(s.drop_last(), m, c) + held_part(m, s.last(), c)
    }
}

impl LedgerView {
    /// Well-formedness of the engine state. Established by [`Ledger::new`]
    /// and preserved by every application (see
    /// [`crate::laws::lemma_apply_preserves_invariant`]).
    pub open spec fn wf(self) -> bool {
        &&& forall|c: u16| #[trigger] self.accounts.contains_key(c) ==> account_ok(self.accounts[c])
        &&& self.order.no_duplicates()
        &&& forall|c: u16|
            #![trigger self.accounts.contains_key(c)]
            #![trigger self.order.contains(c)]
            self.accounts.contains_key(c) <==> self.order.contains(c)
        &&& self.tx_order.no_duplicates()
        &&& forall|t: u32|
            #![trigger self.records.contains_key(t)]
            #![trigger self.tx_order.contains(t)]
            self.records.contains_key(t) <==> self.tx_order.contains(t)
        &&& forall|t: u32| #[trigger] self.records.contains_key(t) ==> self.records[t].amount >= 0
        &&& forall|t: u32| #[trigger] self.records.contains_key(t)
            ==> self.accounts.contains_key(self.records[t].owning_client)
        &&& forall|t: u32| #[trigger] self.records.contains_key(t)
            && self.records[t].state is ChargedBack
            ==> self.accounts[self.records[t].owning_client].locked
        &&& forall|c: u16| #[trigger] self.accounts.contains_key(c)
            ==> self.accounts[c].held == held_sum(self.tx_order, self.records, c)
    }
}

/// The state of a freshly constructed engine: no accounts, no records.
pub open spec fn empty_ledger() -> LedgerView {
    LedgerView {
        accounts: Map::empty(),
        order: Seq::empty(),
        records: Map::empty(),
        tx_order: Seq::empty(),
    }
}

/// The account the engine works with for client `c`: the stored one, or a
/// fresh zero account if `c` has never been referenced.
pub open spec fn account_of(l: LedgerView, c: u16) -> Account {
    if l.accounts.contains_key(c) {
        l.accounts[c]
    } else {
        zero_account()
    }
}

/// Lazy account creation: referencing client `c` creates a zero account for
/// it, at the end of the first-seen order, if it does not exist yet.
pub open spec fn touch(l: LedgerView, c: u16) -> LedgerView {
    if l.accounts.contains_key(c) {
        l
    } else {
        LedgerView {
            accounts: l.accounts.insert(c, zero_account()),
            order: l.order.push(c),
            records: l.records,
            tx_order: l.tx_order,
        }
    }
}

/// Whether crediting `amt` to `a` stays within the representable range.
pub open spec fn deposit_fits(a: Account, amt: i64) -> bool {
    &&& a.available + amt <= i64::MAX
    &&& a.total + amt <= i64::MAX
}

/// Whether holding `amt` on `a` stays within the representable range.
pub open spec fn dispute_fits(a: Account, amt: i64) -> bool {
    &&& a.available - amt >= i64::MIN
    &&& a.held + amt <= i64::MAX
}

/// What a deposit does: register the amount as available funds and remember
/// the transaction as disputable. Ignored when the account is locked;
/// refused when the amount is missing, negative, would overflow a balance,
/// or reuses a registered transaction id.
pub open spec fn step_deposit(l: LedgerView, c: u16, tx: u32, amount: Option<i64>) -> (Result<
    (),
    LedgerError,
>, LedgerView) {
    match amount {
        Option::None => (Err(LedgerError::MissingAmount), l),
        Option::Some(amt) => {
            if amt < 0 {
                (Err(LedgerError::NegativeAmount), l)
            } else if l.records.contains_key(tx) {
                (Err(LedgerError::DuplicateTransaction), l)
            } else {
                let a = account_of(l, c);
                if a.locked {
                    (Ok(()), touch(l, c))
                } else if !deposit_fits(a, amt) {
                    (Err(LedgerError::AmountOverflow), l)
                } else {
                    let l1 = touch(l, c);
                    (Ok(()), LedgerView {
                        accounts: l1.accounts.insert(c, Account {
                            available: (a.available + amt) as i64,
                            held: a.held,
                            total: (a.total + amt) as i64,
                            locked: a.locked,
                        }),
                        order: l1.order,
                        records: l1.records.insert(tx, DisputableRecord {
                            owning_client: c,
                            amount: amt,
                            state: DisputeState::Clear,
                        }),
                        tx_order: l1.tx_order.push(tx),
                    })
                }
            }
        },
    }
}

/// What a withdrawal does: debit available funds and remember the
/// transaction as disputable. Ignored when the account is locked or the
/// available funds do not cover the amount; refused when the amount is
/// missing, negative, or reuses a registered transaction id.
pub open spec fn step_withdrawal(l: LedgerView, c: u16, tx: u32, amount: Option<i64>) -> (Result<
    (),
    LedgerError,
>, LedgerView) {
    match amount {
        Option::None => (Err(LedgerError::MissingAmount), l),
        Option::Some(amt) => {
            if amt < 0 {
                (Err(LedgerError::NegativeAmount), l)
            } else if l.records.contains_key(tx) {
                (Err(LedgerError::DuplicateTransaction), l)
            } else {
                let a = account_of(l, c);
                if a.locked || a.available < amt {
                    (Ok(()), touch(l, c))
                } else {
                    let l1 = touch(l, c);
                    (Ok(()), LedgerView {
                        accounts: l1.accounts.insert(c, Account {
                            available: (a.available - amt) as i64,
                            held: a.held,
                            total: (a.total - amt) as i64,
                            locked: a.locked,
                        }),
                        order: l1.order,
                        records: l1.records.insert(tx, DisputableRecord {
                            owning_client: c,
                            amount: amt,
                            state: DisputeState::Clear,
                        }),
                        tx_order: l1.tx_order.push(tx),
                    })
                }
            }
        },
    }
}

/// A dispute applies only to a known record, owned by the disputing client,
/// with no dispute already active on it.
pub open spec fn dispute_applies(l: LedgerView, c: u16, tx: u32) -> bool {
    &&& l.records.contains_key(tx)
    &&& l.records[tx].owning_client == c
    &&& l.records[tx].state is Clear
}

/// A resolve or chargeback applies only to a known record, owned by the
/// referencing client, that is currently under dispute.
pub open spec fn settle_applies(l: LedgerView, c: u16, tx: u32) -> bool {
    &&& l.records.contains_key(tx)
    &&& l.records[tx].owning_client == c
    &&& l.records[tx].state is UnderDispute
}

/// What a dispute does: move the referenced amount from available to held
/// and mark the record under dispute. A no-op (beyond lazily creating the
/// account) when it does not apply; refused only when holding the amount
/// would leave the representable range.
pub open spec fn step_dispute(l: LedgerView, c: u16, tx: u32) -> (Result<(), LedgerError>, LedgerView) {
    if !dispute_applies(l, c, tx) {
        (Ok(()), touch(l, c))
    } else {
        let amt = l.records[tx].amount;
        let a = account_of(l, c);
        if !dispute_fits(a, amt) {
            (Err(LedgerError::AmountOverflow), l)
        } else {
            (Ok(()), LedgerView {
                accounts: l.accounts.insert(c, Account {
                    available: (a.available - amt) as i64,
                    held: (a.held + amt) as i64,
                    total: a.total,
                    locked: a.locked,
                }),
                order: l.order,
                records: l.records.insert(tx, DisputableRecord {
                    owning_client: c,
                    amount: amt,
                    state: DisputeState::UnderDispute,
                }),
                tx_order: l.tx_order,
            })
        }
    }
}

/// What a resolve does: release the disputed amount back to available funds
/// and clear the dispute. A no-op (beyond lazily creating the account) when
/// it does not apply.
pub open spec fn step_resolve(l: LedgerView, c: u16, tx: u32) -> (Result<(), LedgerError>, LedgerView) {
    if !settle_applies(l, c, tx) {
        (Ok(()), touch(l, c))
    } else {
        let amt = l.records[tx].amount;
        let a = account_of(l, c);
        (Ok(()), LedgerView {
            accounts: l.accounts.insert(c, Account {
                available: (a.available + amt) as i64,
                held: (a.held - amt) as i64,
                total: a.total,
                locked: a.locked,
            }),
            order: l.order,
            records: l.records.insert(tx, DisputableRecord {
                owning_client: c,
                amount: amt,
                state: DisputeState::Clear,
            }),
            tx_order: l.tx_order,
        })
    }
}

/// What a chargeback does: withdraw the disputed amount for good, lock the
/// account, and close the record terminally. A no-op (beyond lazily
/// creating the account) when it does not apply.
pub open spec fn step_chargeback(l: LedgerView, c: u16, tx: u32) -> (Result<(), LedgerError>, LedgerView) {
    if !settle_applies(l, c, tx) {
        (Ok(()), touch(l, c))
    } else {
        let amt = l.records[tx].amount;
        let a = account_of(l, c);
        (Ok(()), LedgerView {
            accounts: l.accounts.insert(c, Account {
                available: a.available,
                held: (a.held - amt) as i64,
                total: (a.total - amt) as i64,
                locked: true,
            }),
            order: l.order,
            records: l.records.insert(tx, DisputableRecord {
                owning_client: c,
                amount: amt,
                state: DisputeState::ChargedBack,
            }),
            tx_order: l.tx_order,
        })
    }
}

/// The complete transition relation of the engine: what [`Ledger::apply`]
/// returns and what the state becomes, for every transaction.
pub open spec fn step(l: LedgerView, t: Transaction) -> (Result<(), LedgerError>, LedgerView) {
    match t.kind {
        TxKind::Deposit => step_deposit(l, t.client, t.tx, t.amount),
        TxKind::Withdrawal => step_withdrawal(l, t.client, t.tx, t.amount),
        TxKind::Dispute => step_dispute(l, t.client, t.tx),
        TxKind::Resolve => step_resolve(l, t.client, t.tx),
        TxKind::Chargeback => step_chargeback(l, t.client, t.tx),
    }
}

/// The state after applying `t` to `l`.
pub open spec fn step_state(l: LedgerView, t: Transaction) -> LedgerView {
    step(l, t).1
}

/// The result [`Ledger::apply`] reports for `t` applied to `l`.
pub open spec fn step_result(l: LedgerView, t: Transaction) -> Result<(), LedgerError> {
    step(l, t).0
}

proof fn lemma_push_no_duplicates<A>(s: Seq<A>, x: A)
    requires
        s.no_duplicates(),
        !s.contains(x),
    ensures
        s.push(x).no_duplicates(),
{
    let p = s.push(x);
    assert forall|i: int, j: int|
        0 <= i < p.len() && 0 <= j < p.len() && i != j implies p[i] != p[j] by {
        if i < s.len() && j < s.len() {
        } else if i == s.len() {
            if p[j] == x {
                assert(s[j] == x);
                assert(s.contains(x));
            }
        } else {
            if p[i] == x {
                assert(s[i] == x);
                assert(s.contains(x));
            }
        }
    }
}

proof fn lemma_held_sum_nonneg(s: Seq<u32>, m: Map<u32, DisputableRecord>, c: u16)
    requires
        forall|t: u32| #[trigger] m.contains_key(t) ==> m[t].amount >= 0,
    ensures
        held_sum(s, m, c) >= 0,
    decreases s.len(),
{
    if s.len() > 0 {
        lemma_held_sum_nonneg(s.drop_last(), m, c);
    }
}

proof fn lemma_held_sum_absent_key(
    s: Seq<u32>,
    m: Map<u32, DisputableRecord>,
    c: u16,
    t0: u32,
    r: DisputableRecord,
)
    requires
        !s.contains(t0),
    ensures
        held_sum(s, m.insert(t0, r), c) == held_sum(s, m, c),
    decreases s.len(),
{
    if s.len() > 0 {
        let prefix = s.drop_last();
        assert(!prefix.contains(t0)) by {
            if prefix.contains(t0) {
                let i = choose|i: int| 0 <= i < prefix.len() && prefix[i] == t0;
                assert(s[i] == t0);
            }
        }
        lemma_held_sum_absent_key(prefix, m, c, t0, r);
        assert(s.last() != t0) by {
            if s.last() == t0 {
                assert(s[s.len() - 1] == t0);
            }
        }
    }
}

proof fn lemma_held_sum_push(s: Seq<u32>, m: Map<u32, DisputableRecord>, c: u16, t0: u32)
    ensures
        held_sum(s.push(t0), m, c) == held_sum(s, m, c) + held_part(m, t0, c),
{
    assert(s.push(t0).drop_last() =~= s);
    assert(s.push(t0).last() == t0);
}

proof fn lemma_held_sum_update(
    s: Seq<u32>,
    m: Map<u32, DisputableRecord>,
    c: u16,
    t0: u32,
    r: DisputableRecord,
)
    requires
        s.no_duplicates(),
        s.contains(t0),
    ensures
        held_sum(s, m.insert(t0, r), c) == held_sum(s, m, c) - held_part(m, t0, c) + held_part(
            m.insert(t0, r),
            t0,
            c,
        ),
    decreases s.len(),
{
    let prefix = s.drop_last();
    assert(prefix.no_duplicates()) by {
        assert forall|i: int, j: int|
            0 <= i < prefix.len() && 0 <= j < prefix.len() && i != j implies prefix[i]
            != prefix[j] by {
            assert(s[i] == prefix[i] && s[j] == prefix[j]);
        }
    }
    if s.last() == t0 {
        assert(!prefix.contains(t0)) by {
            if prefix.contains(t0) {
                let i = choose|i: int| 0 <= i < prefix.len() && prefix[i] == t0;
                assert(s[i] == t0 && s[s.len() - 1] == t0);
            }
        }
        lemma_held_sum_absent_key(prefix, m, c, t0, r);
    } else {
        assert(prefix.contains(t0)) by {
            let i = choose|i: int| 0 <= i < s.len() && s[i] == t0;
            assert(s[s.len() - 1] == s.last());
            assert(i < s.len() - 1);
            assert(prefix[i] == t0);
        }
        lemma_held_sum_update(prefix, m, c, t0, r);
    }
}

proof fn lemma_held_sum_no_owned(s: Seq<u32>, m: Map<u32, DisputableRecord>, c: u16)
    requires
        forall|t: u32| s.contains(t) && #[trigger] m.contains_key(t) ==> m[t].owning_client != c,
    ensures
        held_sum(s, m, c) == 0,
    decreases s.len(),
{
    if s.len() > 0 {
        let prefix = s.drop_last();
        assert forall|t: u32| prefix.contains(t) && #[trigger] m.contains_key(t)
            implies m[t].owning_client != c by {
            let i = choose|i: int| 0 <= i < prefix.len() && prefix[i] == t;
            assert(s[i] == t);
            assert(s.contains(t));
        }
        lemma_held_sum_no_owned(prefix, m, c);
        assert(s[s.len() - 1] == s.last());
        assert(s.contains(s.last()));
    }
}

proof fn lemma_held_sum_member_bound(s: Seq<u32>, m: Map<u32, DisputableRecord>, c: u16, t0: u32)
    requires
        s.no_duplicates(),
        s.contains(t0),
        forall|t: u32| #[trigger] m.contains_key(t) ==> m[t].amount >= 0,
    ensures
        held_sum(s, m, c) >= held_part(m, t0, c),
    decreases s.len(),
{
    let prefix = s.drop_last();
    assert(prefix.no_duplicates()) by {
        assert forall|i: int, j: int|
            0 <= i < prefix.len() && 0 <= j < prefix.len() && i != j implies prefix[i]
            != prefix[j] by {
            assert(s[i] == prefix[i] && s[j] == prefix[j]);
        }
    }
    if s.last() == t0 {
        lemma_held_sum_nonneg(prefix, m, c);
    } else {
        assert(prefix.contains(t0)) by {
            let i = choose|i: int| 0 <= i < s.len() && s[i] == t0;
            assert(s[s.len() - 1] == s.last());
            assert(i < s.len() - 1);
            assert(prefix[i] == t0);
        }
        lemma_held_sum_member_bound(prefix, m, c, t0);
    }
}

proof fn lemma_empty_wf()
    ensures
        empty_ledger().wf(),
{
}

proof fn lemma_touch_wf(l: LedgerView, c: u16)
    requires
        l.wf(),
    ensures
        touch(l, c).wf(),
        touch(l, c).accounts.contains_key(c),
        touch(l, c).accounts[c] == account_of(l, c),
{
    if !l.accounts.contains_key(c) {
        assert(!l.order.contains(c));
        lemma_push_no_duplicates(l.order, c);
        assert forall|t: u32| l.tx_order.contains(t) && #[trigger] l.records.contains_key(t)
            implies l.records[t].owning_client != c by {}
        lemma_held_sum_no_owned(l.tx_order, l.records, c);
    }
}

proof fn lemma_register_wf(l: LedgerView, c: u16, tx: u32, a2: Account, amt: i64)
    requires
        l.wf(),
        !l.records.contains_key(tx),
        0 <= amt,
        account_ok(a2),
        a2.held == account_of(l, c).held,
        a2.locked == account_of(l, c).locked,
        !account_of(l, c).locked,
    ensures
        (LedgerView {
            accounts: touch(l, c).accounts.insert(c, a2),
            order: touch(l, c).order,
            records: touch(l, c).records.insert(
                tx,
                DisputableRecord { owning_client: c, amount: amt, state: DisputeState::Clear },
            ),
            tx_order: touch(l, c).tx_order.push(tx),
        }).wf(),
{
    lemma_touch_wf(l, c);
    let l1 = touch(l, c);
    let rec = DisputableRecord { owning_client: c, amount: amt, state: DisputeState::Clear };
    let l2 = LedgerView {
        accounts: l1.accounts.insert(c, a2),
        order: l1.order,
        records: l1.records.insert(tx, rec),
        tx_order: l1.tx_order.push(tx),
    };
    assert(!l1.tx_order.contains(tx));
    lemma_push_no_duplicates(l1.tx_order, tx);
    assert forall|c2: u16| #[trigger] l2.accounts.contains_key(c2)
        implies l2.accounts[c2].held == held_sum(l2.tx_order, l2.records, c2) by {
        lemma_held_sum_absent_key(l1.tx_order, l1.records, c2, tx, rec);
        lemma_held_sum_push(l1.tx_order, l2.records, c2, tx);
        assert(held_part(l2.records, tx, c2) == 0);
    }
    assert forall|t2: u32| #[trigger] l2.records.contains_key(t2)
        && l2.records[t2].state is ChargedBack
        implies l2.accounts[l2.records[t2].owning_client].locked by {
        assert(t2 != tx);
        assert(l1.records.contains_key(t2));
    }
}

proof fn lemma_step_deposit_wf(l: LedgerView, c: u16, tx: u32, amount: Option<i64>)
    requires
        l.wf(),
    ensures
        step_deposit(l, c, tx, amount).1.wf(),
{
    match amount {
        Option::None => {},
        Option::Some(amt) => {
            if amt < 0 || l.records.contains_key(tx) {
            } else {
                let a = account_of(l, c);
                if a.locked {
                    lemma_touch_wf(l, c);
                } else if !deposit_fits(a, amt) {
                } else {
                    let a2 = Account {
                        available: (a.available + amt) as i64,
                        held: a.held,
                        total: (a.total + amt) as i64,
                        locked: a.locked,
                    };
                    lemma_register_wf(l, c, tx, a2, amt);
                }
            }
        },
    }
}

proof fn lemma_step_withdrawal_wf(l: LedgerView, c: u16, tx: u32, amount: Option<i64>)
    requires
        l.wf(),
    ensures
        step_withdrawal(l, c, tx, amount).1.wf(),
{
    match amount {
        Option::None => {},
        Option::Some(amt) => {
            if amt < 0 || l.records.contains_key(tx) {
            } else {
                let a = account_of(l, c);
                if a.locked || a.available < amt {
                    lemma_touch_wf(l, c);
                } else {
                    let a2 = Account {
                        available: (a.available - amt) as i64,
                        held: a.held,
                        total: (a.total - amt) as i64,
                        locked: a.locked,
                    };
                    lemma_register_wf(l, c, tx, a2, amt);
                }
            }
        },
    }
}

proof fn lemma_step_dispute_wf(l: LedgerView, c: u16, tx: u32)
    requires
        l.wf(),
    ensures
        step_dispute(l, c, tx).1.wf(),
{
    if !dispute_applies(l, c, tx) {
        lemma_touch_wf(l, c);
    } else {
        let amt = l.records[tx].amount;
        let a = account_of(l, c);
        if !dispute_fits(a, amt) {
        } else {
            let rec2 = DisputableRecord {
                owning_client: c,
                amount: amt,
                state: DisputeState::UnderDispute,
            };
            let l2 = step_dispute(l, c, tx).1;
            assert(l.accounts.contains_key(c));
            assert(l.tx_order.contains(tx));
            assert forall|c2: u16| #[trigger] l2.accounts.contains_key(c2)
                implies l2.accounts[c2].held == held_sum(l2.tx_order, l2.records, c2) by {
                lemma_held_sum_update(l.tx_order, l.records, c2, tx, rec2);
            }
            assert forall|t2: u32| #[trigger] l2.records.contains_key(t2)
                && l2.records[t2].state is ChargedBack
                implies l2.accounts[l2.records[t2].owning_client].locked by {
                assert(t2 != tx);
                assert(l.records.contains_key(t2));
            }
        }
    }
}

proof fn lemma_step_resolve_wf(l: LedgerView, c: u16, tx: u32)
    requires
        l.wf(),
    ensures
        step_resolve(l, c, tx).1.wf(),
{
    if !settle_applies(l, c, tx) {
        lemma_touch_wf(l, c);
    } else {
        let amt = l.records[tx].amount;
        let a = account_of(l, c);
        lemma_held_sum_member_bound(l.tx_order, l.records, c, tx);
        assert(amt <= a.held);
        let rec2 = DisputableRecord { owning_client: c, amount: amt, state: DisputeState::Clear };
        let l2 = step_resolve(l, c, tx).1;
        assert forall|c2: u16| #[trigger] l2.accounts.contains_key(c2)
            implies l2.accounts[c2].held == held_sum(l2.tx_order, l2.records, c2) by {
            lemma_held_sum_update(l.tx_order, l.records, c2, tx, rec2);
        }
        assert forall|t2: u32| #[trigger] l2.records.contains_key(t2)
            && l2.records[t2].state is ChargedBack
            implies l2.accounts[l2.records[t2].owning_client].locked by {
            assert(t2 != tx);
            assert(l.records.contains_key(t2));
        }
    }
}

proof fn lemma_step_chargeback_wf(l: LedgerView, c: u16, tx: u32)
    requires
        l.wf(),
    ensures
        step_chargeback(l, c, tx).1.wf(),
{
    if !settle_applies(l, c, tx) {
        lemma_touch_wf(l, c);
    } else {
        let amt = l.records[tx].amount;
        let a = account_of(l, c);
        lemma_held_sum_member_bound(l.tx_order, l.records, c, tx);
        assert(amt <= a.held);
        let rec2 = DisputableRecord {
            owning_client: c,
            amount: amt,
            state: DisputeState::ChargedBack,
        };
        let l2 = step_chargeback(l, c, tx).1;
        assert forall|c2: u16| #[trigger] l2.accounts.contains_key(c2)
            implies l2.accounts[c2].held == held_sum(l2.tx_order, l2.records, c2) by {
            lemma_held_sum_update(l.tx_order, l.records, c2, tx, rec2);
        }
        assert forall|t2: u32| #[trigger] l2.records.contains_key(t2)
            && l2.records[t2].state is ChargedBack
            implies l2.accounts[l2.records[t2].owning_client].locked by {
            if t2 != tx {
                assert(l.records.contains_key(t2));
            }
        }
    }
}

pub(crate) proof fn lemma_step_wf(l: LedgerView, t: Transaction)
    requires
        l.wf(),
    ensures
        step_state(l, t).wf(),
{
    match t.kind {
        TxKind::Deposit => lemma_step_deposit_wf(l, t.client, t.tx, t.amount),
        TxKind::Withdrawal => lemma_step_withdrawal_wf(l, t.client, t.tx, t.amount),
        TxKind::Dispute => lemma_step_dispute_wf(l, t.client, t.tx),
        TxKind::Resolve => lemma_step_resolve_wf(l, t.client, t.tx),
        TxKind::Chargeback => lemma_step_chargeback_wf(l, t.client, t.tx),
    }
}

/// One row of the snapshot export: a client's final balances.
#[derive(Clone, Copy, PartialEq, Eq, Structural, Debug)]
pub struct Summary {
    pub client: u16,
    pub available: i64,
    pub held: i64,
    pub total: i64,
    pub locked: bool,
}

/// The snapshot row for client `c`.
pub open spec fn summary_of(l: LedgerView, c: u16) -> Summary {
    let a = account_of(l, c);
    Summary {
        client: c,
        available: a.available,
        held: a.held,
        total: a.total,
        locked: a.locked,
    }
}

/// The ledger engine: the sole owner of all account state for a run.
pub struct Ledger {
    accounts: HashMap<u16, Account>,
    order: Vec<u16>,
    records: HashMap<u32, DisputableRecord>,
    tx_order: Ghost<Seq<u32>>,
}

impl View for Ledger {
    type V = LedgerView;

    closed spec fn view(&self) -> LedgerView {
        LedgerView {
            accounts: self.accounts@,
            order: self.order@,
            records: self.records@,
            tx_order: self.tx_order@,
        }
    }
}

impl Ledger {
    /// Well-formedness of the engine; holds from construction on.
    pub open spec fn wf(self) -> bool {
        self@.wf()
    }

    /// A fresh engine with no accounts and no registered transactions.
    pub fn new() -> (l: Ledger)
        ensures
            l@ == empty_ledger(),
            l.wf(),
    {
        let l = Ledger {
            accounts: HashMap::new(),
            order: Vec::new(),
            records: HashMap::new(),
            tx_order: Ghost(Seq::empty()),
        };
        proof {
            assert(l@ =~~= empty_ledger());
            lemma_empty_wf();
        }
        l
    }

    /// Look up or create the account for `c`, keeping first-seen order.
    fn ensure_account(&mut self, c: u16)
        requires
            old(self).wf(),
        ensures
            final(self).wf(),
            final(self)@ == touch(old(self)@, c),
    {
        if !self.accounts.contains_key(&c) {
            self.accounts.insert(c, Account { available: 0, held: 0, total: 0, locked: false });
            self.order.push(c);
            proof {
                assert(self@ =~~= touch(old(self)@, c));
            }
        }
        proof {
            lemma_touch_wf(old(self)@, c);
        }
    }

    /// Current account for `client`, if that client was ever referenced.
    pub fn account(&self, client: u16) -> (r: Option<Account>)
        ensures
            r == (if self@.accounts.contains_key(client) {
                Some(self@.accounts[client])
            } else {
                None::<Account>
            }),
    {
        match self.accounts.get(&client) {
            Some(a) => Some(*a),
            None => None,
        }
    }

    fn apply_deposit(&mut self, c: u16, tx: u32, amount: Option<i64>) -> (r: Result<
        (),
        LedgerError,
    >)
        requires
            old(self).wf(),
        ensures
            final(self).wf(),
            final(self)@ == step_deposit(old(self)@, c, tx, amount).1,
            r == step_deposit(old(self)@, c, tx, amount).0,
    {
        let amt = match amount {
            Some(a) => a,
            None => {
                return Err(LedgerError::MissingAmount);
            },
        };
        if amt < 0 {
            return Err(LedgerError::NegativeAmount);
        }
        if self.records.contains_key(&tx) {
            return Err(LedgerError::DuplicateTransaction);
        }
        let a = match self.accounts.get(&c) {
            Some(acct) => *acct,
            None => Account { available: 0, held: 0, total: 0, locked: false },
        };
        proof {
            assert(a == account_of(old(self)@, c));
        }
        if a.locked {
            self.ensure_account(c);
            return Ok(());
        }
        if a.available > i64::MAX - amt || a.total > i64::MAX - amt {
            return Err(LedgerError::AmountOverflow);
        }
        self.ensure_account(c);
        self.accounts.insert(
            c,
            Account {
                available: a.available + amt,
                held: a.held,
                total: a.total + amt,
                locked: a.locked,
            },
        );
        self.records.insert(
            tx,
            DisputableRecord { owning_client: c, amount: amt, state: DisputeState::Clear },
        );
        self.tx_order = Ghost(self.tx_order@.push(tx));
        proof {
            assert(self@ =~~= step_deposit(old(self)@, c, tx, amount).1);
            lemma_step_deposit_wf(old(self)@, c, tx, amount);
        }
        Ok(())
    }

    fn apply_withdrawal(&mut self, c: u16, tx: u32, amount: Option<i64>) -> (r: Result<
        (),
        LedgerError,
    >)
        requires
            old(self).wf(),
        ensures
            final(self).wf(),
            final(self)@ == step_withdrawal(old(self)@, c, tx, amount).1,
            r == step_withdrawal(old(self)@, c, tx, amount).0,
    {
        let amt = match amount {
            Some(a) => a,
            None => {
                return Err(LedgerError::MissingAmount);
            },
        };
        if amt < 0 {
            return Err(LedgerError::NegativeAmount);
        }
        if self.records.contains_key(&tx) {
            return Err(LedgerError::DuplicateTransaction);
        }
        let a = match self.accounts.get(&c) {
            Some(acct) => *acct,
            None => Account { available: 0, held: 0, total: 0, locked: false },
        };
        proof {
            assert(a == account_of(old(self)@, c));
        }
        if a.locked || a.available < amt {
            self.ensure_account(c);
            return Ok(());
        }
        self.ensure_account(c);
        self.accounts.insert(
            c,
            Account {
                available: a.available - amt,
                held: a.held,
                total: a.total - amt,
                locked: a.locked,
            },
        );
        self.records.insert(
            tx,
            DisputableRecord { owning_client: c, amount: amt, state: DisputeState::Clear },
        );
        self.tx_order = Ghost(self.tx_order@.push(tx));
        proof {
            assert(self@ =~~= step_withdrawal(old(self)@, c, tx, amount).1);
            lemma_step_withdrawal_wf(old(self)@, c, tx, amount);
        }
        Ok(())
    }

    fn apply_dispute(&mut self, c: u16, tx: u32) -> (r: Result<(), LedgerError>)
        requires
            old(self).wf(),
        ensures
            final(self).wf(),
            final(self)@ == step_dispute(old(self)@, c, tx).1,
            r == step_dispute(old(self)@, c, tx).0,
    {
        let rec = match self.records.get(&tx) {
            Some(r0) => *r0,
            None => {
                self.ensure_account(c);
                return Ok(());
            },
        };
        if rec.owning_client != c || rec.state != DisputeState::Clear {
            self.ensure_account(c);
            return Ok(());
        }
        proof {
            assert(dispute_applies(old(self)@, c, tx));
            assert(old(self)@.records.contains_key(tx));
            assert(old(self)@.accounts.contains_key(c));
        }
        let a = match self.accounts.get(&c) {
            Some(acct) => *acct,
            None => {
                proof {
                    assert(false);
                }
                Account { available: 0, held: 0, total: 0, locked: false }
            },
        };
        if a.held > i64::MAX - rec.amount || a.available < i64::MIN + rec.amount {
            return Err(LedgerError::AmountOverflow);
        }
        self.accounts.insert(
            c,
            Account {
                available: a.available - rec.amount,
                held: a.held + rec.amount,
                total: a.total,
                locked: a.locked,
            },
        );
        self.records.insert(
            tx,
            DisputableRecord {
                owning_client: c,
                amount: rec.amount,
                state: DisputeState::UnderDispute,
            },
        );
        proof {
            assert(self@ =~~= step_dispute(old(self)@, c, tx).1);
            lemma_step_dispute_wf(old(self)@, c, tx);
        }
        Ok(())
    }

    fn apply_resolve(&mut self, c: u16, tx: u32) -> (r: Result<(), LedgerError>)
        requires
            old(self).wf(),
        ensures
            final(self).wf(),
            final(self)@ == step_resolve(old(self)@, c, tx).1,
            r == step_resolve(old(self)@, c, tx).0,
    {
        let rec = match self.records.get(&tx) {
            Some(r0) => *r0,
            None => {
                self.ensure_account(c);
                return Ok(());
            },
        };
        if rec.owning_client != c || rec.state != DisputeState::UnderDispute {
            self.ensure_account(c);
            return Ok(());
        }
        proof {
            assert(settle_applies(old(self)@, c, tx));
            assert(old(self)@.accounts.contains_key(c));
        }
        let a = match self.accounts.get(&c) {
            Some(acct) => *acct,
            None => {
                proof {
                    assert(false);
                }
                Account { available: 0, held: 0, total: 0, locked: false }
            },
        };
        proof {
            lemma_held_sum_member_bound(old(self)@.tx_order, old(self)@.records, c, tx);
            assert(rec.amount <= a.held);
        }
        self.accounts.insert(
            c,
            Account {
                available: a.available + rec.amount,
                held: a.held - rec.amount,
                total: a.total,
                locked: a.locked,
            },
        );
        self.records.insert(
            tx,
            DisputableRecord { owning_client: c, amount: rec.amount, state: DisputeState::Clear },
        );
        proof {
            assert(self@ =~~= step_resolve(old(self)@, c, tx).1);
            lemma_step_resolve_wf(old(self)@, c, tx);
        }
        Ok(())
    }

    fn apply_chargeback(&mut self, c: u16, tx: u32) -> (r: Result<(), LedgerError>)
        requires
            old(self).wf(),
        ensures
            final(self).wf(),
            final(self)@ == step_chargeback(old(self)@, c, tx).1,
            r == step_chargeback(old(self)@, c, tx).0,
    {
        let rec = match self.records.get(&tx) {
            Some(r0) => *r0,
            None => {
                self.ensure_account(c);
                return Ok(());
            },
        };
        if rec.owning_client != c || rec.state != DisputeState::UnderDispute {
            self.ensure_account(c);
            return Ok(());
        }
        proof {
            assert(settle_applies(old(self)@, c, tx));
            assert(old(self)@.accounts.contains_key(c));
        }
        let a = match self.accounts.get(&c) {
            Some(acct) => *acct,
            None => {
                proof {
                    assert(false);
                }
                Account { available: 0, held: 0, total: 0, locked: false }
            },
        };
        proof {
            lemma_held_sum_member_bound(old(self)@.tx_order, old(self)@.records, c, tx);
            assert(rec.amount <= a.held);
        }
        self.accounts.insert(
            c,
            Account {
                available: a.available,
                held: a.held - rec.amount,
                total: a.total - rec.amount,
                locked: true,
            },
        );
        self.records.insert(
            tx,
            DisputableRecord {
                owning_client: c,
                amount: rec.amount,
                state: DisputeState::ChargedBack,
            },
        );
        proof {
            assert(self@ =~~= step_chargeback(old(self)@, c, tx).1);
            lemma_step_chargeback_wf(old(self)@, c, tx);
        }
        Ok(())
    }

    /// Apply one transaction: the sole mutation entry point of the engine.
    ///
    /// The new state and the result are exactly [`step`] of the old state.
    /// Transactions whose semantic preconditions are unmet (unknown or
    /// mismatched transaction id, double dispute, insufficient funds,
    /// locked account) are absorbed as no-ops; an error is returned only
    /// for input the engine cannot interpret, and then the state is
    /// unchanged. Disputes, resolves and chargebacks are honoured on a
    /// locked account as well: the lock gates only deposits and
    /// withdrawals.
    pub fn apply(&mut self, t: &Transaction) -> (r: Result<(), LedgerError>)
        requires
            old(self).wf(),
        ensures
            final(self).wf(),
            final(self)@ == step_state(old(self)@, *t),
            r == step_result(old(self)@, *t),
    {
        match t.kind {
            TxKind::Deposit => self.apply_deposit(t.client, t.tx, t.amount),
            TxKind::Withdrawal => self.apply_withdrawal(t.client, t.tx, t.amount),
            TxKind::Dispute => self.apply_dispute(t.client, t.tx),
            TxKind::Resolve => self.apply_resolve(t.client, t.tx),
            TxKind::Chargeback => self.apply_chargeback(t.client, t.tx),
        }
    }

    /// Export the final snapshot: one row per account ever created, in
    /// first-seen client order.
    pub fn summaries(&self) -> (v: Vec<Summary>)
        requires
            self.wf(),
        ensures
            v@.len() == self@.order.len(),
            forall|i: int|
                0 <= i < v@.len() ==> v@[i] == summary_of(self@, self@.order[i]),
    {
        let mut v: Vec<Summary> = Vec::new();
        let mut i: usize = 0;
        while i < self.order.len()
            invariant
                self.wf(),
                i <= self.order.len(),
                v@.len() == i,
                forall|j: int|
                    0 <= j < i as int ==> v@[j] == summary_of(self@, self@.order[j]),
            decreases self.order.len() - i,
        {
            let c = self.order[i];
            proof {
                assert(self@.order.contains(self@.order[i as int]));
            }
            let a = match self.accounts.get(&c) {
                Some(acct) => *acct,
                None => {
                    proof {
                        assert(false);
                    }
                    Account { available: 0, held: 0, total: 0, locked: false }
                },
            };
            v.push(
                Summary {
                    client: c,
                    available: a.available,
                    held: a.held,
                    total: a.total,
                    locked: a.locked,
                },
            );
            i = i + 1;
        }
        v
    }
}

proof fn lemma_lead_spaces_is(s: Seq<u8>, a: int)
    requires
        0 <= a <= s.len(),
        forall|i: int| 0 <= i < a ==> is_space(#[trigger] s[i]),
        a < s.len() ==> !is_space(s[a]),
    ensures
        lead_spaces(s) == a,
    decreases s.len(),
{
    if a == 0 {
    } else {
        let p = s.drop_first();
        assert(is_space(s[0]));
        assert forall|i: int| 0 <= i < a - 1 implies is_space(#[trigger] p[i]) by {
            assert(p[i] == s[i + 1]);
        }
        if a - 1 < p.len() {
            assert(p[a - 1] == s[a]);
        }
        lemma_lead_spaces_is(p, a - 1);
    }
}

proof fn lemma_trail_spaces_is(s: Seq<u8>, d: int)
    requires
        0 <= d <= s.len(),
        forall|i: int| s.len() - d <= i < s.len() ==> is_space(#[trigger] s[i]),
        d < s.len() ==> !is_space(s[s.len() - d - 1]),
    ensures
        trail_spaces(s) == d,
    decreases s.len(),
{
    if d == 0 {
        if s.len() > 0 {
            assert(!is_space(s[s.len() - 1]));
        }
    } else {
        let p = s.drop_last();
        assert(is_space(s[s.len() - 1]));
        assert forall|i: int| p.len() - (d - 1) <= i < p.len() implies is_space(
            #[trigger] p[i],
        ) by {
            assert(p[i] == s[i]);
        }
        if d - 1 < p.len() {
            assert(p[p.len() - (d - 1) - 1] == s[s.len() - d - 1]);
        }
        lemma_trail_spaces_is(p, d - 1);
    }
}

fn lower_byte(b: u8) -> (r: u8)
    ensures
        r == lower(b),
{
    if 65 <= b && b <= 90 {
        b + 32
    } else {
        b
    }
}

/// Decode the `type` field of an input record into a transaction kind,
/// tolerating surrounding whitespace and letter case. Returns `None`
/// exactly when the field names none of the five kinds.
pub fn parse_kind(s: &[u8]) -> (r: Option<TxKind>)
    ensures
        r == spec_parse_kind(s@),
{
    let n = s.len();
    let mut a: usize = 0;
    while a < n && (s[a] == 32 || s[a] == 9 || s[a] == 13 || s[a] == 10)
        invariant
            a <= n,
            n == s@.len(),
            forall|i: int| 0 <= i < a ==> is_space(#[trigger] s@[i]),
        decreases n - a,
    {
        a = a + 1;
    }
    proof {
        lemma_lead_spaces_is(s@, a as int);
    }
    let mut e: usize = n;
    while e > a && (s[e - 1] == 32 || s[e - 1] == 9 || s[e - 1] == 13 || s[e - 1] == 10)
        invariant
            a <= e <= n,
            n == s@.len(),
            forall|i: int| e <= i < n ==> is_space(#[trigger] s@[i]),
            a < n ==> !is_space(s@[a as int]),
            lead_spaces(s@) == a,
        decreases e,
    {
        e = e - 1;
    }
    let ghost f = folded(s@);
    proof {
        if a == n {
            assert(e == a);
            assert(trimmed(s@) =~= Seq::<u8>::empty());
            assert(f.len() == 0);
        } else {
            assert(!is_space(s@[e - 1]));
            lemma_trail_spaces_is(s@, n - e);
            assert(trimmed(s@) =~= s@.subrange(a as int, e as int));
            assert(f.len() == e - a);
            assert forall|i: int| 0 <= i < f.len() implies f[i] == lower(s@[a + i]) by {
                assert(trimmed(s@)[i] == s@[a + i]);
            }
        }
    }
    let len = e - a;
    if len == 7 {
        let b0 = lower_byte(s[a]);
        let b1 = lower_byte(s[a + 1]);
        let b2 = lower_byte(s[a + 2]);
        let b3 = lower_byte(s[a + 3]);
        let b4 = lower_byte(s[a + 4]);
        let b5 = lower_byte(s[a + 5]);
        let b6 = lower_byte(s[a + 6]);
        if b0 == 100 && b1 == 101 && b2 == 112 && b3 == 111 && b4 == 115 && b5 == 105 && b6
            == 116 {
            proof {
                assert(f =~= deposit_word());
            }
            return Some(TxKind::Deposit);
        }
        if b0 == 100 && b1 == 105 && b2 == 115 && b3 == 112 && b4 == 117 && b5 == 116 && b6
            == 101 {
            proof {
                assert(f =~= dispute_word());
                assert(f[1] == 105 && deposit_word()[1] == 101);
            }
            return Some(TxKind::Dispute);
        }
        if b0 == 114 && b1 == 101 && b2 == 115 && b3 == 111 && b4 == 108 && b5 == 118 && b6
            == 101 {
            proof {
                assert(f =~= resolve_word());
                assert(f[0] == 114 && deposit_word()[0] == 100 && dispute_word()[0] == 100);
            }
            return Some(TxKind::Resolve);
        }
        proof {
            assert(f != deposit_word()) by {
                if f == deposit_word() {
                    assert(f[0] == 100 && f[1] == 101 && f[2] == 112 && f[3] == 111 && f[4]
                        == 115 && f[5] == 105 && f[6] == 116);
                }
            }
            assert(f != dispute_word()) by {
                if f == dispute_word() {
                    assert(f[0] == 100 && f[1] == 105 && f[2] == 115 && f[3] == 112 && f[4]
                        == 117 && f[5] == 116 && f[6] == 101);
                }
            }
            assert(f != resolve_word()) by {
                if f == resolve_word() {
                    assert(f[0] == 114 && f[1] == 101 && f[2] == 115 && f[3] == 111 && f[4]
                        == 108 && f[5] == 118 && f[6] == 101);
                }
            }
            assert(f.len() != withdrawal_word().len() && f.len() != chargeback_word().len());
        }
        return None;
    }
    if len == 10 {
        let b0 = lower_byte(s[a]);
        let b1 = lower_byte(s[a + 1]);
        let b2 = lower_byte(s[a + 2]);
        let b3 = lower_byte(s[a + 3]);
        let b4 = lower_byte(s[a + 4]);
        let b5 = lower_byte(s[a + 5]);
        let b6 = lower_byte(s[a + 6]);
        let b7 = lower_byte(s[a + 7]);
        let b8 = lower_byte(s[a + 8]);
        let b9 = lower_byte(s[a + 9]);
        if b0 == 119 && b1 == 105 && b2 == 116 && b3 == 104 && b4 == 100 && b5 == 114 && b6 == 97
            && b7 == 119 && b8 == 97 && b9 == 108 {
            proof {
                assert(f =~= withdrawal_word());
            }
            return Some(TxKind::Withdrawal);
        }
        if b0 == 99 && b1 == 104 && b2 == 97 && b3 == 114 && b4 == 103 && b5 == 101 && b6 == 98
            && b7 == 97 && b8 == 99 && b9 == 107 {
            proof {
                assert(f =~= chargeback_word());
                assert(f[0] == 99 && withdrawal_word()[0] == 119);
            }
            return Some(TxKind::Chargeback);
        }
        proof {
            assert(f != withdrawal_word()) by {
                if f == withdrawal_word() {
                    assert(f[0] == 119 && f[1] == 105 && f[2] == 116 && f[3] == 104 && f[4]
                        == 100 && f[5] == 114 && f[6] == 97 && f[7] == 119 && f[8] == 97 && f[9]
                        == 108);
                }
            }
            assert(f != chargeback_word()) by {
                if f == chargeback_word() {
                    assert(f[0] == 99 && f[1] == 104 && f[2] == 97 && f[3] == 114 && f[4] == 103
                        && f[5] == 101 && f[6] == 98 && f[7] == 97 && f[8] == 99 && f[9] == 107);
                }
            }
        }
        return None;
    }
    proof {
        assert(f.len() != 7 && f.len() != 10);
    }
    None
}

impl Transaction {
    /// A deposit event.
    pub fn deposit(client: u16, tx: u32, amount: i64) -> (t: Transaction)
        ensures
            t == (Transaction {
                kind: TxKind::Deposit,
                client: client,
                tx: tx,
                amount: Some(amount),
            }),
    {
        Transaction { kind: TxKind::Deposit, client, tx, amount: Some(amount) }
    }

    /// A withdrawal event.
    pub fn withdrawal(client: u16, tx: u32, amount: i64) -> (t: Transaction)
        ensures
            t == (Transaction {
                kind: TxKind::Withdrawal,
                client: client,
                tx: tx,
                amount: Some(amount),
            }),
    {
        Transaction { kind: TxKind::Withdrawal, client, tx, amount: Some(amount) }
    }

    /// A dispute referencing the deposit or withdrawal registered as `tx`.
    pub fn dispute(client: u16, tx: u32) -> (t: Transaction)
        ensures
            t == (Transaction {
                kind: TxKind::Dispute,
                client: client,
                tx: tx,
                amount: None::<i64>,
            }),
    {
        Transaction { kind: TxKind::Dispute, client, tx, amount: None }
    }

    /// A resolve referencing the disputed transaction `tx`.
    pub fn resolve(client: u16, tx: u32) -> (t: Transaction)
        ensures
            t == (Transaction {
                kind: TxKind::Resolve,
                client: client,
                tx: tx,
                amount: None::<i64>,
            }),
    {
        Transaction { kind: TxKind::Resolve, client, tx, amount: None }
    }

    /// A chargeback referencing the disputed transaction `tx`.
    pub fn chargeback(client: u16, tx: u32) -> (t: Transaction)
        ensures
            t == (Transaction {
                kind: TxKind::Chargeback,
                client: client,
                tx: tx,
                amount: None::<i64>,
            }),
    {
        Transaction { kind: TxKind::Chargeback, client, tx, amount: None }
    }
}

} // verus!
