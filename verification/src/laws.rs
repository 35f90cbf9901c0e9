//! Global laws of the ledger state machine.
//!
//! Each proof function here states a property of [`crate::engine::step`],
//! the specification that [`crate::engine::Ledger::apply`] is proved to
//! implement, so each property carries over to every run of the engine.

use vstd::prelude::*;

use crate::engine::{
    account_ok, dispute_applies, settle_applies, step_state, touch, LedgerView, Transaction,
};

verus! {

/// After any application, every account still satisfies
/// `total == available + held` with `held >= 0`, and the whole state stays
/// well formed. Together with `Ledger::new`, this gives the invariant for
/// every reachable engine state.
pub proof fn lemma_apply_preserves_invariant(l: LedgerView, t: Transaction)
    requires
        l.wf(),
    ensures
        step_state(l, t).wf(),
        forall|c: u16| #[trigger] step_state(l, t).accounts.contains_key(c) ==> account_ok(
            step_state(l, t).accounts[c],
        ),
{
    crate::engine::lemma_step_wf(l, t);
}

/// A dispute that references an unregistered transaction id is a no-op
/// (beyond lazily creating the client's account), so applying it twice in
/// a row leaves exactly the state that applying it once leaves.
pub proof fn lemma_unknown_dispute_idempotent(l: LedgerView, t: Transaction)
    requires
        t.kind is Dispute,
        !l.records.contains_key(t.tx),
    ensures
        step_state(l, t) == touch(l, t.client),
        step_state(step_state(l, t), t) == step_state(l, t),
{
    assert(!dispute_applies(l, t.client, t.tx));
    let l1 = touch(l, t.client);
    assert(!dispute_applies(l1, t.client, t.tx));
    assert(l1.accounts.contains_key(t.client));
    assert(touch(l1, t.client) == l1);
}

/// Chargeback is terminal: once the record for a transaction id is charged
/// back, a subsequent resolve or second chargeback of that id by its owner
/// is a no-op, and the owner's account stays locked.
pub proof fn lemma_chargeback_terminal(l: LedgerView, t: Transaction)
    requires
        l.wf(),
        t.kind is Resolve || t.kind is Chargeback,
        l.records.contains_key(t.tx),
        l.records[t.tx].state is ChargedBack,
        t.client == l.records[t.tx].owning_client,
    ensures
        step_state(l, t) == l,
        l.accounts[t.client].locked,
        step_state(l, t).accounts[t.client].locked,
{
    assert(l.accounts.contains_key(t.client));
    assert(!settle_applies(l, t.client, t.tx));
    assert(touch(l, t.client) == l);
}

/// Lock finality: once an account is locked, a deposit or withdrawal for
/// that client changes nothing at all — in particular its `available` and
/// `total` stay as they are.
pub proof fn lemma_locked_account_frozen(l: LedgerView, t: Transaction)
    requires
        l.wf(),
        t.kind is Deposit || t.kind is Withdrawal,
        l.accounts.contains_key(t.client),
        l.accounts[t.client].locked,
    ensures
        step_state(l, t) == l,
        step_state(l, t).accounts[t.client] == l.accounts[t.client],
{
    assert(touch(l, t.client) == l);
}

} // verus!
