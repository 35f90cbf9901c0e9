//! A single-pass ledger engine.
//!
//! The engine consumes an ordered stream of transaction events (deposits,
//! withdrawals, and the three-phase dispute workflow: dispute, then resolve
//! or chargeback) and maintains one account per client. Money is held as a
//! fixed-point integer count of 1/10000 currency units, so every balance is
//! exact. The `engine` module holds the state machine itself; `amount`
//! converts between decimal text and the fixed-point representation.

pub mod amount;
pub mod engine;
pub mod laws;
