//! Token-transfer execution core for an account-based ledger that supports
//! transparent (plaintext-balance) and shielded (commitment-based) transfers
//! inside one atomic transaction.
//!
//! The library applies an N-source/M-target transparent balance mutation,
//! applies a linked shielded-pool state transition, and reconciles the set of
//! transparently debited accounts against the transparent-side addresses that
//! authorize the shielded leg.  All state touched by one transaction — the
//! balance ledger, the verifier registry, the action log, the emitted events,
//! the commitment tree and its poison sentinel — lives in a transaction-scoped
//! [`ctx::Ctx`] handed in by the enclosing execution environment.

pub mod addr;
pub mod sums;
pub mod error;
pub mod legs;
pub mod ledger;
pub mod event;
pub mod shielded;
pub mod ctx;
pub mod token;
pub mod laws;
