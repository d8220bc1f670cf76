//! Failures of transfer application.  Every failure is fatal to the current
//! transaction only; the enclosing execution environment owns the decision to
//! discard the transaction's writes.

use vstd::prelude::*;

verus! {

/// The failure kinds of transfer application.
#[derive(Clone, Copy, PartialEq, Eq, Structural, Debug)]
pub enum TransferError {
    /// A source account's balance is smaller than the amount drawn from it:
    /// an economic rejection.
    InsufficientBalance,
    /// A credited balance, or a summed transfer amount, would exceed the
    /// amount type's width.
    Overflow,
    /// The declared shielded-section reference cannot be resolved in the
    /// transaction body: the transaction is malformed or tampered with.
    MissingShieldedSection,
    /// The shielded-pool adapter rejected the payload.
    ShieldedApplicationFailure,
    /// Appending the payload's commitments to the commitment tree failed.
    CommitmentTreeFailure,
    /// The shielded payload claims an authorizing transparent address that is
    /// not backed by a transparent debit of this same transaction.
    AuthorizationMismatch,
}

/// The stage of a multi-part transfer in which a failure arose.
#[derive(Clone, Copy, PartialEq, Eq, Structural, Debug)]
pub enum Stage {
    /// The transparent multi-leg application.
    Transparent,
    /// The shielded-section application and reconciliation.
    Shielded,
}

/// A failure wrapped with the stage that produced it.
#[derive(Clone, Copy, PartialEq, Eq, Structural, Debug)]
pub struct MultiTransferError {
    pub stage: Stage,
    pub error: TransferError,
}

impl TransferError {
    /// A short human-readable description of the failure.
    pub fn describe(&self) -> (r: &'static str)
        ensures
            self is InsufficientBalance ==> r@ == "insufficient balance in a source account"@,
            self is Overflow ==> r@ == "amount arithmetic overflow"@,
            self is MissingShieldedSection ==> r@
                == "unable to find required shielded section in tx data"@,
            self is ShieldedApplicationFailure ==> r@
                == "encountered error while handling shielded transaction"@,
            self is CommitmentTreeFailure ==> r@ == "failed to update the commitment tree"@,
            self is AuthorizationMismatch ==> r@
                == "transfer transaction does not debit all the expected accounts"@,
    {
        match self {
            TransferError::InsufficientBalance => "insufficient balance in a source account",
            TransferError::Overflow => "amount arithmetic overflow",
            TransferError::MissingShieldedSection => "unable to find required shielded section in tx data",
            TransferError::ShieldedApplicationFailure => "encountered error while handling shielded transaction",
            TransferError::CommitmentTreeFailure => "failed to update the commitment tree",
            TransferError::AuthorizationMismatch => "transfer transaction does not debit all the expected accounts",
        }
    }
}

impl MultiTransferError {
    /// A short human-readable label of the stage that failed.
    pub fn stage_label(&self) -> (r: &'static str)
        ensures
            self.stage is Transparent ==> r@ == "transparent token transfer failed"@,
            self.stage is Shielded ==> r@ == "shielded token transfer failed"@,
    {
        match self.stage {
            Stage::Transparent => "transparent token transfer failed",
            Stage::Shielded => "shielded token transfer failed",
        }
    }
}

} // verus!
