//! Emitted token events: structured records of what a transfer did, consumed
//! by humans and indexers.

use vstd::prelude::*;
use crate::addr::Address;
use crate::legs::{AccountAmount, Amount};

verus! {

/// The level at which an event is recorded.
#[derive(Clone, Copy, PartialEq, Eq, Structural, Debug)]
pub enum EventLevel {
    /// Attached to one transaction.
    Tx,
    /// Attached to a whole block.
    Block,
}

/// The operation payload of a token event, with the post-transfer balance of
/// every touched (account, token) pair.
#[derive(Clone, Debug)]
pub enum TokenOperation {
    /// A transfer between exactly one source and one target.
    SingleTransfer {
        source: Address,
        target: Address,
        token: Address,
        amount: Amount,
        source_post_balance: Amount,
        target_post_balance: Amount,
    },
    /// A multi-party transfer: debits, credits, and post-transfer balances,
    /// each in canonical sorted order.
    MultiTransfer {
        sources: Vec<AccountAmount>,
        targets: Vec<AccountAmount>,
        post_balances: Vec<AccountAmount>,
    },
}

/// One emitted token event.
#[derive(Clone, Debug)]
pub struct TokenEvent {
    pub descriptor: String,
    pub level: EventLevel,
    pub operation: TokenOperation,
}

/// Two operation payloads carry the same content.
pub open spec fn op_equiv(a: TokenOperation, b: TokenOperation) -> bool {
    match (a, b) {
        (
            TokenOperation::SingleTransfer {
                source: s1,
                target: d1,
                token: t1,
                amount: a1,
                source_post_balance: sp1,
                target_post_balance: dp1,
            },
            TokenOperation::SingleTransfer {
                source: s2,
                target: d2,
                token: t2,
                amount: a2,
                source_post_balance: sp2,
                target_post_balance: dp2,
            },
        ) => s1 == s2 && d1 == d2 && t1 == t2 && a1 == a2 && sp1 == sp2 && dp1 == dp2,
        (
            TokenOperation::MultiTransfer { sources: s1, targets: t1, post_balances: p1 },
            TokenOperation::MultiTransfer { sources: s2, targets: t2, post_balances: p2 },
        ) => s1@ == s2@ && t1@ == t2@ && p1@ == p2@,
        _ => false,
    }
}

/// Two events carry the same content.
pub open spec fn event_equiv(a: TokenEvent, b: TokenEvent) -> bool {
    a.descriptor@ == b.descriptor@ && a.level == b.level && op_equiv(a.operation, b.operation)
}

/// Two event logs carry the same content, in the same order.
pub open spec fn events_equiv(a: Seq<TokenEvent>, b: Seq<TokenEvent>) -> bool {
    a.len() == b.len() && forall|i: int| 0 <= i < a.len() ==> event_equiv(#[trigger] a[i], b[i])
}

} // verus!
