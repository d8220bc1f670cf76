//! The transaction-scoped context: the balance ledger, the verifier
//! registry, the action log, the emitted events, the commitment tree with
//! its poison sentinel.  The enclosing execution environment creates one
//! context per transaction and inspects it after transfer application.

use vstd::prelude::*;
use crate::addr::Address;
use crate::error::TransferError;
use crate::event::TokenEvent;
use crate::ledger::Ledger;
use crate::shielded::{MaspTxId, ShieldedPayload};

verus! {

/// An append-only record consumed later by validity predicates.
#[derive(Clone, Copy, PartialEq, Eq, Structural, Debug)]
pub enum Action {
    /// This transaction references the shielded section with this hash.
    ShieldedSectionReferenced(MaspTxId),
    /// This account authorized a shielded pool-balance movement.
    ShieldedAuthorizer(Address),
}

/// The append-only accumulator of shielded note commitments.
pub struct CommitmentTree {
    pub commitments: Vec<u64>,
    pub capacity: usize,
}

impl CommitmentTree {
    /// Well-formed: within capacity.
    pub open spec fn wf(self) -> bool {
        self.commitments@.len() <= self.capacity
    }

    /// Append a payload's new commitments; fails, changing nothing, when
    /// they do not fit.
    pub fn update_commitment_tree(&mut self, payload: &ShieldedPayload) -> (r: Result<
        (),
        TransferError,
    >)
        requires
            old(self).wf(),
        ensures
            final(self).wf(),
            final(self).capacity == old(self).capacity,
            match r {
                Ok(u) => {
                    &&& old(self).commitments@.len() + payload.commitments@.len() <= old(
                        self,
                    ).capacity
                    &&& final(self).commitments@ == old(self).commitments@
                        + payload.commitments@
                },
                Err(e) => {
                    &&& e == TransferError::CommitmentTreeFailure
                    &&& old(self).commitments@.len() + payload.commitments@.len() > old(
                        self,
                    ).capacity
                    &&& final(self).commitments@ == old(self).commitments@
                },
            },
    {
        if payload.commitments.len() > self.capacity - self.commitments.len() {
            return Err(TransferError::CommitmentTreeFailure);
        }
        let ghost prev = self.commitments@;
        let mut k: usize = 0;
        while k < payload.commitments.len()
            invariant
                k <= payload.commitments@.len(),
                self.capacity == old(self).capacity,
                prev == old(self).commitments@,
                prev.len() + payload.commitments@.len() <= self.capacity,
                self.commitments@ == prev + payload.commitments@.take(k as int),
            decreases payload.commitments@.len() - k,
        {
            let c = payload.commitments[k];
            self.commitments.push(c);
            proof {
                assert(prev + payload.commitments@.take(k as int + 1) =~= (prev
                    + payload.commitments@.take(k as int)).push(c));
            }
            k += 1;
        }
        proof {
            assert(payload.commitments@.take(k as int) =~= payload.commitments@);
        }
        Ok(())
    }
}

/// The state one transaction's transfer application reads and writes.
pub struct Ctx {
    /// The transparent balance ledger.
    pub ledger: Ledger,
    /// The verifier registry: addresses whose validity predicates must
    /// approve the transaction, in order of first insertion, no duplicates.
    pub verifiers: Vec<Address>,
    /// The ordered action write-log.
    pub actions: Vec<Action>,
    /// The emitted events, in order.
    pub events: Vec<TokenEvent>,
    /// The shielded note-commitment tree.
    pub tree: CommitmentTree,
    /// The commitment-tree poison sentinel: once set, the tree must not be
    /// trusted for this transaction.
    pub commitment_sentinel: bool,
}

/// What the verifier registry holds after registering `a`: unchanged when
/// already present, appended otherwise.
pub open spec fn spec_insert_verifier(vs: Seq<Address>, a: Address) -> Seq<Address> {
    if vs.contains(a) {
        vs
    } else {
        vs.push(a)
    }
}

/// Everything but the verifier registry is unchanged.
pub open spec fn same_but_verifiers(pre: Ctx, post: Ctx) -> bool {
    &&& post.ledger == pre.ledger
    &&& post.actions == pre.actions
    &&& post.events == pre.events
    &&& post.tree.commitments == pre.tree.commitments
    &&& post.tree.capacity == pre.tree.capacity
    &&& post.commitment_sentinel == pre.commitment_sentinel
}

impl Ctx {
    /// Well-formed: ledger and tree well-formed, registry without
    /// duplicates.
    pub open spec fn wf(self) -> bool {
        &&& self.ledger.wf()
        &&& self.tree.wf()
        &&& self.verifiers@.no_duplicates()
    }

    /// A fresh transaction context over a given ledger: empty registry and
    /// logs, an empty commitment tree of the given capacity, sentinel clear.
    pub fn new(ledger: Ledger, tree_capacity: usize) -> (r: Ctx)
        requires
            ledger.wf(),
        ensures
            r.wf(),
            r.ledger == ledger,
            r.verifiers@ =~= Seq::<Address>::empty(),
            r.actions@ =~= Seq::<Action>::empty(),
            r.events@ =~= Seq::<TokenEvent>::empty(),
            r.tree.commitments@ =~= Seq::<u64>::empty(),
            r.tree.capacity == tree_capacity,
            !r.commitment_sentinel,
    {
        Ctx {
            ledger,
            verifiers: Vec::new(),
            actions: Vec::new(),
            events: Vec::new(),
            tree: CommitmentTree { commitments: Vec::new(), capacity: tree_capacity },
            commitment_sentinel: false,
        }
    }

    /// Register an address whose validity predicate must approve this
    /// transaction.  Idempotent: a registered address is not repeated.
    pub fn insert_verifier(&mut self, a: &Address)
        ensures
            final(self).verifiers@ == spec_insert_verifier(old(self).verifiers@, *a),
            old(self).verifiers@.no_duplicates() ==> final(self).verifiers@.no_duplicates(),
            same_but_verifiers(*old(self), *final(self)),
    {
        let mut k: usize = 0;
        while k < self.verifiers.len()
            invariant
                k <= self.verifiers@.len(),
                forall|m: int| 0 <= m < k ==> self.verifiers@[m] != *a,
            decreases self.verifiers@.len() - k,
        {
            if self.verifiers[k] == *a {
                proof {
                    assert(self.verifiers@.contains(*a));
                }
                return ;
            }
            k += 1;
        }
        proof {
            assert(!old(self).verifiers@.contains(*a));
        }
        self.verifiers.push(*a);
        proof {
            if old(self).verifiers@.no_duplicates() {
                assert(final(self).verifiers@.no_duplicates());
            }
        }
    }

    /// Append an action to the write-log.
    pub fn push_action(&mut self, action: Action)
        ensures
            final(self).verifiers == old(self).verifiers,
            final(self).ledger == old(self).ledger,
            final(self).events == old(self).events,
            final(self).tree.commitments == old(self).tree.commitments,
            final(self).tree.capacity == old(self).tree.capacity,
            final(self).commitment_sentinel == old(self).commitment_sentinel,
            final(self).actions@ == old(self).actions@.push(action),
    {
        self.actions.push(action);
    }

    /// Emit an event.
    pub fn emit(&mut self, event: TokenEvent)
        ensures
            final(self).verifiers == old(self).verifiers,
            final(self).ledger == old(self).ledger,
            final(self).actions == old(self).actions,
            final(self).tree.commitments == old(self).tree.commitments,
            final(self).tree.capacity == old(self).tree.capacity,
            final(self).commitment_sentinel == old(self).commitment_sentinel,
            final(self).events@ == old(self).events@.push(event),
    {
        self.events.push(event);
    }

    /// Poison the commitment tree for this transaction.  Idempotent and
    /// irreversible for the transaction.
    pub fn set_commitment_sentinel(&mut self)
        ensures
            final(self).verifiers == old(self).verifiers,
            final(self).ledger == old(self).ledger,
            final(self).actions == old(self).actions,
            final(self).events == old(self).events,
            final(self).tree.commitments == old(self).tree.commitments,
            final(self).tree.capacity == old(self).tree.capacity,
            final(self).commitment_sentinel,
    {
        self.commitment_sentinel = true;
    }
}

} // verus!
