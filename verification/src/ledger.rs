//! The transparent balance ledger: per-(token, account) balances, with an
//! atomic multi-leg mutation.  A balance that was never written is zero.

use vstd::prelude::*;
use crate::addr::{Address, addrs_sorted, insert_addr_sorted};
use crate::error::TransferError;
use crate::legs::{
    AccountAmount, Amount, legs_sorted, totals, token_total, leg_measure,
    lemma_sorted_totals_entry, lemma_sorted_prefix_totals_zero, lemma_absent_totals_zero, has_key,
};
use crate::sums::{
    seq_sum, lemma_seq_sum_update, lemma_seq_sum_push, lemma_seq_sum_singleton, lemma_seq_sum_zero,
    lemma_seq_sum_take_succ,
};

verus! {

/// One stored balance: the amount of `token` held by `owner`.
#[derive(Clone, Copy, PartialEq, Eq, Structural, Debug)]
pub struct BalanceEntry {
    pub token: Address,
    pub owner: Address,
    pub amount: Amount,
}

/// The measure selecting the amount stored for one (token, account) pair.
pub open spec fn entry_measure(token: Address, owner: Address) -> spec_fn(BalanceEntry) -> int {
    |e: BalanceEntry|
        if e.token == token && e.owner == owner {
            e.amount as int
        } else {
            0
        }
}

/// The measure selecting the amounts stored for one token.
pub open spec fn supply_measure(token: Address) -> spec_fn(BalanceEntry) -> int {
    |e: BalanceEntry|
        if e.token == token {
            e.amount as int
        } else {
            0
        }
}

/// The per-(account, token) balance ledger.
pub struct Ledger {
    pub entries: Vec<BalanceEntry>,
}

impl Ledger {
    /// Well-formed: at most one entry per (token, account) pair.
    pub open spec fn wf(self) -> bool {
        forall|i: int, j: int|
            0 <= i < j < self.entries@.len() ==> !((#[trigger] self.entries@[i]).token
                == (#[trigger] self.entries@[j]).token && self.entries@[i].owner
                == self.entries@[j].owner)
    }

    /// The balance of `owner` in `token`; zero when never written.
    pub open spec fn bal(self, token: Address, owner: Address) -> int {
        seq_sum(self.entries@, entry_measure(token, owner))
    }

    /// The total amount of `token` stored over all accounts.
    pub open spec fn supply(self, token: Address) -> int {
        seq_sum(self.entries@, supply_measure(token))
    }

    /// Whether the ledger stores an entry for the (token, account) pair.
    pub open spec fn stores(self, token: Address, owner: Address) -> bool {
        exists|i: int|
            0 <= i < self.entries@.len() && (#[trigger] self.entries@[i]).token == token
                && self.entries@[i].owner == owner
    }

    /// An empty ledger: every balance is zero.
    pub fn new() -> (r: Ledger)
        ensures
            r.wf(),
            r.entries@ =~= Seq::<BalanceEntry>::empty(),
            forall|t: Address, o: Address| #[trigger] r.bal(t, o) == 0,
    {
        let r = Ledger { entries: Vec::new() };
        proof {
            assert forall|t: Address, o: Address| #[trigger] r.bal(t, o) == 0 by {
                lemma_seq_sum_zero(r.entries@, entry_measure(t, o));
            }
        }
        r
    }

    /// A well-formed ledger's stored entry carries exactly the balance.
    proof fn lemma_bal_entry(self, i: int)
        requires
            self.wf(),
            0 <= i < self.entries@.len(),
        ensures
            self.bal(self.entries@[i].token, self.entries@[i].owner) == self.entries@[i].amount
                as int,
    {
        let f = entry_measure(self.entries@[i].token, self.entries@[i].owner);
        assert forall|j: int| 0 <= j < self.entries@.len() && j != i implies f(
            self.entries@[j],
        ) == 0 by {}
        lemma_seq_sum_singleton(self.entries@, f, i);
    }

    /// A pair without a stored entry has balance zero.
    proof fn lemma_bal_absent(self, token: Address, owner: Address)
        requires
            !self.stores(token, owner),
        ensures
            self.bal(token, owner) == 0,
    {
        let f = entry_measure(token, owner);
        assert forall|j: int| 0 <= j < self.entries@.len() implies f(self.entries@[j]) == 0 by {
            assert(!(self.entries@[j].token == token && self.entries@[j].owner == owner));
        }
        lemma_seq_sum_zero(self.entries@, f);
    }

    /// Every balance of a well-formed ledger fits the amount type.
    pub proof fn lemma_bal_range(self, token: Address, owner: Address)
        requires
            self.wf(),
        ensures
            0 <= self.bal(token, owner) <= u128::MAX,
    {
        if self.stores(token, owner) {
            let i = choose|i: int|
                0 <= i < self.entries@.len() && (#[trigger] self.entries@[i]).token == token
                    && self.entries@[i].owner == owner;
            self.lemma_bal_entry(i);
        } else {
            self.lemma_bal_absent(token, owner);
        }
    }

    /// Read the balance of `owner` in `token`.
    pub fn read_balance(&self, token: &Address, owner: &Address) -> (r: Amount)
        requires
            self.wf(),
        ensures
            r as int == self.bal(*token, *owner),
    {
        let mut k: usize = 0;
        while k < self.entries.len()
            invariant
                self.wf(),
                k <= self.entries@.len(),
                forall|m: int|
                    0 <= m < k ==> !((#[trigger] self.entries@[m]).token == *token
                        && self.entries@[m].owner == *owner),
            decreases self.entries@.len() - k,
        {
            let e = self.entries[k];
            if e.token == *token && e.owner == *owner {
                proof {
                    self.lemma_bal_entry(k as int);
                }
                return e.amount;
            }
            k += 1;
        }
        proof {
            self.lemma_bal_absent(*token, *owner);
        }
        0
    }

    /// Write the balance of `owner` in `token`; every other balance is kept.
    pub fn set_balance(&mut self, token: &Address, owner: &Address, amount: Amount)
        requires
            old(self).wf(),
        ensures
            final(self).wf(),
            forall|t: Address, o: Address| #[trigger]
                final(self).bal(t, o) == if t == *token && o == *owner {
                    amount as int
                } else {
                    old(self).bal(t, o)
                },
            forall|t: Address| #[trigger]
                final(self).supply(t) == old(self).supply(t) + (if t == *token {
                    amount as int - old(self).bal(*token, *owner)
                } else {
                    0
                }),
    {
        let ghost prev = *self;
        let mut k: usize = 0;
        while k < self.entries.len()
            invariant
                *self == prev,
                prev == *old(self),
                prev.wf(),
                k <= self.entries@.len(),
                forall|m: int|
                    0 <= m < k ==> !((#[trigger] self.entries@[m]).token == *token
                        && self.entries@[m].owner == *owner),
            decreases self.entries@.len() - k,
        {
            let e = self.entries[k];
            proof {
                assert(e == prev.entries@[k as int]);
            }
            if e.token == *token && e.owner == *owner {
                let entry = BalanceEntry { token: *token, owner: *owner, amount };
                self.entries.set(k, entry);
                proof {
                    let kk = k as int;
                    assert(prev.entries@[kk] == e);
                    assert(e.token == *token && e.owner == *owner);
                    assert(self.entries@ == prev.entries@.update(kk, entry));
                    assert forall|i: int, j: int| 0 <= i < j < self.entries@.len() implies !((
                    #[trigger] self.entries@[i]).token == (#[trigger] self.entries@[j]).token
                        && self.entries@[i].owner == self.entries@[j].owner) by {
                        if i != kk {
                            assert(self.entries@[i] == prev.entries@[i]);
                        } else {
                            assert(self.entries@[i] == entry);
                        }
                        if j != kk {
                            assert(self.entries@[j] == prev.entries@[j]);
                        } else {
                            assert(self.entries@[j] == entry);
                        }
                        assert(prev.entries@[kk].token == entry.token && prev.entries@[kk].owner
                            == entry.owner);
                    }
                    prev.lemma_bal_entry(kk);
                    assert forall|t: Address, o: Address| #[trigger]
                        self.bal(t, o) == if t == *token && o == *owner {
                            amount as int
                        } else {
                            prev.bal(t, o)
                        } by {
                        lemma_seq_sum_update(prev.entries@, entry_measure(t, o), kk, entry);
                    }
                    assert forall|t: Address| #[trigger]
                        self.supply(t) == prev.supply(t) + (if t == *token {
                            amount as int - prev.bal(*token, *owner)
                        } else {
                            0
                        }) by {
                        lemma_seq_sum_update(prev.entries@, supply_measure(t), kk, entry);
                    }
                }
                return ;
            }
            k += 1;
        }
        let entry = BalanceEntry { token: *token, owner: *owner, amount };
        self.entries.push(entry);
        proof {
            assert(self.entries@ == prev.entries@.push(entry));
            assert(!prev.stores(*token, *owner));
            prev.lemma_bal_absent(*token, *owner);
            assert forall|i: int, j: int| 0 <= i < j < self.entries@.len() implies !((
            #[trigger] self.entries@[i]).token == (#[trigger] self.entries@[j]).token
                && self.entries@[i].owner == self.entries@[j].owner) by {
                if j < prev.entries@.len() {
                    assert(self.entries@[i] == prev.entries@[i]);
                } else {
                    assert(self.entries@[j] == entry);
                    assert(self.entries@[i] == prev.entries@[i]);
                }
            }
            assert forall|t: Address, o: Address| #[trigger]
                self.bal(t, o) == if t == *token && o == *owner {
                    amount as int
                } else {
                    prev.bal(t, o)
                } by {
                crate::sums::lemma_seq_sum_push(prev.entries@, entry_measure(t, o), entry);
            }
            assert forall|t: Address| #[trigger]
                self.supply(t) == prev.supply(t) + (if t == *token {
                    amount as int - prev.bal(*token, *owner)
                } else {
                    0
                }) by {
                crate::sums::lemma_seq_sum_push(prev.entries@, supply_measure(t), entry);
            }
        }
    }
}

/// Some source leg draws more than its account's balance holds.
pub open spec fn insufficient(l: Ledger, sources: Seq<AccountAmount>) -> bool {
    exists|i: int|
        0 <= i < sources.len() && l.bal((#[trigger] sources[i]).token, sources[i].owner)
            < sources[i].amount as int
}

/// Some credited balance would exceed the amount type's width after all
/// debits are taken.
pub open spec fn credit_overflow(
    l: Ledger,
    sources: Seq<AccountAmount>,
    targets: Seq<AccountAmount>,
) -> bool {
    exists|i: int|
        0 <= i < targets.len() && l.bal((#[trigger] targets[i]).token, targets[i].owner) - totals(
            sources,
            targets[i].owner,
            targets[i].token,
        ) + targets[i].amount as int > u128::MAX
}

/// Whether `a` has some balance strictly reduced by the transfer: it funds
/// more of some token than it receives of it.
pub open spec fn is_debited(
    sources: Seq<AccountAmount>,
    targets: Seq<AccountAmount>,
    a: Address,
) -> bool {
    exists|i: int|
        0 <= i < sources.len() && (#[trigger] sources[i]).owner == a && sources[i].amount as int
            > totals(targets, a, sources[i].token)
}

impl Ledger {
    /// Atomically deduct every source leg and add every target leg, both in
    /// canonical normal form.  Fails entirely — no partial mutation visible —
    /// when a source balance is insufficient or a credited balance would
    /// overflow.  Returns the set of accounts that had some balance reduced.
    pub fn multi_transfer(&mut self, sources: &Vec<AccountAmount>, targets: &Vec<AccountAmount>)
        -> (r: Result<Vec<Address>, TransferError>)
        requires
            old(self).wf(),
            legs_sorted(sources@),
            legs_sorted(targets@),
        ensures
            match r {
                Ok(debited) => {
                    &&& !insufficient(*old(self), sources@)
                    &&& !credit_overflow(*old(self), sources@, targets@)
                    &&& final(self).wf()
                    &&& forall|t: Address, o: Address| #[trigger]
                        final(self).bal(t, o) == old(self).bal(t, o) - totals(sources@, o, t)
                            + totals(targets@, o, t)
                    &&& forall|t: Address| #[trigger]
                        final(self).supply(t) == old(self).supply(t) - token_total(sources@, t)
                            + token_total(targets@, t)
                    &&& addrs_sorted(debited@)
                    &&& forall|a: Address|
                        #[trigger] debited@.contains(a) <==> is_debited(sources@, targets@, a)
                },
                Err(e) => {
                    &&& *final(self) == *old(self)
                    &&& (e == TransferError::InsufficientBalance <==> insufficient(
                        *old(self),
                        sources@,
                    ))
                    &&& (e == TransferError::Overflow <==> !insufficient(*old(self), sources@)
                        && credit_overflow(*old(self), sources@, targets@))
                    &&& (e == TransferError::InsufficientBalance || e == TransferError::Overflow)
                },
            },
    {
        let ghost pre = *self;
        let mut scratch = Ledger { entries: copy_entries(&self.entries) };
        proof {
            assert(scratch.entries@ == pre.entries@);
        }
        let mut i: usize = 0;
        while i < sources.len()
            invariant
                i <= sources@.len(),
                *self == pre,
                pre == *old(self),
                pre.wf(),
                legs_sorted(sources@),
                scratch.wf(),
                forall|t: Address, o: Address| #[trigger]
                    scratch.bal(t, o) == pre.bal(t, o) - totals(sources@.take(i as int), o, t),
                forall|t: Address| #[trigger]
                    scratch.supply(t) == pre.supply(t) - token_total(
                        sources@.take(i as int),
                        t,
                    ),
                forall|k: int|
                    0 <= k < i ==> pre.bal((#[trigger] sources@[k]).token, sources@[k].owner)
                        >= sources@[k].amount as int,
            decreases sources@.len() - i,
        {
            let leg = sources[i];
            let b = scratch.read_balance(&leg.token, &leg.owner);
            proof {
                lemma_sorted_prefix_totals_zero(sources@, i as int);
                assert(b as int == pre.bal(leg.token, leg.owner));
            }
            if b < leg.amount {
                proof {
                    assert(pre.bal((sources@[i as int]).token, sources@[i as int].owner)
                        < sources@[i as int].amount as int);
                    assert(insufficient(pre, sources@));
                }
                return Err(TransferError::InsufficientBalance);
            }
            scratch.set_balance(&leg.token, &leg.owner, b - leg.amount);
            proof {
                assert forall|t: Address, o: Address| #[trigger]
                    scratch.bal(t, o) == pre.bal(t, o) - totals(
                        sources@.take(i as int + 1),
                        o,
                        t,
                    ) by {
                    lemma_seq_sum_take_succ(sources@, leg_measure(o, t), i as int);
                }
                assert forall|t: Address| #[trigger]
                    scratch.supply(t) == pre.supply(t) - token_total(
                        sources@.take(i as int + 1),
                        t,
                    ) by {
                    lemma_seq_sum_take_succ(sources@, crate::legs::token_measure(t), i as int);
                }
            }
            i += 1;
        }
        proof {
            assert(sources@.take(i as int) =~= sources@);
            assert(!insufficient(pre, sources@));
        }
        let mut k: usize = 0;
        while k < targets.len()
            invariant
                k <= targets@.len(),
                *self == pre,
                pre == *old(self),
                pre.wf(),
                legs_sorted(sources@),
                legs_sorted(targets@),
                scratch.wf(),
                !insufficient(pre, sources@),
                forall|t: Address, o: Address| #[trigger]
                    scratch.bal(t, o) == pre.bal(t, o) - totals(sources@, o, t) + totals(
                        targets@.take(k as int),
                        o,
                        t,
                    ),
                forall|t: Address| #[trigger]
                    scratch.supply(t) == pre.supply(t) - token_total(sources@, t) + token_total(
                        targets@.take(k as int),
                        t,
                    ),
            decreases targets@.len() - k,
        {
            let leg = targets[k];
            let b = scratch.read_balance(&leg.token, &leg.owner);
            proof {
                lemma_sorted_prefix_totals_zero(targets@, k as int);
                assert(b as int == pre.bal(leg.token, leg.owner) - totals(
                    sources@,
                    leg.owner,
                    leg.token,
                ));
            }
            if leg.amount > u128::MAX - b {
                proof {
                    assert(pre.bal((targets@[k as int]).token, targets@[k as int].owner) - totals(
                        sources@,
                        targets@[k as int].owner,
                        targets@[k as int].token,
                    ) + targets@[k as int].amount as int > u128::MAX);
                    assert(credit_overflow(pre, sources@, targets@));
                }
                return Err(TransferError::Overflow);
            }
            scratch.set_balance(&leg.token, &leg.owner, b + leg.amount);
            proof {
                assert forall|t: Address, o: Address| #[trigger]
                    scratch.bal(t, o) == pre.bal(t, o) - totals(sources@, o, t) + totals(
                        targets@.take(k as int + 1),
                        o,
                        t,
                    ) by {
                    lemma_seq_sum_take_succ(targets@, leg_measure(o, t), k as int);
                }
                assert forall|t: Address| #[trigger]
                    scratch.supply(t) == pre.supply(t) - token_total(sources@, t) + token_total(
                        targets@.take(k as int + 1),
                        t,
                    ) by {
                    lemma_seq_sum_take_succ(targets@, crate::legs::token_measure(t), k as int);
                }
            }
            k += 1;
        }
        proof {
            assert(targets@.take(k as int) =~= targets@);
            assert(!credit_overflow(pre, sources@, targets@)) by {
                if credit_overflow(pre, sources@, targets@) {
                    let w = choose|w: int|
                        0 <= w < targets@.len() && pre.bal(
                            (#[trigger] targets@[w]).token,
                            targets@[w].owner,
                        ) - totals(sources@, targets@[w].owner, targets@[w].token)
                            + targets@[w].amount as int > u128::MAX;
                    lemma_sorted_totals_entry(targets@, w);
                    scratch.lemma_bal_range(targets@[w].token, targets@[w].owner);
                    assert(totals(targets@, targets@[w].owner, targets@[w].token)
                        >= targets@[w].amount as int) by {
                        lemma_sorted_totals_entry(targets@, w);
                    }
                }
            }
        }
        let mut debited: Vec<Address> = Vec::new();
        let mut d: usize = 0;
        while d < sources.len()
            invariant
                d <= sources@.len(),
                *self == pre,
                pre == *old(self),
                pre.wf(),
                legs_sorted(sources@),
                legs_sorted(targets@),
                scratch.wf(),
                forall|t: Address, o: Address| #[trigger]
                    scratch.bal(t, o) == pre.bal(t, o) - totals(sources@, o, t) + totals(
                        targets@,
                        o,
                        t,
                    ),
                addrs_sorted(debited@),
                forall|a: Address|
                    #[trigger] debited@.contains(a) <==> exists|m: int|
                        0 <= m < d && (#[trigger] sources@[m]).owner == a
                            && sources@[m].amount as int > totals(targets@, a, sources@[m].token),
            decreases sources@.len() - d,
        {
            let leg = sources[d];
            let post_b = scratch.read_balance(&leg.token, &leg.owner);
            let pre_b = self.read_balance(&leg.token, &leg.owner);
            let ghost before = debited@;
            if post_b < pre_b {
                insert_addr_sorted(&mut debited, &leg.owner);
            }
            proof {
                lemma_sorted_totals_entry(sources@, d as int);
                assert((post_b < pre_b) == (sources@[d as int].amount as int > totals(
                    targets@,
                    leg.owner,
                    leg.token,
                )));
                assert forall|a: Address|
                    #[trigger] debited@.contains(a) <==> exists|m: int|
                        0 <= m < d + 1 && (#[trigger] sources@[m]).owner == a
                            && sources@[m].amount as int > totals(targets@, a, sources@[m].token)
                    by {
                    if debited@.contains(a) {
                        if before.contains(a) {
                            let m = choose|m: int|
                                0 <= m < d && (#[trigger] sources@[m]).owner == a
                                    && sources@[m].amount as int > totals(
                                    targets@,
                                    a,
                                    sources@[m].token,
                                );
                            assert(0 <= m < d + 1 && sources@[m].owner == a);
                        } else {
                            assert(a == leg.owner);
                            assert(sources@[d as int].owner == a);
                        }
                    }
                    if exists|m: int|
                        0 <= m < d + 1 && (#[trigger] sources@[m]).owner == a
                            && sources@[m].amount as int > totals(targets@, a, sources@[m].token) {
                        let m = choose|m: int|
                            0 <= m < d + 1 && (#[trigger] sources@[m]).owner == a
                                && sources@[m].amount as int > totals(
                                targets@,
                                a,
                                sources@[m].token,
                            );
                        if m < d {
                            assert(before.contains(a));
                        }
                    }
                }
            }
            d += 1;
        }
        self.entries = scratch.entries;
        proof {
            assert(*self == Ledger { entries: scratch.entries });
            assert forall|a: Address|
                #[trigger] debited@.contains(a) <==> is_debited(sources@, targets@, a) by {}
        }
        Ok(debited)
    }
}

/// Duplicate a vector of balance entries.
fn copy_entries(v: &Vec<BalanceEntry>) -> (r: Vec<BalanceEntry>)
    ensures
        r@ == v@,
{
    let mut r: Vec<BalanceEntry> = Vec::new();
    let mut i: usize = 0;
    while i < v.len()
        invariant
            i <= v@.len(),
            r@ == v@.take(i as int),
        decreases v@.len() - i,
    {
        r.push(v[i]);
        proof {
            assert(r@ =~= v@.take(i as int + 1));
        }
        i += 1;
    }
    proof {
        assert(v@.take(i as int) =~= v@);
    }
    r
}

} // verus!
