//! Transfer legs — (account, token, amount) triples — and their canonical
//! normal form: sorted by account then token, one entry per key, equal keys
//! summed.  Insertion order of the supplied legs is irrelevant; processing
//! always happens on the normal form so that independent executions of the
//! same transfer are byte-identical.

use vstd::prelude::*;
use crate::addr::{Address, addr_lt, addr_lt_exec};
use crate::error::TransferError;
use crate::sums::{
    seq_sum, lemma_seq_sum_update, lemma_seq_sum_insert, lemma_seq_sum_take_succ,
    lemma_seq_sum_take_bound, lemma_seq_sum_singleton, lemma_seq_sum_zero,
};

verus! {

/// A non-negative fixed-width token quantity.
pub type Amount = u128;

/// One transfer leg: an amount of one token, owed by or to one account.
/// Also the entry form of the ordered mappings carried by an emitted event.
#[derive(Clone, Copy, PartialEq, Eq, Structural, Debug)]
pub struct AccountAmount {
    pub owner: Address,
    pub token: Address,
    pub amount: Amount,
}

/// The canonical strict order on legs: by account, then by token.
pub open spec fn key_lt(a: AccountAmount, b: AccountAmount) -> bool {
    addr_lt(a.owner, b.owner) || (a.owner == b.owner && addr_lt(a.token, b.token))
}

/// Whether two legs speak of the same (account, token) pair.
pub open spec fn same_key(a: AccountAmount, b: AccountAmount) -> bool {
    a.owner == b.owner && a.token == b.token
}

/// Executable comparison deciding `key_lt`.
pub fn key_lt_exec(a: &AccountAmount, b: &AccountAmount) -> (r: bool)
    ensures
        r == key_lt(*a, *b),
{
    addr_lt_exec(&a.owner, &b.owner) || (a.owner == b.owner && addr_lt_exec(&a.token, &b.token))
}

/// Executable comparison deciding `same_key`.
pub fn same_key_exec(a: &AccountAmount, b: &AccountAmount) -> (r: bool)
    ensures
        r == same_key(*a, *b),
{
    a.owner == b.owner && a.token == b.token
}

/// `key_lt` is a strict total order on keys.
pub proof fn lemma_key_order(a: AccountAmount, b: AccountAmount, c: AccountAmount)
    ensures
        !(key_lt(a, b) && key_lt(b, a)),
        key_lt(a, b) || key_lt(b, a) || same_key(a, b),
        key_lt(a, b) ==> !same_key(a, b),
        key_lt(a, b) && key_lt(b, c) ==> key_lt(a, c),
        same_key(a, b) && key_lt(b, c) ==> key_lt(a, c),
        same_key(a, b) && key_lt(c, b) ==> key_lt(c, a),
{
    crate::addr::lemma_addr_order(a.owner, b.owner, c.owner);
    crate::addr::lemma_addr_order(a.token, b.token, c.token);
    crate::addr::lemma_addr_order(a.owner, b.owner, b.owner);
    crate::addr::lemma_addr_order(a.token, b.token, b.token);
    crate::addr::lemma_addr_order(c.owner, b.owner, a.owner);
    crate::addr::lemma_addr_order(c.token, b.token, a.token);
}

/// A sequence of legs in canonical order: strictly ascending keys, so every
/// key appears at most once.
pub open spec fn legs_sorted(s: Seq<AccountAmount>) -> bool {
    forall|i: int, j: int| 0 <= i < j < s.len() ==> key_lt(#[trigger] s[i], #[trigger] s[j])
}

/// The measure selecting the amount of the legs of one (account, token) key.
pub open spec fn leg_measure(owner: Address, token: Address) -> spec_fn(AccountAmount) -> int {
    |l: AccountAmount|
        if l.owner == owner && l.token == token {
            l.amount as int
        } else {
            0
        }
}

/// The summed amount that `s` moves for the (account, token) pair.
pub open spec fn totals(s: Seq<AccountAmount>, owner: Address, token: Address) -> int {
    seq_sum(s, leg_measure(owner, token))
}

/// The measure selecting the amount of the legs of one token.
pub open spec fn token_measure(token: Address) -> spec_fn(AccountAmount) -> int {
    |l: AccountAmount|
        if l.token == token {
            l.amount as int
        } else {
            0
        }
}

/// The summed amount that `s` moves of one token, over all accounts.
pub open spec fn token_total(s: Seq<AccountAmount>, token: Address) -> int {
    seq_sum(s, token_measure(token))
}

/// Whether some leg of `s` speaks of the (account, token) pair.
pub open spec fn has_key(s: Seq<AccountAmount>, owner: Address, token: Address) -> bool {
    exists|i: int| 0 <= i < s.len() && (#[trigger] s[i]).owner == owner && s[i].token == token
}

/// `n` is the canonical normal form of `s`: sorted with unique keys, carrying
/// exactly the keys of `s`, each with the summed amount of that key in `s`.
pub open spec fn normal_form_of(n: Seq<AccountAmount>, s: Seq<AccountAmount>) -> bool {
    &&& legs_sorted(n)
    &&& forall|o: Address, t: Address|
        #![trigger has_key(n, o, t)]
        #![trigger has_key(s, o, t)]
        has_key(n, o, t) <==> has_key(s, o, t)
    &&& forall|o: Address, t: Address| #[trigger] totals(n, o, t) == totals(s, o, t)
    &&& forall|i: int|
        0 <= i < n.len() ==> (#[trigger] n[i]).amount as int == totals(s, n[i].owner, n[i].token)
}

/// In a canonically sorted sequence the total of a key is the amount of its
/// one entry.
pub proof fn lemma_sorted_totals_entry(n: Seq<AccountAmount>, i: int)
    requires
        legs_sorted(n),
        0 <= i < n.len(),
    ensures
        totals(n, n[i].owner, n[i].token) == n[i].amount as int,
{
    let f = leg_measure(n[i].owner, n[i].token);
    assert forall|j: int| 0 <= j < n.len() && j != i implies f(n[j]) == 0 by {
        if j < i {
            lemma_key_order(n[j], n[i], n[i]);
        } else {
            lemma_key_order(n[i], n[j], n[j]);
        }
    }
    lemma_seq_sum_singleton(n, f, i);
}

/// In a canonically sorted sequence, the legs before position `i` carry
/// nothing for the key of the leg at `i`.
pub proof fn lemma_sorted_prefix_totals_zero(s: Seq<AccountAmount>, i: int)
    requires
        legs_sorted(s),
        0 <= i < s.len(),
    ensures
        totals(s.take(i), s[i].owner, s[i].token) == 0,
{
    let f = leg_measure(s[i].owner, s[i].token);
    assert forall|k: int| 0 <= k < s.take(i).len() implies f(s.take(i)[k]) == 0 by {
        assert(s.take(i)[k] == s[k]);
        lemma_key_order(s[k], s[i], s[i]);
    }
    lemma_seq_sum_zero(s.take(i), f);
}

/// A key that no leg of `s` carries totals zero.
pub proof fn lemma_absent_totals_zero(s: Seq<AccountAmount>, o: Address, t: Address)
    requires
        !has_key(s, o, t),
    ensures
        totals(s, o, t) == 0,
{
    let f = leg_measure(o, t);
    assert forall|j: int| 0 <= j < s.len() implies f(s[j]) == 0 by {
        assert(!(s[j].owner == o && s[j].token == t));
    }
    lemma_seq_sum_zero(s, f);
}

/// Every leg measure is non-negative.
pub proof fn lemma_leg_measure_nonneg(o: Address, t: Address)
    ensures
        forall|x: AccountAmount| #[trigger] leg_measure(o, t)(x) >= 0,
{
}

/// Insert a leg into a canonically sorted sequence, keeping it sorted with
/// unique keys; an entry with the same key is replaced.
pub fn upsert_leg_sorted(v: &mut Vec<AccountAmount>, leg: AccountAmount)
    requires
        legs_sorted(old(v)@),
    ensures
        legs_sorted(final(v)@),
        forall|o: Address, t: Address|
            #![trigger has_key(final(v)@, o, t)]
            #![trigger has_key(old(v)@, o, t)]
            has_key(final(v)@, o, t) <==> has_key(old(v)@, o, t) || (o == leg.owner && t
                == leg.token),
        forall|i: int|
            0 <= i < final(v)@.len() ==> (#[trigger] final(v)@[i]) == leg || old(v)@.contains(
                final(v)@[i],
            ),
{
    let ghost prev = v@;
    let mut j: usize = 0;
    while j < v.len() && key_lt_exec(&v[j], &leg)
        invariant
            j <= v.len(),
            v@ == prev,
            forall|k: int| 0 <= k < j ==> key_lt(#[trigger] v@[k], leg),
        decreases v.len() - j,
    {
        j += 1;
    }
    if j < v.len() && same_key_exec(&v[j], &leg) {
        v.set(j, leg);
        proof {
            let jj = j as int;
            assert(v@ == prev.update(jj, leg));
            assert forall|p: int, q: int| 0 <= p < q < v@.len() implies key_lt(
                #[trigger] v@[p],
                #[trigger] v@[q],
            ) by {
                lemma_key_order(prev[p], prev[q], prev[q]);
                if p == jj {
                    lemma_key_order(leg, prev[p], prev[q]);
                    lemma_key_order(prev[p], leg, prev[q]);
                }
                if q == jj {
                    lemma_key_order(prev[p], prev[q], leg);
                    lemma_key_order(prev[p], leg, prev[q]);
                }
            }
            assert forall|o: Address, t: Address|
                has_key(v@, o, t) <==> has_key(prev, o, t) || (o == leg.owner && t == leg.token)
                by {
                if has_key(v@, o, t) {
                    let k = choose|k: int|
                        0 <= k < v@.len() && (#[trigger] v@[k]).owner == o && v@[k].token == t;
                    if k != jj {
                        assert(prev[k].owner == o && prev[k].token == t);
                    } else {
                        assert(prev[jj].owner == o && prev[jj].token == t);
                    }
                }
                if has_key(prev, o, t) {
                    let k = choose|k: int|
                        0 <= k < prev.len() && (#[trigger] prev[k]).owner == o && prev[k].token
                            == t;
                    if k != jj {
                        assert(v@[k].owner == o && v@[k].token == t);
                    } else {
                        assert(v@[jj].owner == o && v@[jj].token == t);
                    }
                }
                if o == leg.owner && t == leg.token {
                    assert(v@[jj].owner == o && v@[jj].token == t);
                }
            }
            assert forall|i: int| 0 <= i < v@.len() implies (#[trigger] v@[i]) == leg
                || prev.contains(v@[i]) by {
                if i != jj {
                    assert(v@[i] == prev[i]);
                }
            }
        }
    } else {
        proof {
            if j < v.len() {
                lemma_key_order(prev[j as int], leg, leg);
                assert(key_lt(leg, prev[j as int]));
            }
        }
        v.insert(j, leg);
        proof {
            let jj = j as int;
            assert(v@ == prev.insert(jj, leg));
            assert forall|p: int, q: int| 0 <= p < q < v@.len() implies key_lt(
                #[trigger] v@[p],
                #[trigger] v@[q],
            ) by {
                let pe = if p < jj { prev[p] } else if p == jj { leg } else { prev[p - 1] };
                let qe = if q < jj { prev[q] } else if q == jj { leg } else { prev[q - 1] };
                assert(v@[p] == pe);
                assert(v@[q] == qe);
                if p == jj && q > jj {
                    if jj < q - 1 {
                        lemma_key_order(leg, prev[jj], prev[q - 1]);
                    }
                } else if p < jj && q > jj {
                    if jj == q - 1 {
                        lemma_key_order(prev[p], leg, prev[q - 1]);
                    } else {
                        lemma_key_order(leg, prev[jj], prev[q - 1]);
                        lemma_key_order(prev[p], leg, prev[q - 1]);
                    }
                }
            }
            assert forall|o: Address, t: Address|
                has_key(v@, o, t) <==> has_key(prev, o, t) || (o == leg.owner && t == leg.token)
                by {
                if has_key(v@, o, t) {
                    let k = choose|k: int|
                        0 <= k < v@.len() && (#[trigger] v@[k]).owner == o && v@[k].token == t;
                    if k != jj {
                        let m = if k < jj { k } else { k - 1 };
                        assert(prev[m].owner == o && prev[m].token == t);
                    }
                }
                if has_key(prev, o, t) {
                    let m = choose|m: int|
                        0 <= m < prev.len() && (#[trigger] prev[m]).owner == o && prev[m].token
                            == t;
                    let w = if m < jj { m } else { m + 1 };
                    assert(v@[w].owner == o && v@[w].token == t);
                }
                if o == leg.owner && t == leg.token {
                    assert(v@[jj].owner == o && v@[jj].token == t);
                }
            }
            assert forall|i: int| 0 <= i < v@.len() implies (#[trigger] v@[i]) == leg
                || prev.contains(v@[i]) by {
                if i != jj {
                    let m = if i < jj { i } else { i - 1 };
                    assert(v@[i] == prev[m]);
                    assert(prev.contains(prev[m]));
                }
            }
        }
    }
}

/// Bring a sequence of legs into canonical normal form: sort by account then
/// token and sum the amounts of equal keys.  Fails with `Overflow` exactly
/// when some key's summed amount does not fit the amount type.
pub fn normalize_legs(legs: &Vec<AccountAmount>) -> (r: Result<
    Vec<AccountAmount>,
    TransferError,
>)
    ensures
        match r {
            Ok(out) => {
                &&& normal_form_of(out@, legs@)
                &&& forall|t: Address| #[trigger] token_total(out@, t) == token_total(legs@, t)
                &&& forall|o: Address, t: Address| #[trigger] totals(legs@, o, t) <= u128::MAX
            },
            Err(e) => {
                &&& e == TransferError::Overflow
                &&& exists|o: Address, t: Address| #[trigger] totals(legs@, o, t) > u128::MAX
            },
        },
{
    let mut out: Vec<AccountAmount> = Vec::new();
    let mut i: usize = 0;
    while i < legs.len()
        invariant
            i <= legs.len(),
            legs_sorted(out@),
            forall|o: Address, t: Address| #[trigger]
                totals(out@, o, t) == totals(legs@.take(i as int), o, t),
            forall|o: Address, t: Address|
                #![trigger has_key(out@, o, t)]
                #![trigger has_key(legs@.take(i as int), o, t)]
                has_key(out@, o, t) <==> has_key(legs@.take(i as int), o, t),
            forall|t: Address| #[trigger]
                token_total(out@, t) == token_total(legs@.take(i as int), t),
        decreases legs.len() - i,
    {
        let ghost prev = out@;
        let ghost prefix = legs@.take(i as int);
        let leg = legs[i];
        proof {
            assert(legs@.take(i as int + 1).drop_last() =~= prefix);
            assert(legs@.take(i as int + 1).last() == legs@[i as int]);
        }
        let mut j: usize = 0;
        while j < out.len() && key_lt_exec(&out[j], &leg)
            invariant
                j <= out.len(),
                out@ == prev,
                forall|k: int| 0 <= k < j ==> key_lt(#[trigger] out@[k], leg),
            decreases out.len() - j,
        {
            j += 1;
        }
        if j < out.len() && same_key_exec(&out[j], &leg) {
            let cur = out[j].amount;
            if leg.amount > u128::MAX - cur {
                proof {
                    let o = leg.owner;
                    let t = leg.token;
                    lemma_sorted_totals_entry(prev, j as int);
                    assert(totals(prefix, o, t) == cur as int);
                    lemma_seq_sum_take_succ(legs@, leg_measure(o, t), i as int);
                    assert(totals(legs@.take(i as int + 1), o, t) == cur as int
                        + leg.amount as int);
                    lemma_leg_measure_nonneg(o, t);
                    lemma_seq_sum_take_bound(legs@, leg_measure(o, t), i as int + 1);
                    assert(totals(legs@, o, t) > u128::MAX);
                }
                return Err(TransferError::Overflow);
            }
            let updated = AccountAmount { owner: out[j].owner, token: out[j].token, amount: cur
                + leg.amount };
            out.set(j, updated);
            proof {
                assert(out@ == prev.update(j as int, updated));
                assert forall|p: int, q: int| 0 <= p < q < out@.len() implies key_lt(
                    #[trigger] out@[p],
                    #[trigger] out@[q],
                ) by {
                    lemma_key_order(prev[p], prev[q], prev[q]);
                }
                assert forall|o: Address, t: Address| #[trigger]
                    totals(out@, o, t) == totals(legs@.take(i as int + 1), o, t) by {
                    lemma_seq_sum_update(prev, leg_measure(o, t), j as int, updated);
                    lemma_seq_sum_take_succ(legs@, leg_measure(o, t), i as int);
                    assert(totals(prev, o, t) == totals(prefix, o, t));
                    assert(leg_measure(o, t)(updated) - leg_measure(o, t)(prev[j as int])
                        == leg_measure(o, t)(leg));
                    assert(totals(out@, o, t) == totals(prev, o, t) + leg_measure(o, t)(leg));
                    assert(totals(legs@.take(i as int + 1), o, t) == totals(prefix, o, t)
                        + leg_measure(o, t)(legs@[i as int]));
                }
                assert forall|t: Address| #[trigger]
                    token_total(out@, t) == token_total(legs@.take(i as int + 1), t) by {
                    lemma_seq_sum_update(prev, token_measure(t), j as int, updated);
                    lemma_seq_sum_take_succ(legs@, token_measure(t), i as int);
                    assert(token_total(prev, t) == token_total(prefix, t));
                    assert(token_measure(t)(updated) - token_measure(t)(prev[j as int])
                        == token_measure(t)(leg));
                    assert(token_total(out@, t) == token_total(prev, t) + token_measure(t)(leg));
                    assert(token_total(legs@.take(i as int + 1), t) == token_total(prefix, t)
                        + token_measure(t)(legs@[i as int]));
                }
                assert forall|o: Address, t: Address|
                    has_key(out@, o, t) <==> has_key(legs@.take(i as int + 1), o, t) by {
                    if has_key(out@, o, t) {
                        let k = choose|k: int|
                            0 <= k < out@.len() && (#[trigger] out@[k]).owner == o
                                && out@[k].token == t;
                        assert(prev[k].owner == o && prev[k].token == t);
                        assert(has_key(prefix, o, t));
                        let m = choose|m: int|
                            0 <= m < prefix.len() && (#[trigger] prefix[m]).owner == o
                                && prefix[m].token == t;
                        assert(legs@.take(i as int + 1)[m].owner == o);
                    }
                    if has_key(legs@.take(i as int + 1), o, t) {
                        let k = choose|k: int|
                            0 <= k < legs@.take(i as int + 1).len() && (#[trigger] legs@.take(
                                i as int + 1,
                            )[k]).owner == o && legs@.take(i as int + 1)[k].token == t;
                        if k < i as int {
                            assert(prefix[k].owner == o && prefix[k].token == t);
                            assert(has_key(prefix, o, t));
                            let m = choose|m: int|
                                0 <= m < prev.len() && (#[trigger] prev[m]).owner == o
                                    && prev[m].token == t;
                            assert(out@[m].owner == o && out@[m].token == t);
                        } else {
                            assert(out@[j as int].owner == o && out@[j as int].token == t);
                        }
                    }
                }
            }
        } else {
            proof {
                if j < out.len() {
                    lemma_key_order(prev[j as int], leg, leg);
                    assert(key_lt(leg, prev[j as int]));
                }
            }
            out.insert(j, leg);
            proof {
                assert(out@ == prev.insert(j as int, leg));
                assert forall|p: int, q: int| 0 <= p < q < out@.len() implies key_lt(
                    #[trigger] out@[p],
                    #[trigger] out@[q],
                ) by {
                    let jj = j as int;
                    let pe = if p < jj { prev[p] } else if p == jj { leg } else { prev[p - 1] };
                    let qe = if q < jj { prev[q] } else if q == jj { leg } else { prev[q - 1] };
                    assert(out@[p] == pe);
                    assert(out@[q] == qe);
                    if p == jj && q > jj {
                        if jj < q - 1 {
                            lemma_key_order(leg, prev[jj], prev[q - 1]);
                        }
                    } else if p < jj && q > jj {
                        if jj == q - 1 {
                            lemma_key_order(prev[p], leg, prev[q - 1]);
                        } else {
                            lemma_key_order(leg, prev[jj], prev[q - 1]);
                            lemma_key_order(prev[p], leg, prev[q - 1]);
                        }
                    }
                }
                assert forall|o: Address, t: Address| #[trigger]
                    totals(out@, o, t) == totals(legs@.take(i as int + 1), o, t) by {
                    lemma_seq_sum_insert(prev, leg_measure(o, t), j as int, leg);
                    lemma_seq_sum_take_succ(legs@, leg_measure(o, t), i as int);
                    assert(totals(prev, o, t) == totals(prefix, o, t));
                    assert(totals(out@, o, t) == totals(prev, o, t) + leg_measure(o, t)(leg));
                    assert(totals(legs@.take(i as int + 1), o, t) == totals(prefix, o, t)
                        + leg_measure(o, t)(legs@[i as int]));
                }
                assert forall|t: Address| #[trigger]
                    token_total(out@, t) == token_total(legs@.take(i as int + 1), t) by {
                    lemma_seq_sum_insert(prev, token_measure(t), j as int, leg);
                    lemma_seq_sum_take_succ(legs@, token_measure(t), i as int);
                    assert(token_total(prev, t) == token_total(prefix, t));
                    assert(token_total(out@, t) == token_total(prev, t) + token_measure(t)(leg));
                    assert(token_total(legs@.take(i as int + 1), t) == token_total(prefix, t)
                        + token_measure(t)(legs@[i as int]));
                }
                assert forall|o: Address, t: Address|
                    has_key(out@, o, t) <==> has_key(legs@.take(i as int + 1), o, t) by {
                    let jj = j as int;
                    if has_key(out@, o, t) {
                        let k = choose|k: int|
                            0 <= k < out@.len() && (#[trigger] out@[k]).owner == o
                                && out@[k].token == t;
                        if k == jj {
                            assert(legs@.take(i as int + 1)[i as int].owner == o);
                        } else {
                            let m = if k < jj { k } else { k - 1 };
                            assert(prev[m].owner == o && prev[m].token == t);
                            assert(has_key(prefix, o, t));
                            let w = choose|w: int|
                                0 <= w < prefix.len() && (#[trigger] prefix[w]).owner == o
                                    && prefix[w].token == t;
                            assert(legs@.take(i as int + 1)[w].owner == o);
                        }
                    }
                    if has_key(legs@.take(i as int + 1), o, t) {
                        let k = choose|k: int|
                            0 <= k < legs@.take(i as int + 1).len() && (#[trigger] legs@.take(
                                i as int + 1,
                            )[k]).owner == o && legs@.take(i as int + 1)[k].token == t;
                        if k < i as int {
                            assert(prefix[k].owner == o && prefix[k].token == t);
                            assert(has_key(prefix, o, t));
                            let m = choose|m: int|
                                0 <= m < prev.len() && (#[trigger] prev[m]).owner == o
                                    && prev[m].token == t;
                            let w = if m < jj { m } else { m + 1 };
                            assert(out@[w].owner == o && out@[w].token == t);
                        } else {
                            assert(out@[jj].owner == o && out@[jj].token == t);
                        }
                    }
                }
            }
        }
        i += 1;
    }
    proof {
        assert(legs@.take(i as int) =~= legs@);
        assert forall|k: int| 0 <= k < out@.len() implies (#[trigger] out@[k]).amount as int
            == totals(legs@, out@[k].owner, out@[k].token) by {
            lemma_sorted_totals_entry(out@, k);
        }
        assert forall|o: Address, t: Address| #[trigger] totals(legs@, o, t) <= u128::MAX by {
            if has_key(out@, o, t) {
                let k = choose|k: int|
                    0 <= k < out@.len() && (#[trigger] out@[k]).owner == o && out@[k].token == t;
                lemma_sorted_totals_entry(out@, k);
            } else {
                lemma_absent_totals_zero(out@, o, t);
            }
        }
    }
    Ok(out)
}

} // verus!
