//! System-wide laws, each proved against the public contracts: balance
//! conservation, verifier completeness and idempotence, authorization
//! reconciliation in both directions, and determinism of a whole transfer
//! application under reordering of the supplied legs.

use vstd::prelude::*;
use crate::addr::{Address, TAddr, addr_lt, addrs_sorted, lemma_addr_order, lemma_taddr_injective, spec_addr_taddr};
use crate::ctx::{Ctx, spec_insert_verifier};
use crate::error::{Stage, TransferError};
use crate::event::{event_equiv, events_equiv, op_equiv, TokenOperation};
use crate::ledger::Ledger;
use crate::legs::{
    AccountAmount, has_key, key_lt, leg_measure, legs_sorted, lemma_key_order, normal_form_of,
    same_key, token_measure, token_total, totals,
};
use crate::shielded::{find_section, MaspTxId, ShieldedPayload, vin_addresses};
use crate::sums::{lemma_multiset_contains, lemma_seq_sum_multiset};
use crate::token::{
    auth_filter, credit_over, debits_account, lacks_funds, multi_post, register_leg,
    register_legs, shielded_err, shielded_ok, sum_overflow, transparent_err, transparent_ok,
    vin_member,
};

verus! {

// --- Verifier registration -------------------------------------------------

/// Registering an address puts it in the registry.
pub proof fn lemma_insert_verifier_adds(vs: Seq<Address>, a: Address)
    ensures
        spec_insert_verifier(vs, a).contains(a),
        forall|x: Address| vs.contains(x) ==> #[trigger] spec_insert_verifier(vs, a).contains(x),
{
    if !vs.contains(a) {
        assert(vs.push(a)[vs.len() as int] == a);
        assert forall|x: Address| vs.contains(x) implies #[trigger] spec_insert_verifier(
            vs,
            a,
        ).contains(x) by {
            let i = choose|i: int| 0 <= i < vs.len() && vs[i] == x;
            assert(vs.push(a)[i] == x);
        }
    }
}

/// Registering the same verifier address twice within one transaction leaves
/// the registry exactly as after the first registration, holding the address
/// once.
pub proof fn lemma_verifier_insert_idempotent(vs: Seq<Address>, a: Address)
    requires
        vs.no_duplicates(),
    ensures
        spec_insert_verifier(spec_insert_verifier(vs, a), a) == spec_insert_verifier(vs, a),
        spec_insert_verifier(vs, a).contains(a),
        spec_insert_verifier(vs, a).no_duplicates(),
{
    lemma_insert_verifier_adds(vs, a);
    if !vs.contains(a) {
        assert forall|i: int, j: int|
            0 <= i < j < vs.push(a).len() implies vs.push(a)[i] != vs.push(a)[j] by {
            if j < vs.len() {
            } else {
                assert(vs.push(a)[j] == a);
                if vs.push(a)[i] == a {
                    assert(vs.contains(a));
                }
            }
        }
    }
}

/// Registering a leg's parties keeps every registered address.
proof fn lemma_register_leg_mono(vs: Seq<Address>, leg: AccountAmount, x: Address)
    ensures
        vs.contains(x) ==> register_leg(vs, leg).contains(x),
        register_leg(vs, leg).contains(leg.owner),
        leg.token.internal ==> register_leg(vs, leg).contains(leg.token),
{
    lemma_insert_verifier_adds(vs, leg.owner);
    lemma_insert_verifier_adds(spec_insert_verifier(vs, leg.owner), leg.token);
}

/// Registering a run of legs keeps every registered address.
proof fn lemma_register_legs_mono(vs: Seq<Address>, legs: Seq<AccountAmount>, x: Address)
    ensures
        vs.contains(x) ==> register_legs(vs, legs).contains(x),
    decreases legs.len(),
{
    if legs.len() > 0 {
        lemma_register_leg_mono(vs, legs.first(), x);
        lemma_register_legs_mono(register_leg(vs, legs.first()), legs.drop_first(), x);
    }
}

/// After registering a run of legs, every leg's account is registered, and
/// every internal token of a leg as well.
proof fn lemma_register_legs_contains(vs: Seq<Address>, legs: Seq<AccountAmount>, i: int)
    requires
        0 <= i < legs.len(),
    ensures
        register_legs(vs, legs).contains(legs[i].owner),
        legs[i].token.internal ==> register_legs(vs, legs).contains(legs[i].token),
    decreases legs.len(),
{
    if i == 0 {
        lemma_register_leg_mono(vs, legs.first(), legs.first().owner);
        lemma_register_legs_mono(
            register_leg(vs, legs.first()),
            legs.drop_first(),
            legs.first().owner,
        );
        lemma_register_legs_mono(
            register_leg(vs, legs.first()),
            legs.drop_first(),
            legs.first().token,
        );
    } else {
        lemma_register_legs_contains(register_leg(vs, legs.first()), legs.drop_first(), i - 1);
        assert(legs.drop_first()[i - 1] == legs[i]);
    }
}

/// Verifier completeness: after a successful transparent application, every
/// account appearing as a source or target is in the registry, every
/// internal token involved is in the registry, and every address registered
/// before is still there.
pub proof fn lemma_verifier_completeness(
    pre: Ctx,
    sources: Seq<AccountAmount>,
    targets: Seq<AccountAmount>,
    post: Ctx,
    debited: Seq<Address>,
)
    requires
        transparent_ok(pre, sources, targets, post, debited),
    ensures
        forall|i: int|
            0 <= i < sources.len() ==> post.verifiers@.contains(
                (#[trigger] sources[i]).owner,
            ) && (sources[i].token.internal ==> post.verifiers@.contains(sources[i].token)),
        forall|i: int|
            0 <= i < targets.len() ==> post.verifiers@.contains(
                (#[trigger] targets[i]).owner,
            ) && (targets[i].token.internal ==> post.verifiers@.contains(targets[i].token)),
        forall|x: Address| pre.verifiers@.contains(x) ==> post.verifiers@.contains(x),
{
    let ev = post.events@.last();
    match ev.operation {
        TokenOperation::MultiTransfer { sources: es, targets: et, post_balances: pb } => {
            let vs1 = register_legs(pre.verifiers@, es@);
            assert forall|i: int| 0 <= i < sources.len() implies post.verifiers@.contains(
                (#[trigger] sources[i]).owner,
            ) && (sources[i].token.internal ==> post.verifiers@.contains(sources[i].token)) by {
                assert(has_key(sources, sources[i].owner, sources[i].token));
                assert(has_key(es@, sources[i].owner, sources[i].token));
                let k = choose|k: int|
                    0 <= k < es@.len() && (#[trigger] es@[k]).owner == sources[i].owner
                        && es@[k].token == sources[i].token;
                lemma_register_legs_contains(pre.verifiers@, es@, k);
                lemma_register_legs_mono(vs1, et@, sources[i].owner);
                lemma_register_legs_mono(vs1, et@, sources[i].token);
            }
            assert forall|i: int| 0 <= i < targets.len() implies post.verifiers@.contains(
                (#[trigger] targets[i]).owner,
            ) && (targets[i].token.internal ==> post.verifiers@.contains(targets[i].token)) by {
                assert(has_key(targets, targets[i].owner, targets[i].token));
                assert(has_key(et@, targets[i].owner, targets[i].token));
                let k = choose|k: int|
                    0 <= k < et@.len() && (#[trigger] et@[k]).owner == targets[i].owner
                        && et@[k].token == targets[i].token;
                lemma_register_legs_contains(vs1, et@, k);
            }
            assert forall|x: Address| pre.verifiers@.contains(x) implies post.verifiers@.contains(
                x,
            ) by {
                lemma_register_legs_mono(pre.verifiers@, es@, x);
                lemma_register_legs_mono(vs1, et@, x);
            }
        },
        _ => {
            assert(false);
        },
    }
}

// --- Balance conservation --------------------------------------------------

/// Balance conservation: a successful transparent application changes each
/// token's total supply by exactly the credited minus the debited amount;
/// when a token's credits equal its debits, its supply is unchanged.  Each
/// touched balance is exactly its old value minus what the account funds
/// plus what it receives.
pub proof fn lemma_balance_conservation(
    pre: Ctx,
    sources: Seq<AccountAmount>,
    targets: Seq<AccountAmount>,
    post: Ctx,
    debited: Seq<Address>,
    token: Address,
)
    requires
        transparent_ok(pre, sources, targets, post, debited),
    ensures
        post.ledger.supply(token) == pre.ledger.supply(token) + token_total(targets, token)
            - token_total(sources, token),
        token_total(sources, token) == token_total(targets, token)
            ==> post.ledger.supply(token) == pre.ledger.supply(token),
        forall|o: Address| #[trigger]
            post.ledger.bal(token, o) == pre.ledger.bal(token, o) - totals(sources, o, token)
                + totals(targets, o, token),
{
}

// --- Authorization reconciliation ------------------------------------------

/// A filter that keeps every element returns the sequence unchanged.
proof fn lemma_filter_all(s: Seq<Address>, p: spec_fn(Address) -> bool)
    requires
        forall|i: int| 0 <= i < s.len() ==> p(#[trigger] s[i]),
    ensures
        s.filter(p) == s,
    decreases s.len(),
{
    reveal(Seq::filter);
    if s.len() > 0 {
        lemma_filter_all(s.drop_last(), p);
        assert(s.filter(p) =~= s.drop_last().push(s.last()));
        assert(s.drop_last().push(s.last()) =~= s);
    }
}

/// Every element of a filtered sequence is an element of the unfiltered one.
proof fn lemma_filter_subset(s: Seq<Address>, p: spec_fn(Address) -> bool, i: int)
    requires
        0 <= i < s.filter(p).len(),
    ensures
        s.contains(s.filter(p)[i]),
    decreases s.len(),
{
    reveal(Seq::filter);
    if s.len() > 0 {
        let sub = s.drop_last().filter(p);
        if i < sub.len() {
            lemma_filter_subset(s.drop_last(), p, i);
            let w = choose|w: int| 0 <= w < s.drop_last().len() && s.drop_last()[w] == sub[i];
            assert(s[w] == sub[i]);
        } else {
            assert(s.filter(p)[i] == s.last());
            assert(s[s.len() - 1] == s.last());
        }
    }
}

/// Filtering a canonically sorted address set keeps it sorted.
proof fn lemma_filter_sorted(s: Seq<Address>, p: spec_fn(Address) -> bool)
    requires
        addrs_sorted(s),
    ensures
        addrs_sorted(s.filter(p)),
    decreases s.len(),
{
    reveal(Seq::filter);
    if s.len() > 0 {
        assert(addrs_sorted(s.drop_last())) by {
            assert(forall|i: int| 0 <= i < s.drop_last().len() ==> s.drop_last()[i] == s[i]);
        }
        lemma_filter_sorted(s.drop_last(), p);
        let sub = s.drop_last().filter(p);
        if p(s.last()) {
            assert forall|i: int, j: int| 0 <= i < j < s.filter(p).len() implies addr_lt(
                #[trigger] s.filter(p)[i],
                #[trigger] s.filter(p)[j],
            ) by {
                if j < sub.len() {
                } else {
                    assert(s.filter(p)[j] == s.last());
                    lemma_filter_subset(s.drop_last(), p, i);
                    let w = choose|w: int|
                        0 <= w < s.drop_last().len() && s.drop_last()[w] == sub[i];
                    assert(s[w] == s.filter(p)[i]);
                }
            }
        }
    }
}

/// The transparent-pool image of a canonically sorted address set has as
/// many elements as the set: the derivation is injective.
proof fn lemma_taddr_image_card(s: Seq<Address>)
    requires
        addrs_sorted(s),
    ensures
        s.map_values(|a: Address| spec_addr_taddr(a)).to_set().finite(),
        s.map_values(|a: Address| spec_addr_taddr(a)).to_set().len() == s.len(),
    decreases s.len(),
{
    broadcast use vstd::set::group_set_axioms, vstd::seq_lib::seq_to_set_is_finite;

    let f = |a: Address| spec_addr_taddr(a);
    if s.len() == 0 {
        assert(s.map_values(f).to_set() =~= Set::<TAddr>::empty());
        broadcast use vstd::set::axiom_set_empty_len;

    } else {
        let butlast = s.drop_last();
        assert(addrs_sorted(butlast)) by {
            assert(forall|i: int| 0 <= i < butlast.len() ==> butlast[i] == s[i]);
        }
        lemma_taddr_image_card(butlast);
        assert(s.map_values(f).to_set() =~= butlast.map_values(f).to_set().insert(f(s.last())))
            by {
            assert forall|y: TAddr| #[trigger]
                s.map_values(f).contains(y) <==> butlast.map_values(f).contains(y) || y == f(
                    s.last(),
                ) by {
                if s.map_values(f).contains(y) {
                    let w = choose|w: int|
                        0 <= w < s.map_values(f).len() && (#[trigger] s.map_values(f)[w]) == y;
                    if w < s.len() - 1 {
                        assert(butlast.map_values(f)[w] == y);
                    }
                }
                if butlast.map_values(f).contains(y) {
                    let w = choose|w: int|
                        0 <= w < butlast.map_values(f).len() && (#[trigger] butlast.map_values(
                            f,
                        )[w]) == y;
                    assert(s.map_values(f)[w] == y);
                }
                if y == f(s.last()) {
                    assert(s.map_values(f)[s.len() - 1] == y);
                }
            }
        }
        assert(!butlast.map_values(f).to_set().contains(f(s.last()))) by {
            if butlast.map_values(f).to_set().contains(f(s.last())) {
                let w = choose|w: int|
                    0 <= w < butlast.map_values(f).len() && (#[trigger] butlast.map_values(f)[w])
                        == f(s.last());
                lemma_taddr_injective(butlast[w], s.last());
                assert(butlast[w] == s.last());
                lemma_addr_order(s[w], s[s.len() - 1], s.last());
            }
        }
    }
}

/// Authorization reconciliation, positive: when the payload's deduplicated
/// vin addresses are exactly the pool image of the debited accounts, every
/// debited account is reconciled and the authorizer count matches the vin
/// count — the mismatch failure cannot arise, and one authorizer stands for
/// each debited account.
pub proof fn lemma_authorization_complete(debited: Seq<Address>, vins: Seq<TAddr>)
    requires
        addrs_sorted(debited),
        vins.to_set() == debited.map_values(|a: Address| spec_addr_taddr(a)).to_set(),
    ensures
        auth_filter(debited, vins.to_set()) == debited,
        auth_filter(debited, vins.to_set()).len() == vins.to_set().len(),
{
    broadcast use vstd::set::group_set_axioms, vstd::seq_lib::seq_to_set_is_finite;

    let f = |a: Address| spec_addr_taddr(a);
    let p = vin_member(vins.to_set());
    assert forall|i: int| 0 <= i < debited.len() implies p(#[trigger] debited[i]) by {
        assert(debited.map_values(f)[i] == f(debited[i]));
        assert(debited.map_values(f).contains(f(debited[i])));
    }
    lemma_filter_all(debited, p);
    lemma_taddr_image_card(debited);
}

/// Authorization reconciliation, negative: when the payload claims a vin
/// address whose account was never transparently debited, the authorizer
/// count falls short of the vin count — the application must fail with the
/// mismatch error, and no authorizer action is recorded.
pub proof fn lemma_authorization_mismatch(debited: Seq<Address>, vins: Seq<TAddr>, v: TAddr)
    requires
        addrs_sorted(debited),
        vins.to_set().contains(v),
        forall|a: Address| debited.contains(a) ==> spec_addr_taddr(a) != v,
    ensures
        auth_filter(debited, vins.to_set()).len() < vins.to_set().len(),
{
    broadcast use vstd::set::group_set_axioms, vstd::seq_lib::seq_to_set_is_finite;

    let f = |a: Address| spec_addr_taddr(a);
    let p = vin_member(vins.to_set());
    let auth = auth_filter(debited, vins.to_set());
    lemma_filter_sorted(debited, p);
    lemma_taddr_image_card(auth);
    let image = auth.map_values(f).to_set();
    assert(image.subset_of(vins.to_set().remove(v))) by {
        assert forall|y: TAddr| image.contains(y) implies vins.to_set().remove(v).contains(y) by {
            let w = choose|w: int|
                0 <= w < auth.map_values(f).len() && (#[trigger] auth.map_values(f)[w]) == y;
            assert(f(auth[w]) == y);
            lemma_filter_subset(debited, p, w);
            assert(debited.contains(auth[w]));
            assert(spec_addr_taddr(auth[w]) != v);
            assert(p(auth[w])) by {
                debited.lemma_filter_pred(p, w);
            }
        }
    }
    assert(vins.to_set().remove(v).len() == vins.to_set().len() - 1);
    vstd::set_lib::lemma_len_subset(image, vins.to_set().remove(v));
}

/// Authorization reconciliation, positive, at the applier's contract: when
/// the resolved payload is accepted, its commitments fit the tree, and its
/// vin addresses are exactly the pool image of the debited accounts, no
/// failure is possible — the applier must return success, recording one
/// authorizer action per debited account.
pub proof fn lemma_reconciliation_forces_success(
    pre: Ctx,
    h: MaspTxId,
    debited: Seq<Address>,
    sections: Seq<ShieldedPayload>,
    post: Ctx,
    e: TransferError,
)
    requires
        addrs_sorted(debited),
        match find_section(sections, h) {
            Option::Some(p) => {
                &&& p.proofs_valid
                &&& pre.tree.commitments@.len() + p.commitments@.len() <= pre.tree.capacity
                &&& vin_addresses(p).to_set() == debited.map_values(
                    |a: Address| spec_addr_taddr(a),
                ).to_set()
            },
            Option::None => false,
        },
    ensures
        !shielded_err(pre, h, debited, sections, post, e),
        shielded_ok(pre, h, debited, sections, post) ==> post.actions@ == pre.actions@.push(
            crate::ctx::Action::ShieldedSectionReferenced(h),
        ) + crate::token::auth_actions(debited),
{
    match find_section(sections, h) {
        Option::Some(p) => {
            let vins = match p.transparent_bundle {
                Option::Some(b) => b.vin@,
                Option::None => Seq::<TAddr>::empty(),
            };
            assert(vins == vin_addresses(p));
            lemma_authorization_complete(debited, vins);
        },
        Option::None => {},
    }
}

/// Authorization reconciliation, negative, at the applier's contract: when
/// the resolved payload claims a vin address that is not the pool image of
/// any debited account, the application cannot succeed; by the applier's
/// contract the failure is the authorization mismatch, with no authorizer
/// action recorded.
pub proof fn lemma_unbacked_vin_forces_mismatch(
    pre: Ctx,
    h: MaspTxId,
    debited: Seq<Address>,
    sections: Seq<ShieldedPayload>,
    post: Ctx,
    v: TAddr,
)
    requires
        addrs_sorted(debited),
        match find_section(sections, h) {
            Option::Some(p) => {
                &&& vin_addresses(p).to_set().contains(v)
                &&& forall|a: Address| debited.contains(a) ==> spec_addr_taddr(a) != v
            },
            Option::None => false,
        },
    ensures
        !shielded_ok(pre, h, debited, sections, post),
{
    match find_section(sections, h) {
        Option::Some(p) => {
            let vins = match p.transparent_bundle {
                Option::Some(b) => b.vin@,
                Option::None => Seq::<TAddr>::empty(),
            };
            assert(vins == vin_addresses(p));
            lemma_authorization_mismatch(debited, vins, v);
        },
        Option::None => {},
    }
}

// --- Determinism ------------------------------------------------------------

/// Two contexts carry the same observable state: equal balances and
/// supplies, equal registries and logs, equivalent events, equal trees and
/// sentinels.
pub open spec fn ctx_equiv(a: Ctx, b: Ctx) -> bool {
    &&& forall|t: Address, o: Address| #[trigger] a.ledger.bal(t, o) == b.ledger.bal(t, o)
    &&& forall|t: Address| #[trigger] a.ledger.supply(t) == b.ledger.supply(t)
    &&& a.verifiers@ == b.verifiers@
    &&& a.actions@ == b.actions@
    &&& events_equiv(a.events@, b.events@)
    &&& a.tree.commitments@ == b.tree.commitments@
    &&& a.tree.capacity == b.tree.capacity
    &&& a.commitment_sentinel == b.commitment_sentinel
}

/// Context equivalence is reflexive.
proof fn lemma_ctx_equiv_refl(a: Ctx)
    ensures
        ctx_equiv(a, a),
{
    assert forall|i: int| 0 <= i < a.events@.len() implies event_equiv(
        #[trigger] a.events@[i],
        a.events@[i],
    ) by {
        match a.events@[i].operation {
            TokenOperation::SingleTransfer { .. } => {},
            TokenOperation::MultiTransfer { .. } => {},
        }
    }
}

/// Key presence is invariant under reordering of the legs.
proof fn lemma_has_key_multiset(s1: Seq<AccountAmount>, s2: Seq<AccountAmount>)
    requires
        s1.to_multiset() == s2.to_multiset(),
    ensures
        forall|o: Address, t: Address|
            #![trigger has_key(s1, o, t)]
            #![trigger has_key(s2, o, t)]
            has_key(s1, o, t) <==> has_key(s2, o, t),
{
    assert forall|o: Address, t: Address|
        #![trigger has_key(s1, o, t)]
        #![trigger has_key(s2, o, t)]
        has_key(s1, o, t) <==> has_key(s2, o, t) by {
        if has_key(s1, o, t) {
            let i = choose|i: int|
                0 <= i < s1.len() && (#[trigger] s1[i]).owner == o && s1[i].token == t;
            lemma_multiset_contains(s1, s2, s1[i]);
            assert(s1.contains(s1[i]));
            let j = choose|j: int| 0 <= j < s2.len() && s2[j] == s1[i];
            assert(s2[j].owner == o);
        }
        if has_key(s2, o, t) {
            let i = choose|i: int|
                0 <= i < s2.len() && (#[trigger] s2[i]).owner == o && s2[i].token == t;
            lemma_multiset_contains(s1, s2, s2[i]);
            assert(s2.contains(s2[i]));
            let j = choose|j: int| 0 <= j < s1.len() && s1[j] == s2[i];
            assert(s1[j].owner == o);
        }
    }
}

/// All sums and failure conditions of a transparent application are
/// invariant under reordering of the legs.
proof fn lemma_conditions_multiset(
    l: Ledger,
    s1: Seq<AccountAmount>,
    t1: Seq<AccountAmount>,
    s2: Seq<AccountAmount>,
    t2: Seq<AccountAmount>,
)
    requires
        s1.to_multiset() == s2.to_multiset(),
        t1.to_multiset() == t2.to_multiset(),
    ensures
        forall|o: Address, t: Address| #[trigger] totals(s1, o, t) == totals(s2, o, t),
        forall|o: Address, t: Address| #[trigger] totals(t1, o, t) == totals(t2, o, t),
        forall|tk: Address| #[trigger] token_total(s1, tk) == token_total(s2, tk),
        forall|tk: Address| #[trigger] token_total(t1, tk) == token_total(t2, tk),
        forall|o: Address, t: Address|
            #![trigger has_key(s1, o, t)]
            #![trigger has_key(s2, o, t)]
            has_key(s1, o, t) <==> has_key(s2, o, t),
        forall|o: Address, t: Address|
            #![trigger has_key(t1, o, t)]
            #![trigger has_key(t2, o, t)]
            has_key(t1, o, t) <==> has_key(t2, o, t),
        sum_overflow(s1) == sum_overflow(s2),
        sum_overflow(t1) == sum_overflow(t2),
        lacks_funds(l, s1) == lacks_funds(l, s2),
        credit_over(l, s1, t1) == credit_over(l, s2, t2),
        forall|a: Address| #[trigger] debits_account(s1, t1, a) == debits_account(s2, t2, a),
{
    assert forall|o: Address, t: Address| #[trigger] totals(s1, o, t) == totals(s2, o, t) by {
        lemma_seq_sum_multiset(s1, s2, leg_measure(o, t));
    }
    assert forall|o: Address, t: Address| #[trigger] totals(t1, o, t) == totals(t2, o, t) by {
        lemma_seq_sum_multiset(t1, t2, leg_measure(o, t));
    }
    assert forall|tk: Address| #[trigger] token_total(s1, tk) == token_total(s2, tk) by {
        lemma_seq_sum_multiset(s1, s2, token_measure(tk));
    }
    assert forall|tk: Address| #[trigger] token_total(t1, tk) == token_total(t2, tk) by {
        lemma_seq_sum_multiset(t1, t2, token_measure(tk));
    }
    lemma_has_key_multiset(s1, s2);
    lemma_has_key_multiset(t1, t2);
    if lacks_funds(l, s1) {
        let i = choose|i: int|
            0 <= i < s1.len() && l.bal((#[trigger] s1[i]).token, s1[i].owner) < totals(
                s1,
                s1[i].owner,
                s1[i].token,
            );
        lemma_multiset_contains(s1, s2, s1[i]);
        let j = choose|j: int| 0 <= j < s2.len() && s2[j] == s1[i];
        assert(l.bal(s2[j].token, s2[j].owner) < totals(s2, s2[j].owner, s2[j].token));
        assert(lacks_funds(l, s2));
    }
    if lacks_funds(l, s2) {
        let i = choose|i: int|
            0 <= i < s2.len() && l.bal((#[trigger] s2[i]).token, s2[i].owner) < totals(
                s2,
                s2[i].owner,
                s2[i].token,
            );
        lemma_multiset_contains(s1, s2, s2[i]);
        let j = choose|j: int| 0 <= j < s1.len() && s1[j] == s2[i];
        assert(l.bal(s1[j].token, s1[j].owner) < totals(s1, s1[j].owner, s1[j].token));
        assert(lacks_funds(l, s1));
    }
    if credit_over(l, s1, t1) {
        let i = choose|i: int|
            0 <= i < t1.len() && l.bal((#[trigger] t1[i]).token, t1[i].owner) - totals(
                s1,
                t1[i].owner,
                t1[i].token,
            ) + totals(t1, t1[i].owner, t1[i].token) > u128::MAX;
        lemma_multiset_contains(t1, t2, t1[i]);
        let j = choose|j: int| 0 <= j < t2.len() && t2[j] == t1[i];
        assert(l.bal(t2[j].token, t2[j].owner) - totals(s2, t2[j].owner, t2[j].token) + totals(
            t2,
            t2[j].owner,
            t2[j].token,
        ) > u128::MAX);
        assert(credit_over(l, s2, t2));
    }
    if credit_over(l, s2, t2) {
        let i = choose|i: int|
            0 <= i < t2.len() && l.bal((#[trigger] t2[i]).token, t2[i].owner) - totals(
                s2,
                t2[i].owner,
                t2[i].token,
            ) + totals(t2, t2[i].owner, t2[i].token) > u128::MAX;
        lemma_multiset_contains(t1, t2, t2[i]);
        let j = choose|j: int| 0 <= j < t1.len() && t1[j] == t2[i];
        assert(l.bal(t1[j].token, t1[j].owner) - totals(s1, t1[j].owner, t1[j].token) + totals(
            t1,
            t1[j].owner,
            t1[j].token,
        ) > u128::MAX);
        assert(credit_over(l, s1, t1));
    }
    assert(sum_overflow(s1) == sum_overflow(s2)) by {
        if sum_overflow(s1) {
            let (o, t) = choose|o: Address, t: Address| #[trigger] totals(s1, o, t) > u128::MAX;
            assert(totals(s2, o, t) > u128::MAX);
        }
        if sum_overflow(s2) {
            let (o, t) = choose|o: Address, t: Address| #[trigger] totals(s2, o, t) > u128::MAX;
            assert(totals(s1, o, t) > u128::MAX);
        }
    }
    assert(sum_overflow(t1) == sum_overflow(t2)) by {
        if sum_overflow(t1) {
            let (o, t) = choose|o: Address, t: Address| #[trigger] totals(t1, o, t) > u128::MAX;
            assert(totals(t2, o, t) > u128::MAX);
        }
        if sum_overflow(t2) {
            let (o, t) = choose|o: Address, t: Address| #[trigger] totals(t2, o, t) > u128::MAX;
            assert(totals(t1, o, t) > u128::MAX);
        }
    }
    assert forall|a: Address| #[trigger]
        debits_account(s1, t1, a) == debits_account(s2, t2, a) by {
        if debits_account(s1, t1, a) {
            let i = choose|i: int|
                0 <= i < s1.len() && (#[trigger] s1[i]).owner == a && totals(s1, a, s1[i].token)
                    > totals(t1, a, s1[i].token);
            lemma_multiset_contains(s1, s2, s1[i]);
            let j = choose|j: int| 0 <= j < s2.len() && s2[j] == s1[i];
            assert(s2[j].owner == a && totals(s2, a, s2[j].token) > totals(t2, a, s2[j].token));
        }
        if debits_account(s2, t2, a) {
            let i = choose|i: int|
                0 <= i < s2.len() && (#[trigger] s2[i]).owner == a && totals(s2, a, s2[i].token)
                    > totals(t2, a, s2[i].token);
            lemma_multiset_contains(s1, s2, s2[i]);
            let j = choose|j: int| 0 <= j < s1.len() && s1[j] == s2[i];
            assert(s1[j].owner == a && totals(s1, a, s1[j].token) > totals(t1, a, s1[j].token));
        }
    }
}

/// Two canonically sorted address sets with the same members are equal.
proof fn lemma_sorted_addrs_unique(x: Seq<Address>, y: Seq<Address>)
    requires
        addrs_sorted(x),
        addrs_sorted(y),
        forall|a: Address|
            #![trigger x.contains(a)]
            #![trigger y.contains(a)]
            x.contains(a) <==> y.contains(a),
    ensures
        x == y,
    decreases x.len(),
{
    if x.len() == 0 {
        if y.len() > 0 {
            assert(y.contains(y[0]));
            assert(x.contains(y[0]));
        }
        assert(x =~= y);
    } else {
        assert(x.contains(x[0]));
        assert(y.contains(x[0]));
        let j = choose|j: int| 0 <= j < y.len() && y[j] == x[0];
        assert(y.contains(y[0]));
        assert(x.contains(y[0]));
        let i = choose|i: int| 0 <= i < x.len() && x[i] == y[0];
        assert(x[0] == y[0]) by {
            lemma_addr_order(x[0], y[0], x[0]);
            if addr_lt(x[0], y[0]) {
                if j > 0 {
                    assert(addr_lt(y[0], y[j]));
                    lemma_addr_order(x[0], y[0], y[j]);
                    lemma_addr_order(x[0], y[j], x[0]);
                }
            } else if addr_lt(y[0], x[0]) {
                if i > 0 {
                    assert(addr_lt(x[0], x[i]));
                    lemma_addr_order(y[0], x[0], x[i]);
                    lemma_addr_order(y[0], x[i], y[0]);
                }
            }
        }
        let xt = x.drop_first();
        let yt = y.drop_first();
        assert(addrs_sorted(xt)) by {
            assert(forall|k: int| 0 <= k < xt.len() ==> xt[k] == x[k + 1]);
        }
        assert(addrs_sorted(yt)) by {
            assert(forall|k: int| 0 <= k < yt.len() ==> yt[k] == y[k + 1]);
        }
        assert forall|a: Address|
            #![trigger xt.contains(a)]
            #![trigger yt.contains(a)]
            xt.contains(a) <==> yt.contains(a) by {
            if xt.contains(a) {
                let k = choose|k: int| 0 <= k < xt.len() && xt[k] == a;
                assert(x[k + 1] == a);
                assert(addr_lt(x[0], a));
                assert(x.contains(a));
                assert(y.contains(a));
                let m = choose|m: int| 0 <= m < y.len() && y[m] == a;
                lemma_addr_order(y[0], a, a);
                assert(m != 0);
                assert(yt[m - 1] == a);
            }
            if yt.contains(a) {
                let k = choose|k: int| 0 <= k < yt.len() && yt[k] == a;
                assert(y[k + 1] == a);
                assert(addr_lt(y[0], a));
                assert(y.contains(a));
                assert(x.contains(a));
                let m = choose|m: int| 0 <= m < x.len() && x[m] == a;
                lemma_addr_order(x[0], a, a);
                assert(m != 0);
                assert(xt[m - 1] == a);
            }
        }
        lemma_sorted_addrs_unique(xt, yt);
        assert(x =~= y) by {
            assert(x.len() == y.len());
            assert(forall|k: int| 1 <= k < x.len() ==> x[k] == xt[k - 1] && y[k] == yt[k - 1]);
        }
    }
}

/// Two canonically sorted leg sequences with the same keys, whose amounts
/// are both given by one function of the key, are equal.
proof fn lemma_sorted_legs_unique(
    x: Seq<AccountAmount>,
    y: Seq<AccountAmount>,
    f: spec_fn(Address, Address) -> int,
)
    requires
        legs_sorted(x),
        legs_sorted(y),
        forall|o: Address, t: Address|
            #![trigger has_key(x, o, t)]
            #![trigger has_key(y, o, t)]
            has_key(x, o, t) <==> has_key(y, o, t),
        forall|i: int| 0 <= i < x.len() ==> (#[trigger] x[i]).amount as int == f(
            x[i].owner,
            x[i].token,
        ),
        forall|i: int| 0 <= i < y.len() ==> (#[trigger] y[i]).amount as int == f(
            y[i].owner,
            y[i].token,
        ),
    ensures
        x == y,
    decreases x.len(),
{
    if x.len() == 0 {
        if y.len() > 0 {
            assert(has_key(y, y[0].owner, y[0].token));
            assert(has_key(x, y[0].owner, y[0].token));
        }
        assert(x =~= y);
    } else {
        assert(has_key(x, x[0].owner, x[0].token));
        assert(has_key(y, x[0].owner, x[0].token));
        let j = choose|j: int|
            0 <= j < y.len() && (#[trigger] y[j]).owner == x[0].owner && y[j].token == x[0].token;
        assert(has_key(y, y[0].owner, y[0].token));
        assert(has_key(x, y[0].owner, y[0].token));
        let i = choose|i: int|
            0 <= i < x.len() && (#[trigger] x[i]).owner == y[0].owner && x[i].token == y[0].token;
        assert(same_key(x[0], y[0])) by {
            lemma_key_order(x[0], y[0], x[0]);
            if key_lt(x[0], y[0]) {
                if j > 0 {
                    assert(key_lt(y[0], y[j]));
                    lemma_key_order(x[0], y[0], y[j]);
                    lemma_key_order(x[0], y[j], x[0]);
                    lemma_key_order(y[j], x[0], x[0]);
                } else {
                    lemma_key_order(x[0], y[0], y[0]);
                }
            } else if key_lt(y[0], x[0]) {
                if i > 0 {
                    assert(key_lt(x[0], x[i]));
                    lemma_key_order(y[0], x[0], x[i]);
                    lemma_key_order(y[0], x[i], y[0]);
                    lemma_key_order(x[i], y[0], y[0]);
                } else {
                    lemma_key_order(y[0], x[0], x[0]);
                }
            }
        }
        assert(x[0] == y[0]) by {
            assert(x[0].amount as int == f(x[0].owner, x[0].token));
            assert(y[0].amount as int == f(y[0].owner, y[0].token));
        }
        let xt = x.drop_first();
        let yt = y.drop_first();
        assert(legs_sorted(xt)) by {
            assert(forall|k: int| 0 <= k < xt.len() ==> xt[k] == x[k + 1]);
        }
        assert(legs_sorted(yt)) by {
            assert(forall|k: int| 0 <= k < yt.len() ==> yt[k] == y[k + 1]);
        }
        assert forall|o: Address, t: Address|
            #![trigger has_key(xt, o, t)]
            #![trigger has_key(yt, o, t)]
            has_key(xt, o, t) <==> has_key(yt, o, t) by {
            if has_key(xt, o, t) {
                let k = choose|k: int|
                    0 <= k < xt.len() && (#[trigger] xt[k]).owner == o && xt[k].token == t;
                assert(x[k + 1].owner == o && x[k + 1].token == t);
                assert(key_lt(x[0], x[k + 1]));
                assert(has_key(x, o, t));
                assert(has_key(y, o, t));
                let m = choose|m: int|
                    0 <= m < y.len() && (#[trigger] y[m]).owner == o && y[m].token == t;
                lemma_key_order(y[0], y[m], y[m]);
                lemma_key_order(x[0], x[k + 1], x[k + 1]);
                assert(m != 0) by {
                    if m == 0 {
                        assert(same_key(y[0], x[k + 1]));
                        lemma_key_order(x[0], x[k + 1], x[k + 1]);
                        assert(key_lt(x[0], x[k + 1]));
                        assert(same_key(x[0], y[0]));
                        lemma_key_order(x[0], y[0], x[k + 1]);
                        lemma_key_order(y[0], x[k + 1], x[k + 1]);
                        assert(!same_key(y[0], x[k + 1]));
                    }
                }
                assert(yt[m - 1].owner == o && yt[m - 1].token == t);
            }
            if has_key(yt, o, t) {
                let k = choose|k: int|
                    0 <= k < yt.len() && (#[trigger] yt[k]).owner == o && yt[k].token == t;
                assert(y[k + 1].owner == o && y[k + 1].token == t);
                assert(key_lt(y[0], y[k + 1]));
                assert(has_key(y, o, t));
                assert(has_key(x, o, t));
                let m = choose|m: int|
                    0 <= m < x.len() && (#[trigger] x[m]).owner == o && x[m].token == t;
                assert(m != 0) by {
                    if m == 0 {
                        assert(same_key(x[0], y[k + 1]));
                        assert(key_lt(y[0], y[k + 1]));
                        assert(same_key(x[0], y[0]));
                        lemma_key_order(y[0], x[0], y[k + 1]);
                        lemma_key_order(x[0], y[k + 1], y[k + 1]);
                        assert(!same_key(x[0], y[k + 1]));
                    }
                }
                assert(xt[m - 1].owner == o && xt[m - 1].token == t);
            }
        }
        assert(forall|k: int| 0 <= k < xt.len() ==> (#[trigger] xt[k]) == x[k + 1]);
        assert(forall|k: int| 0 <= k < yt.len() ==> (#[trigger] yt[k]) == y[k + 1]);
        lemma_sorted_legs_unique(xt, yt, f);
        assert(x =~= y) by {
            assert(x.len() == y.len());
            assert(forall|k: int| 1 <= k < x.len() ==> x[k] == xt[k - 1] && y[k] == yt[k - 1]);
        }
    }
}

/// The canonical normal form depends only on the multiset of the legs.
proof fn lemma_normal_form_unique(
    n1: Seq<AccountAmount>,
    s1: Seq<AccountAmount>,
    n2: Seq<AccountAmount>,
    s2: Seq<AccountAmount>,
)
    requires
        normal_form_of(n1, s1),
        normal_form_of(n2, s2),
        s1.to_multiset() == s2.to_multiset(),
    ensures
        n1 == n2,
{
    lemma_conditions_multiset(arbitrary::<Ledger>(), s1, Seq::empty(), s2, Seq::empty());
    let f = |o: Address, t: Address| totals(s1, o, t);
    assert forall|o: Address, t: Address|
        #![trigger has_key(n1, o, t)]
        #![trigger has_key(n2, o, t)]
        has_key(n1, o, t) <==> has_key(n2, o, t) by {
        assert(has_key(n1, o, t) <==> has_key(s1, o, t));
        assert(has_key(n2, o, t) <==> has_key(s2, o, t));
        assert(has_key(s1, o, t) <==> has_key(s2, o, t));
    }
    assert forall|i: int| 0 <= i < n2.len() implies (#[trigger] n2[i]).amount as int == f(
        n2[i].owner,
        n2[i].token,
    ) by {
        assert(n2[i].amount as int == totals(s2, n2[i].owner, n2[i].token));
        assert(totals(s1, n2[i].owner, n2[i].token) == totals(s2, n2[i].owner, n2[i].token));
    }
    lemma_sorted_legs_unique(n1, n2, f);
}

/// The transparent stage is deterministic: two successful applications of
/// multiset-equal legs from one context debit the same accounts and leave
/// equivalent contexts.
proof fn lemma_transparent_deterministic(
    pre: Ctx,
    s1: Seq<AccountAmount>,
    t1: Seq<AccountAmount>,
    s2: Seq<AccountAmount>,
    t2: Seq<AccountAmount>,
    mid1: Ctx,
    deb1: Seq<Address>,
    mid2: Ctx,
    deb2: Seq<Address>,
)
    requires
        s1.to_multiset() == s2.to_multiset(),
        t1.to_multiset() == t2.to_multiset(),
        transparent_ok(pre, s1, t1, mid1, deb1),
        transparent_ok(pre, s2, t2, mid2, deb2),
    ensures
        deb1 == deb2,
        ctx_equiv(mid1, mid2),
{
    lemma_conditions_multiset(pre.ledger, s1, t1, s2, t2);
    assert forall|a: Address|
        #![trigger deb1.contains(a)]
        #![trigger deb2.contains(a)]
        deb1.contains(a) <==> deb2.contains(a) by {
        assert(deb1.contains(a) <==> debits_account(s1, t1, a));
        assert(deb2.contains(a) <==> debits_account(s2, t2, a));
    }
    lemma_sorted_addrs_unique(deb1, deb2);
    assert forall|t: Address, o: Address| #[trigger]
        mid1.ledger.bal(t, o) == mid2.ledger.bal(t, o) by {
        assert(totals(s1, o, t) == totals(s2, o, t));
        assert(totals(t1, o, t) == totals(t2, o, t));
    }
    assert forall|t: Address| #[trigger] mid1.ledger.supply(t) == mid2.ledger.supply(t) by {
        assert(token_total(s1, t) == token_total(s2, t));
        assert(token_total(t1, t) == token_total(t2, t));
    }
    let ev1 = mid1.events@.last();
    let ev2 = mid2.events@.last();
    match ev1.operation {
        TokenOperation::MultiTransfer { sources: es1, targets: et1, post_balances: pb1 } => {
            match ev2.operation {
                TokenOperation::MultiTransfer { sources: es2, targets: et2, post_balances: pb2
                } => {
                    lemma_normal_form_unique(es1@, s1, es2@, s2);
                    lemma_normal_form_unique(et1@, t1, et2@, t2);
                    let f = |o: Address, t: Address| mid1.ledger.bal(t, o);
                    assert forall|o: Address, t: Address|
                        #![trigger has_key(pb1@, o, t)]
                        #![trigger has_key(pb2@, o, t)]
                        has_key(pb1@, o, t) <==> has_key(pb2@, o, t) by {
                        assert(has_key(pb1@, o, t) <==> has_key(s1, o, t) || has_key(t1, o, t));
                        assert(has_key(pb2@, o, t) <==> has_key(s2, o, t) || has_key(t2, o, t));
                    }
                    assert forall|i: int| 0 <= i < pb2@.len() implies (#[trigger] pb2@[i]).amount
                        as int == f(pb2@[i].owner, pb2@[i].token) by {
                        assert(pb2@[i].amount as int == mid2.ledger.bal(
                            pb2@[i].token,
                            pb2@[i].owner,
                        ));
                        assert(mid1.ledger.bal(pb2@[i].token, pb2@[i].owner) == mid2.ledger.bal(
                            pb2@[i].token,
                            pb2@[i].owner,
                        ));
                    }
                    lemma_sorted_legs_unique(pb1@, pb2@, f);
                    assert(mid1.verifiers@ == mid2.verifiers@);
                    assert(events_equiv(mid1.events@, mid2.events@)) by {
                        assert(mid1.events@.len() == mid2.events@.len());
                        assert forall|i: int| 0 <= i < mid1.events@.len() implies event_equiv(
                            #[trigger] mid1.events@[i],
                            mid2.events@[i],
                        ) by {
                            if i < mid1.events@.len() - 1 {
                                assert(mid1.events@[i] == mid1.events@.drop_last()[i]);
                                assert(mid2.events@[i] == mid2.events@.drop_last()[i]);
                                assert(mid1.events@[i] == pre.events@[i]);
                                lemma_ctx_equiv_refl(pre);
                                assert(event_equiv(pre.events@[i], pre.events@[i]));
                            } else {
                                assert(mid1.events@[i] == ev1);
                                assert(mid2.events@[i] == ev2);
                                assert(op_equiv(ev1.operation, ev2.operation));
                            }
                        }
                    }
                },
                _ => {
                    assert(false);
                },
            }
        },
        _ => {
            assert(false);
        },
    }
}

/// The shielded stage is deterministic: from equivalent contexts, the same
/// reference, debited set and transaction body, both runs reach the same
/// outcome and equivalent contexts.
proof fn lemma_shielded_deterministic(
    m1: Ctx,
    m2: Ctx,
    h: MaspTxId,
    deb: Seq<Address>,
    sections: Seq<ShieldedPayload>,
    p1: Ctx,
    p2: Ctx,
    r1: Result<(), TransferError>,
    r2: Result<(), TransferError>,
)
    requires
        ctx_equiv(m1, m2),
        match r1 {
            Result::Ok(_) => shielded_ok(m1, h, deb, sections, p1),
            Result::Err(e) => shielded_err(m1, h, deb, sections, p1, e),
        },
        match r2 {
            Result::Ok(_) => shielded_ok(m2, h, deb, sections, p2),
            Result::Err(e) => shielded_err(m2, h, deb, sections, p2, e),
        },
    ensures
        r1 == r2,
        ctx_equiv(p1, p2),
{
    match find_section(sections, h) {
        Option::None => {
            assert(r1 is Err && r1->Err_0 == TransferError::MissingShieldedSection);
            assert(r2 is Err && r2->Err_0 == TransferError::MissingShieldedSection);
            assert(r1 == Result::<(), TransferError>::Err(
                TransferError::MissingShieldedSection,
            ));
            assert(r2 == Result::<(), TransferError>::Err(
                TransferError::MissingShieldedSection,
            ));
        },
        Option::Some(p) => {
            assert(m1.tree.commitments@.len() == m2.tree.commitments@.len());
            if !p.proofs_valid {
                assert(r1 is Err && r1->Err_0 == TransferError::ShieldedApplicationFailure);
                assert(r2 is Err && r2->Err_0 == TransferError::ShieldedApplicationFailure);
                assert(r1 == Result::<(), TransferError>::Err(
                    TransferError::ShieldedApplicationFailure,
                ));
                assert(r2 == Result::<(), TransferError>::Err(
                    TransferError::ShieldedApplicationFailure,
                ));
            } else if m1.tree.commitments@.len() + p.commitments@.len() > m1.tree.capacity {
                assert(r1 is Err && r1->Err_0 == TransferError::CommitmentTreeFailure);
                assert(r2 is Err && r2->Err_0 == TransferError::CommitmentTreeFailure);
                assert(r1 == Result::<(), TransferError>::Err(
                    TransferError::CommitmentTreeFailure,
                ));
                assert(r2 == Result::<(), TransferError>::Err(
                    TransferError::CommitmentTreeFailure,
                ));
            } else if auth_filter(deb, vin_addresses(p).to_set()).len() == vin_addresses(
                p,
            ).to_set().len() {
                assert(r1 is Ok && r2 is Ok);
                assert(r1 == Result::<(), TransferError>::Ok(r1->Ok_0));
                assert(r2 == Result::<(), TransferError>::Ok(r2->Ok_0));
                assert(r1->Ok_0 == r2->Ok_0);
            } else {
                assert(r1 is Err && r1->Err_0 == TransferError::AuthorizationMismatch);
                assert(r2 is Err && r2->Err_0 == TransferError::AuthorizationMismatch);
                assert(r1 == Result::<(), TransferError>::Err(
                    TransferError::AuthorizationMismatch,
                ));
                assert(r2 == Result::<(), TransferError>::Err(
                    TransferError::AuthorizationMismatch,
                ));
            }
        },
    }
    assert forall|t: Address, o: Address| #[trigger] p1.ledger.bal(t, o) == p2.ledger.bal(t, o)
        by {
        assert(p1.ledger == m1.ledger);
        assert(p2.ledger == m2.ledger);
        assert(m1.ledger.bal(t, o) == m2.ledger.bal(t, o));
    }
    assert forall|t: Address| #[trigger] p1.ledger.supply(t) == p2.ledger.supply(t) by {
        assert(p1.ledger == m1.ledger);
        assert(p2.ledger == m2.ledger);
        assert(m1.ledger.supply(t) == m2.ledger.supply(t));
    }
    assert(events_equiv(p1.events@, p2.events@)) by {
        assert(p1.events == m1.events);
        assert(p2.events == m2.events);
    }
}

/// Determinism: two applications of one transfer descriptor — the same
/// shielded reference, the transparent legs supplied in any order — against
/// one starting context reach the same outcome and equivalent contexts:
/// equal balances, verifier sequences, action logs, events and tree state.
pub proof fn lemma_execution_deterministic(
    pre: Ctx,
    s1: Seq<AccountAmount>,
    t1: Seq<AccountAmount>,
    s2: Seq<AccountAmount>,
    t2: Seq<AccountAmount>,
    shash: Option<MaspTxId>,
    sections: Seq<ShieldedPayload>,
    post1: Ctx,
    post2: Ctx,
    r1: Result<(), crate::error::MultiTransferError>,
    r2: Result<(), crate::error::MultiTransferError>,
)
    requires
        s1.to_multiset() == s2.to_multiset(),
        t1.to_multiset() == t2.to_multiset(),
        multi_post(pre, s1, t1, shash, sections, post1, r1),
        multi_post(pre, s2, t2, shash, sections, post2, r2),
    ensures
        r1 == r2,
        ctx_equiv(post1, post2),
{
    broadcast use vstd::seq_lib::group_to_multiset_ensures;

    assert(s1.len() == s2.len() && t1.len() == t2.len()) by {
        assert(s1.to_multiset().len() == s1.len());
        assert(s2.to_multiset().len() == s2.len());
        assert(t1.to_multiset().len() == t1.len());
        assert(t2.to_multiset().len() == t2.len());
    }
    if s1.len() == 0 && t1.len() == 0 {
        match shash {
            Option::None => {
                lemma_ctx_equiv_refl(pre);
                assert(r1 is Ok && r2 is Ok);
                assert(r1 == Result::<(), crate::error::MultiTransferError>::Ok(r1->Ok_0));
                assert(r2 == Result::<(), crate::error::MultiTransferError>::Ok(r2->Ok_0));
                assert(r1->Ok_0 == r2->Ok_0);
            },
            Option::Some(h) => {
                let rr1: Result<(), TransferError> = match r1 {
                    Result::Ok(_) => Result::Ok(()),
                    Result::Err(me) => Result::Err(me.error),
                };
                let rr2: Result<(), TransferError> = match r2 {
                    Result::Ok(_) => Result::Ok(()),
                    Result::Err(me) => Result::Err(me.error),
                };
                lemma_ctx_equiv_refl(pre);
                lemma_shielded_deterministic(
                    pre,
                    pre,
                    h,
                    Seq::<Address>::empty(),
                    sections,
                    post1,
                    post2,
                    rr1,
                    rr2,
                );
                if r1 is Ok {
                    assert(r2 is Ok);
                    assert(r1 == Result::<(), crate::error::MultiTransferError>::Ok(r1->Ok_0));
                    assert(r2 == Result::<(), crate::error::MultiTransferError>::Ok(r2->Ok_0));
                    assert(r1->Ok_0 == r2->Ok_0);
                } else {
                    assert(r1 is Err && r2 is Err);
                    let me1 = r1->Err_0;
                    let me2 = r2->Err_0;
                    assert(me1.stage == Stage::Shielded && me2.stage == Stage::Shielded);
                    assert(me1.error == me2.error);
                    assert(me1 == me2);
                    assert(r1 == Result::<(), crate::error::MultiTransferError>::Err(me1));
                    assert(r2 == Result::<(), crate::error::MultiTransferError>::Err(me2));
                }
            },
        }
    } else {
        lemma_conditions_multiset(pre.ledger, s1, t1, s2, t2);
        match r1 {
            Result::Ok(_) => {
                let (mid1, deb1) = choose|mid: Ctx, debited: Seq<Address>|
                    {
                        &&& #[trigger] transparent_ok(pre, s1, t1, mid, debited)
                        &&& match shash {
                            Option::Some(h) => shielded_ok(mid, h, debited, sections, post1),
                            Option::None => post1 == mid,
                        }
                    };
                match r2 {
                    Result::Ok(_) => {
                        let (mid2, deb2) = choose|mid: Ctx, debited: Seq<Address>|
                            {
                                &&& #[trigger] transparent_ok(pre, s2, t2, mid, debited)
                                &&& match shash {
                                    Option::Some(h) => shielded_ok(
                                        mid,
                                        h,
                                        debited,
                                        sections,
                                        post2,
                                    ),
                                    Option::None => post2 == mid,
                                }
                            };
                        lemma_transparent_deterministic(
                            pre,
                            s1,
                            t1,
                            s2,
                            t2,
                            mid1,
                            deb1,
                            mid2,
                            deb2,
                        );
                        match shash {
                            Option::Some(h) => {
                                lemma_shielded_deterministic(
                                    mid1,
                                    mid2,
                                    h,
                                    deb1,
                                    sections,
                                    post1,
                                    post2,
                                    Result::Ok(()),
                                    Result::Ok(()),
                                );
                            },
                            Option::None => {},
                        }
                        assert(r1 == Result::<(), crate::error::MultiTransferError>::Ok(
                            r1->Ok_0,
                        ));
                        assert(r2 == Result::<(), crate::error::MultiTransferError>::Ok(
                            r2->Ok_0,
                        ));
                        assert(r1->Ok_0 == r2->Ok_0);
                    },
                    Result::Err(me) => {
                        if me.stage == Stage::Transparent && post2 == pre && transparent_err(
                            pre,
                            s2,
                            t2,
                            me.error,
                        ) {
                            assert(false);
                        } else {
                            let (mid2, deb2) = choose|mid: Ctx, debited: Seq<Address>|
                                {
                                    &&& #[trigger] transparent_ok(pre, s2, t2, mid, debited)
                                    &&& match shash {
                                        Option::Some(h) => shielded_err(
                                            mid,
                                            h,
                                            debited,
                                            sections,
                                            post2,
                                            me.error,
                                        ),
                                        Option::None => false,
                                    }
                                };
                            lemma_transparent_deterministic(
                                pre,
                                s1,
                                t1,
                                s2,
                                t2,
                                mid1,
                                deb1,
                                mid2,
                                deb2,
                            );
                            match shash {
                                Option::Some(h) => {
                                    lemma_shielded_deterministic(
                                        mid1,
                                        mid2,
                                        h,
                                        deb1,
                                        sections,
                                        post1,
                                        post2,
                                        Result::Ok(()),
                                        Result::Err(me.error),
                                    );
                                    assert(false);
                                },
                                Option::None => {
                                    assert(false);
                                },
                            }
                        }
                    },
                }
            },
            Result::Err(me1) => {
                match r2 {
                    Result::Ok(_) => {
                        let (mid2, deb2) = choose|mid: Ctx, debited: Seq<Address>|
                            {
                                &&& #[trigger] transparent_ok(pre, s2, t2, mid, debited)
                                &&& match shash {
                                    Option::Some(h) => shielded_ok(
                                        mid,
                                        h,
                                        debited,
                                        sections,
                                        post2,
                                    ),
                                    Option::None => post2 == mid,
                                }
                            };
                        if me1.stage == Stage::Transparent && post1 == pre && transparent_err(
                            pre,
                            s1,
                            t1,
                            me1.error,
                        ) {
                            assert(false);
                        } else {
                            let (mid1, deb1) = choose|mid: Ctx, debited: Seq<Address>|
                                {
                                    &&& #[trigger] transparent_ok(pre, s1, t1, mid, debited)
                                    &&& match shash {
                                        Option::Some(h) => shielded_err(
                                            mid,
                                            h,
                                            debited,
                                            sections,
                                            post1,
                                            me1.error,
                                        ),
                                        Option::None => false,
                                    }
                                };
                            lemma_transparent_deterministic(
                                pre,
                                s1,
                                t1,
                                s2,
                                t2,
                                mid1,
                                deb1,
                                mid2,
                                deb2,
                            );
                            match shash {
                                Option::Some(h) => {
                                    lemma_shielded_deterministic(
                                        mid1,
                                        mid2,
                                        h,
                                        deb1,
                                        sections,
                                        post1,
                                        post2,
                                        Result::Err(me1.error),
                                        Result::Ok(()),
                                    );
                                    assert(false);
                                },
                                Option::None => {
                                    assert(false);
                                },
                            }
                        }
                    },
                    Result::Err(me2) => {
                        let tr1 = me1.stage == Stage::Transparent && post1 == pre
                            && transparent_err(pre, s1, t1, me1.error);
                        let tr2 = me2.stage == Stage::Transparent && post2 == pre
                            && transparent_err(pre, s2, t2, me2.error);
                        if tr1 && tr2 {
                            assert(me1.error == me2.error);
                            assert(me1 == me2);
                            assert(r1 == Result::<(), crate::error::MultiTransferError>::Err(
                                me1,
                            ));
                            assert(r2 == Result::<(), crate::error::MultiTransferError>::Err(
                                me2,
                            ));
                            lemma_ctx_equiv_refl(pre);
                        } else if tr1 && !tr2 {
                            let (mid2, deb2) = choose|mid: Ctx, debited: Seq<Address>|
                                {
                                    &&& #[trigger] transparent_ok(pre, s2, t2, mid, debited)
                                    &&& match shash {
                                        Option::Some(h) => shielded_err(
                                            mid,
                                            h,
                                            debited,
                                            sections,
                                            post2,
                                            me2.error,
                                        ),
                                        Option::None => false,
                                    }
                                };
                            assert(false);
                        } else if !tr1 && tr2 {
                            let (mid1, deb1) = choose|mid: Ctx, debited: Seq<Address>|
                                {
                                    &&& #[trigger] transparent_ok(pre, s1, t1, mid, debited)
                                    &&& match shash {
                                        Option::Some(h) => shielded_err(
                                            mid,
                                            h,
                                            debited,
                                            sections,
                                            post1,
                                            me1.error,
                                        ),
                                        Option::None => false,
                                    }
                                };
                            assert(false);
                        } else {
                            let (mid1, deb1) = choose|mid: Ctx, debited: Seq<Address>|
                                {
                                    &&& #[trigger] transparent_ok(pre, s1, t1, mid, debited)
                                    &&& match shash {
                                        Option::Some(h) => shielded_err(
                                            mid,
                                            h,
                                            debited,
                                            sections,
                                            post1,
                                            me1.error,
                                        ),
                                        Option::None => false,
                                    }
                                };
                            let (mid2, deb2) = choose|mid: Ctx, debited: Seq<Address>|
                                {
                                    &&& #[trigger] transparent_ok(pre, s2, t2, mid, debited)
                                    &&& match shash {
                                        Option::Some(h) => shielded_err(
                                            mid,
                                            h,
                                            debited,
                                            sections,
                                            post2,
                                            me2.error,
                                        ),
                                        Option::None => false,
                                    }
                                };
                            lemma_transparent_deterministic(
                                pre,
                                s1,
                                t1,
                                s2,
                                t2,
                                mid1,
                                deb1,
                                mid2,
                                deb2,
                            );
                            match shash {
                                Option::Some(h) => {
                                    lemma_shielded_deterministic(
                                        mid1,
                                        mid2,
                                        h,
                                        deb1,
                                        sections,
                                        post1,
                                        post2,
                                        Result::Err(me1.error),
                                        Result::Err(me2.error),
                                    );
                                    assert(me1 == me2);
                                    assert(r1 == Result::<
                                        (),
                                        crate::error::MultiTransferError,
                                    >::Err(me1));
                                    assert(r2 == Result::<
                                        (),
                                        crate::error::MultiTransferError,
                                    >::Err(me2));
                                },
                                Option::None => {
                                    assert(false);
                                },
                            }
                        }
                    },
                }
            },
        }
    }
}

} // verus!
