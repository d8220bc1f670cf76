//! Transfer application: the single-pair transfer, the transparent
//! multi-leg applier, the shielded applier with its authorization
//! reconciliation, and the orchestrator that sequences them.

use vstd::prelude::*;
use vstd::string::StringExecFns;
use crate::addr::{
    Address, TAddr, addr_taddr, spec_addr_taddr, addrs_sorted,
};
use crate::ctx::{Action, Ctx, spec_insert_verifier};
use crate::error::{MultiTransferError, Stage, TransferError};
use crate::event::{EventLevel, TokenEvent, TokenOperation};
use crate::ledger::{insufficient, credit_overflow, is_debited};
use crate::legs::{
    AccountAmount, Amount, has_key, legs_sorted, normal_form_of, normalize_legs, token_total,
    totals, upsert_leg_sorted,
};
use crate::shielded::{BatchedTx, MaspTxId, ShieldedPayload, find_section, vin_addresses};

verus! {

/// The transaction-level transfer descriptor: an optional transparent
/// multi-leg payload — debits and credits, in any order, duplicates allowed —
/// and an optional reference to a shielded section of the transaction body.
#[derive(Clone, Debug)]
pub struct Transfer {
    pub sources: Vec<AccountAmount>,
    pub targets: Vec<AccountAmount>,
    pub shielded_section_hash: Option<MaspTxId>,
}

/// The transparent part of a transfer descriptor: the exact debits and
/// credits to apply.
#[derive(Clone, Debug)]
pub struct TransparentTransfersRef {
    pub sources: Vec<AccountAmount>,
    pub targets: Vec<AccountAmount>,
}

/// Duplicate a vector of transfer legs.
fn copy_legs(v: &Vec<AccountAmount>) -> (r: Vec<AccountAmount>)
    ensures
        r@ == v@,
{
    let mut r: Vec<AccountAmount> = Vec::new();
    let mut i: usize = 0;
    while i < v.len()
        invariant
            i <= v@.len(),
            r@ == v@.take(i as int),
        decreases v@.len() - i,
    {
        r.push(v[i]);
        proof {
            assert(r@ =~= v@.take(i as int + 1));
        }
        i += 1;
    }
    proof {
        assert(v@.take(i as int) =~= v@);
    }
    r
}

impl Transfer {
    /// The transparent part, present when some leg exists.
    pub fn transparent_part(&self) -> (r: Option<TransparentTransfersRef>)
        ensures
            match r {
                Some(t) => {
                    &&& self.sources@.len() + self.targets@.len() > 0
                    &&& t.sources@ == self.sources@
                    &&& t.targets@ == self.targets@
                },
                None => self.sources@.len() == 0 && self.targets@.len() == 0,
            },
    {
        if self.sources.len() == 0 && self.targets.len() == 0 {
            None
        } else {
            Some(
                TransparentTransfersRef {
                    sources: copy_legs(&self.sources),
                    targets: copy_legs(&self.targets),
                },
            )
        }
    }
}

/// What the verifier registry holds after a single-pair transfer registers
/// its parties: the source, the target, and the token when it is internal.
pub open spec fn spec_register_single(
    vs: Seq<Address>,
    src: Address,
    dest: Address,
    token: Address,
) -> Seq<Address> {
    let v1 = spec_insert_verifier(vs, src);
    let v2 = spec_insert_verifier(v1, dest);
    if token.internal {
        spec_insert_verifier(v2, token)
    } else {
        v2
    }
}

/// A transparent token transfer between one source and one destination.
///
/// Registers the source and destination — and the token, when internal — as
/// verifiers, debits the source and credits the destination with overflow
/// checks, and emits one event with both post-transfer balances.  On failure
/// the ledger is untouched and no event is emitted; the verifiers are
/// registered in every outcome, as registration precedes the mutation.
pub fn transfer(
    ctx: &mut Ctx,
    src: &Address,
    dest: &Address,
    token: &Address,
    amount: Amount,
) -> (r: Result<(), TransferError>)
    requires
        old(ctx).wf(),
    ensures
        final(ctx).wf(),
        final(ctx).verifiers@ == spec_register_single(old(ctx).verifiers@, *src, *dest, *token),
        final(ctx).actions == old(ctx).actions,
        final(ctx).tree.commitments == old(ctx).tree.commitments,
        final(ctx).tree.capacity == old(ctx).tree.capacity,
        final(ctx).commitment_sentinel == old(ctx).commitment_sentinel,
        match r {
            Ok(u) => {
                &&& old(ctx).ledger.bal(*token, *src) >= amount as int
                &&& forall|t: Address, o: Address| #[trigger]
                    final(ctx).ledger.bal(t, o) == old(ctx).ledger.bal(t, o) - (
                    if t == *token && o == *src {
                        amount as int
                    } else {
                        0
                    }) + (
                    if t == *token && o == *dest {
                        amount as int
                    } else {
                        0
                    })
                &&& final(ctx).events@.len() == old(ctx).events@.len() + 1
                &&& final(ctx).events@.drop_last() == old(ctx).events@
                &&& final(ctx).events@.last().descriptor@ == "transfer-from-wasm"@
                &&& final(ctx).events@.last().level == EventLevel::Tx
                &&& final(ctx).events@.last().operation == (TokenOperation::SingleTransfer {
                    source: *src,
                    target: *dest,
                    token: *token,
                    amount,
                    source_post_balance: (final(ctx).ledger.bal(*token, *src)) as Amount,
                    target_post_balance: (final(ctx).ledger.bal(*token, *dest)) as Amount,
                })
            },
            Err(e) => {
                &&& final(ctx).ledger == old(ctx).ledger
                &&& final(ctx).events == old(ctx).events
                &&& (e == TransferError::InsufficientBalance <==> old(ctx).ledger.bal(
                    *token,
                    *src,
                ) < amount as int)
                &&& (e == TransferError::Overflow <==> old(ctx).ledger.bal(*token, *src)
                    >= amount as int && src != dest && old(ctx).ledger.bal(*token, *dest)
                    + amount as int > u128::MAX)
                &&& (e == TransferError::InsufficientBalance || e == TransferError::Overflow)
            },
        },
{
    ctx.insert_verifier(src);
    ctx.insert_verifier(dest);
    if token.is_internal() {
        ctx.insert_verifier(token);
    }
    let b_src = ctx.ledger.read_balance(token, src);
    if b_src < amount {
        return Err(TransferError::InsufficientBalance);
    }
    let b_dest = ctx.ledger.read_balance(token, dest);
    if src != dest && amount > u128::MAX - b_dest {
        return Err(TransferError::Overflow);
    }
    ctx.ledger.set_balance(token, src, b_src - amount);
    let mid_dest = ctx.ledger.read_balance(token, dest);
    ctx.ledger.set_balance(token, dest, mid_dest + amount);
    let post_src = ctx.ledger.read_balance(token, src);
    let post_dest = ctx.ledger.read_balance(token, dest);
    let ev = TokenEvent {
        descriptor: String::from_str("transfer-from-wasm"),
        level: EventLevel::Tx,
        operation: (TokenOperation::SingleTransfer {
            source: *src,
            target: *dest,
            token: *token,
            amount,
            source_post_balance: post_src,
            target_post_balance: post_dest,
        }),
    };
    ctx.emit(ev);
    Ok(())
}

/// Some (account, token) key of `s` sums beyond the amount type's width.
pub open spec fn sum_overflow(s: Seq<AccountAmount>) -> bool {
    exists|o: Address, t: Address| #[trigger] totals(s, o, t) > u128::MAX
}

/// Some account funds more of a token than its balance holds.
pub open spec fn lacks_funds(l: crate::ledger::Ledger, s: Seq<AccountAmount>) -> bool {
    exists|i: int|
        0 <= i < s.len() && l.bal((#[trigger] s[i]).token, s[i].owner) < totals(
            s,
            s[i].owner,
            s[i].token,
        )
}

/// Some credited balance would exceed the amount type's width after all
/// debits are taken.
pub open spec fn credit_over(
    l: crate::ledger::Ledger,
    s: Seq<AccountAmount>,
    tg: Seq<AccountAmount>,
) -> bool {
    exists|i: int|
        0 <= i < tg.len() && l.bal((#[trigger] tg[i]).token, tg[i].owner) - totals(
            s,
            tg[i].owner,
            tg[i].token,
        ) + totals(tg, tg[i].owner, tg[i].token) > u128::MAX
}

/// The transfer strictly reduces some balance of `a`: it funds more of some
/// token than it receives of it.
pub open spec fn debits_account(
    s: Seq<AccountAmount>,
    tg: Seq<AccountAmount>,
    a: Address,
) -> bool {
    exists|i: int|
        0 <= i < s.len() && (#[trigger] s[i]).owner == a && totals(s, a, s[i].token) > totals(
            tg,
            a,
            s[i].token,
        )
}

/// On normal forms, the failure conditions and the debited-account predicate
/// coincide with their statements over the raw legs.
proof fn lemma_conditions_bridge(
    l: crate::ledger::Ledger,
    s: Seq<AccountAmount>,
    tg: Seq<AccountAmount>,
    ns: Seq<AccountAmount>,
    nt: Seq<AccountAmount>,
)
    requires
        normal_form_of(ns, s),
        normal_form_of(nt, tg),
    ensures
        insufficient(l, ns) == lacks_funds(l, s),
        credit_overflow(l, ns, nt) == credit_over(l, s, tg),
        forall|a: Address| #[trigger] is_debited(ns, nt, a) == debits_account(s, tg, a),
{
    if insufficient(l, ns) {
        let i = choose|i: int|
            0 <= i < ns.len() && l.bal((#[trigger] ns[i]).token, ns[i].owner) < ns[i].amount
                as int;
        assert(has_key(ns, ns[i].owner, ns[i].token));
        assert(has_key(s, ns[i].owner, ns[i].token));
        let j = choose|j: int|
            0 <= j < s.len() && (#[trigger] s[j]).owner == ns[i].owner && s[j].token
                == ns[i].token;
        assert(l.bal(s[j].token, s[j].owner) < totals(s, s[j].owner, s[j].token));
        assert(lacks_funds(l, s));
    }
    if lacks_funds(l, s) {
        let j = choose|j: int|
            0 <= j < s.len() && l.bal((#[trigger] s[j]).token, s[j].owner) < totals(
                s,
                s[j].owner,
                s[j].token,
            );
        assert(has_key(s, s[j].owner, s[j].token));
        assert(has_key(ns, s[j].owner, s[j].token));
        let i = choose|i: int|
            0 <= i < ns.len() && (#[trigger] ns[i]).owner == s[j].owner && ns[i].token
                == s[j].token;
        assert(ns[i].amount as int == totals(s, ns[i].owner, ns[i].token));
        assert(l.bal(ns[i].token, ns[i].owner) < ns[i].amount as int);
        assert(insufficient(l, ns));
    }
    if credit_overflow(l, ns, nt) {
        let i = choose|i: int|
            0 <= i < nt.len() && l.bal((#[trigger] nt[i]).token, nt[i].owner) - totals(
                ns,
                nt[i].owner,
                nt[i].token,
            ) + nt[i].amount as int > u128::MAX;
        assert(nt[i].amount as int == totals(nt, nt[i].owner, nt[i].token));
        assert(has_key(nt, nt[i].owner, nt[i].token));
        assert(has_key(tg, nt[i].owner, nt[i].token));
        let j = choose|j: int|
            0 <= j < tg.len() && (#[trigger] tg[j]).owner == nt[i].owner && tg[j].token
                == nt[i].token;
        assert(l.bal(tg[j].token, tg[j].owner) - totals(s, tg[j].owner, tg[j].token) + totals(
            tg,
            tg[j].owner,
            tg[j].token,
        ) > u128::MAX);
        assert(credit_over(l, s, tg));
    }
    if credit_over(l, s, tg) {
        let j = choose|j: int|
            0 <= j < tg.len() && l.bal((#[trigger] tg[j]).token, tg[j].owner) - totals(
                s,
                tg[j].owner,
                tg[j].token,
            ) + totals(tg, tg[j].owner, tg[j].token) > u128::MAX;
        assert(has_key(tg, tg[j].owner, tg[j].token));
        assert(has_key(nt, tg[j].owner, tg[j].token));
        let i = choose|i: int|
            0 <= i < nt.len() && (#[trigger] nt[i]).owner == tg[j].owner && nt[i].token
                == tg[j].token;
        assert(nt[i].amount as int == totals(tg, nt[i].owner, nt[i].token));
        assert(l.bal(nt[i].token, nt[i].owner) - totals(ns, nt[i].owner, nt[i].token)
            + nt[i].amount as int > u128::MAX);
        assert(credit_overflow(l, ns, nt));
    }
    assert forall|a: Address| #[trigger] is_debited(ns, nt, a) == debits_account(s, tg, a) by {
        if is_debited(ns, nt, a) {
            let i = choose|i: int|
                0 <= i < ns.len() && (#[trigger] ns[i]).owner == a && ns[i].amount as int
                    > totals(nt, a, ns[i].token);
            assert(ns[i].amount as int == totals(s, a, ns[i].token));
            assert(has_key(ns, a, ns[i].token));
            assert(has_key(s, a, ns[i].token));
            let j = choose|j: int|
                0 <= j < s.len() && (#[trigger] s[j]).owner == a && s[j].token == ns[i].token;
            assert(totals(s, a, s[j].token) > totals(tg, a, s[j].token));
            assert(debits_account(s, tg, a));
        }
        if debits_account(s, tg, a) {
            let j = choose|j: int|
                0 <= j < s.len() && (#[trigger] s[j]).owner == a && totals(s, a, s[j].token)
                    > totals(tg, a, s[j].token);
            assert(has_key(s, a, s[j].token));
            assert(has_key(ns, a, s[j].token));
            let i = choose|i: int|
                0 <= i < ns.len() && (#[trigger] ns[i]).owner == a && ns[i].token == s[j].token;
            assert(ns[i].amount as int == totals(s, a, ns[i].token));
            assert(ns[i].amount as int > totals(nt, a, ns[i].token));
            assert(is_debited(ns, nt, a));
        }
    }
}

/// Register one leg's parties: the account, and the token when internal.
pub open spec fn register_leg(vs: Seq<Address>, leg: AccountAmount) -> Seq<Address> {
    let v1 = spec_insert_verifier(vs, leg.owner);
    if leg.token.internal {
        spec_insert_verifier(v1, leg.token)
    } else {
        v1
    }
}

/// Register every leg's parties, in order.
pub open spec fn register_legs(vs: Seq<Address>, legs: Seq<AccountAmount>) -> Seq<Address>
    decreases legs.len(),
{
    if legs.len() == 0 {
        vs
    } else {
        register_legs(register_leg(vs, legs.first()), legs.drop_first())
    }
}

/// Registering one more leg at the end composes.
pub proof fn lemma_register_legs_snoc(vs: Seq<Address>, legs: Seq<AccountAmount>, leg: AccountAmount)
    ensures
        register_legs(vs, legs.push(leg)) == register_leg(register_legs(vs, legs), leg),
    decreases legs.len(),
{
    if legs.len() == 0 {
        assert(legs.push(leg).drop_first() =~= Seq::<AccountAmount>::empty());
        assert(legs.push(leg).first() == leg);
        assert(register_legs(vs, legs.push(leg)) == register_legs(
            register_leg(vs, leg),
            Seq::<AccountAmount>::empty(),
        ));
        assert(register_legs(register_leg(vs, leg), Seq::<AccountAmount>::empty())
            == register_leg(vs, leg));
        assert(register_legs(vs, legs) == vs);
    } else {
        assert(legs.push(leg).first() == legs.first());
        assert(legs.push(leg).drop_first() =~= legs.drop_first().push(leg));
        lemma_register_legs_snoc(register_leg(vs, legs.first()), legs.drop_first(), leg);
        assert(register_legs(vs, legs.push(leg)) == register_legs(
            register_leg(vs, legs.first()),
            legs.drop_first().push(leg),
        ));
        assert(register_legs(vs, legs) == register_legs(
            register_leg(vs, legs.first()),
            legs.drop_first(),
        ));
    }
}

/// The one event of a successful multi-leg application: the normal forms of
/// the debits and the credits, and the post-transfer balance of every touched
/// (account, token) pair, each in canonical sorted order.  The registered
/// verifiers are exactly the parties of those normal forms, in order.
pub open spec fn event_is_multi(
    ev: TokenEvent,
    pre: Ctx,
    sources: Seq<AccountAmount>,
    targets: Seq<AccountAmount>,
    post: Ctx,
) -> bool {
    &&& ev.descriptor@ == "transfer-from-wasm"@
    &&& ev.level == EventLevel::Tx
    &&& match ev.operation {
        TokenOperation::MultiTransfer { sources: es, targets: et, post_balances: pb } => {
            &&& normal_form_of(es@, sources)
            &&& normal_form_of(et@, targets)
            &&& legs_sorted(pb@)
            &&& forall|o: Address, t: Address|
                #![trigger has_key(pb@, o, t)]
                has_key(pb@, o, t) <==> has_key(sources, o, t) || has_key(targets, o, t)
            &&& forall|i: int|
                0 <= i < pb@.len() ==> (#[trigger] pb@[i]).amount as int == post.ledger.bal(
                    pb@[i].token,
                    pb@[i].owner,
                )
            &&& post.verifiers@ == register_legs(register_legs(pre.verifiers@, es@), et@)
        },
        _ => false,
    }
}

/// What a successful transparent multi-leg application did.
pub open spec fn transparent_ok(
    pre: Ctx,
    sources: Seq<AccountAmount>,
    targets: Seq<AccountAmount>,
    post: Ctx,
    debited: Seq<Address>,
) -> bool {
    &&& !sum_overflow(sources) && !sum_overflow(targets)
    &&& !lacks_funds(pre.ledger, sources)
    &&& !credit_over(pre.ledger, sources, targets)
    &&& forall|t: Address, o: Address| #[trigger]
        post.ledger.bal(t, o) == pre.ledger.bal(t, o) - totals(sources, o, t) + totals(
            targets,
            o,
            t,
        )
    &&& forall|t: Address| #[trigger]
        post.ledger.supply(t) == pre.ledger.supply(t) - token_total(sources, t) + token_total(
            targets,
            t,
        )
    &&& addrs_sorted(debited)
    &&& forall|a: Address| #[trigger] debited.contains(a) <==> debits_account(sources, targets, a)
    &&& post.actions == pre.actions
    &&& post.tree.commitments == pre.tree.commitments
    &&& post.tree.capacity == pre.tree.capacity
    &&& post.commitment_sentinel == pre.commitment_sentinel
    &&& post.events@.len() == pre.events@.len() + 1
    &&& post.events@.drop_last() == pre.events@
    &&& event_is_multi(post.events@.last(), pre, sources, targets, post)
}

/// Which failure a transparent multi-leg application reports, and exactly
/// when.
pub open spec fn transparent_err(
    pre: Ctx,
    sources: Seq<AccountAmount>,
    targets: Seq<AccountAmount>,
    e: TransferError,
) -> bool {
    &&& (e == TransferError::InsufficientBalance || e == TransferError::Overflow)
    &&& (e == TransferError::InsufficientBalance <==> !sum_overflow(sources) && !sum_overflow(
        targets,
    ) && lacks_funds(pre.ledger, sources))
    &&& (e == TransferError::Overflow <==> sum_overflow(sources) || sum_overflow(targets) || (
    !lacks_funds(pre.ledger, sources) && credit_over(pre.ledger, sources, targets)))
}

/// Transfer tokens from `sources` to `targets` and emit one transfer event.
///
/// The legs are brought into canonical normal form — sorted by account then
/// token, duplicate keys summed — and the ledger mutation is atomic: it fails
/// entirely, leaving the context untouched, if a summed amount overflows, a
/// source balance is insufficient, or a credited balance would overflow.  On
/// success every involved account — and every internal token — is registered
/// as a verifier, and the set of accounts whose balance was reduced is
/// returned.
pub fn apply_transparent_transfers(ctx: &mut Ctx, transfers: &TransparentTransfersRef) -> (r:
    Result<Vec<Address>, TransferError>)
    requires
        old(ctx).wf(),
    ensures
        final(ctx).wf(),
        match r {
            Ok(debited) => transparent_ok(
                *old(ctx),
                transfers.sources@,
                transfers.targets@,
                *final(ctx),
                debited@,
            ),
            Err(e) => *final(ctx) == *old(ctx) && transparent_err(
                *old(ctx),
                transfers.sources@,
                transfers.targets@,
                e,
            ),
        },
{
    let ghost gs = transfers.sources@;
    let ghost gt = transfers.targets@;
    let ns = match normalize_legs(&transfers.sources) {
        Ok(v) => v,
        Err(e) => {
            return Err(e);
        },
    };
    let nt = match normalize_legs(&transfers.targets) {
        Ok(v) => v,
        Err(e) => {
            proof {
                assert(!sum_overflow(gs)) by {
                    if sum_overflow(gs) {
                        let (o, t) = choose|o: Address, t: Address| #[trigger]
                            totals(gs, o, t) > u128::MAX;
                        assert(totals(gs, o, t) <= u128::MAX);
                    }
                }
            }
            return Err(e);
        },
    };
    proof {
        assert(!sum_overflow(gs) && !sum_overflow(gt)) by {
            if sum_overflow(gs) {
                let (o, t) = choose|o: Address, t: Address| #[trigger] totals(gs, o, t)
                    > u128::MAX;
                assert(totals(gs, o, t) <= u128::MAX);
            }
            if sum_overflow(gt) {
                let (o, t) = choose|o: Address, t: Address| #[trigger] totals(gt, o, t)
                    > u128::MAX;
                assert(totals(gt, o, t) <= u128::MAX);
            }
        }
        lemma_conditions_bridge(old(ctx).ledger, gs, gt, ns@, nt@);
    }
    let debited = match ctx.ledger.multi_transfer(&ns, &nt) {
        Ok(d) => d,
        Err(e) => {
            return Err(e);
        },
    };
    let ghost mid = *ctx;
    let ghost vs0 = old(ctx).verifiers@;
    let mut i: usize = 0;
    while i < ns.len()
        invariant
            i <= ns@.len(),
            ctx.verifiers@ == register_legs(vs0, ns@.take(i as int)),
            ctx.verifiers@.no_duplicates(),
            ctx.ledger == mid.ledger,
            ctx.actions == mid.actions,
            ctx.events == mid.events,
            ctx.tree.commitments == mid.tree.commitments,
            ctx.tree.capacity == mid.tree.capacity,
            ctx.commitment_sentinel == mid.commitment_sentinel,
        decreases ns@.len() - i,
    {
        let leg = ns[i];
        let ghost vcur = ctx.verifiers@;
        ctx.insert_verifier(&leg.owner);
        if leg.token.is_internal() {
            ctx.insert_verifier(&leg.token);
        }
        proof {
            assert(ctx.verifiers@ == register_leg(vcur, leg));
            lemma_register_legs_snoc(vs0, ns@.take(i as int), ns@[i as int]);
            assert(ns@.take(i as int).push(ns@[i as int]) =~= ns@.take(i as int + 1));
        }
        i += 1;
    }
    proof {
        assert(ns@.take(ns@.len() as int) =~= ns@);
    }
    let ghost vs1 = register_legs(vs0, ns@);
    let mut i2: usize = 0;
    while i2 < nt.len()
        invariant
            i2 <= nt@.len(),
            ctx.verifiers@ == register_legs(vs1, nt@.take(i2 as int)),
            ctx.verifiers@.no_duplicates(),
            ctx.ledger == mid.ledger,
            ctx.actions == mid.actions,
            ctx.events == mid.events,
            ctx.tree.commitments == mid.tree.commitments,
            ctx.tree.capacity == mid.tree.capacity,
            ctx.commitment_sentinel == mid.commitment_sentinel,
        decreases nt@.len() - i2,
    {
        let leg = nt[i2];
        let ghost vcur = ctx.verifiers@;
        ctx.insert_verifier(&leg.owner);
        if leg.token.is_internal() {
            ctx.insert_verifier(&leg.token);
        }
        proof {
            assert(ctx.verifiers@ == register_leg(vcur, leg));
            lemma_register_legs_snoc(vs1, nt@.take(i2 as int), nt@[i2 as int]);
            assert(nt@.take(i2 as int).push(nt@[i2 as int]) =~= nt@.take(i2 as int + 1));
        }
        i2 += 1;
    }
    proof {
        assert(nt@.take(nt@.len() as int) =~= nt@);
    }
    let mut pb: Vec<AccountAmount> = Vec::new();
    let ghost cur = *ctx;
    let mut k: usize = 0;
    while k < ns.len()
        invariant
            k <= ns@.len(),
            *ctx == cur,
            cur.ledger.wf(),
            legs_sorted(pb@),
            legs_sorted(ns@),
            forall|o: Address, t: Address|
                #![trigger has_key(pb@, o, t)]
                has_key(pb@, o, t) <==> has_key(ns@.take(k as int), o, t),
            forall|m: int|
                0 <= m < pb@.len() ==> (#[trigger] pb@[m]).amount as int == cur.ledger.bal(
                    pb@[m].token,
                    pb@[m].owner,
                ),
        decreases ns@.len() - k,
    {
        let leg = ns[k];
        let b = ctx.ledger.read_balance(&leg.token, &leg.owner);
        let ghost pbprev = pb@;
        let entry = AccountAmount { owner: leg.owner, token: leg.token, amount: b };
        upsert_leg_sorted(&mut pb, entry);
        proof {
            assert forall|o: Address, t: Address|
                has_key(pb@, o, t) <==> has_key(ns@.take(k as int + 1), o, t) by {
                assert(has_key(pb@, o, t) <==> has_key(pbprev, o, t) || (o == leg.owner && t
                    == leg.token));
                if has_key(ns@.take(k as int + 1), o, t) {
                    let m = choose|m: int|
                        0 <= m < ns@.take(k as int + 1).len() && (#[trigger] ns@.take(
                            k as int + 1,
                        )[m]).owner == o && ns@.take(k as int + 1)[m].token == t;
                    if m < k as int {
                        assert(ns@.take(k as int)[m].owner == o);
                    }
                }
                if has_key(ns@.take(k as int), o, t) {
                    let m = choose|m: int|
                        0 <= m < ns@.take(k as int).len() && (#[trigger] ns@.take(k as int)[
                        m]).owner == o && ns@.take(k as int)[m].token == t;
                    assert(ns@.take(k as int + 1)[m].owner == o);
                }
                if o == leg.owner && t == leg.token {
                    assert(ns@.take(k as int + 1)[k as int].owner == o);
                }
            }
            assert forall|m: int| 0 <= m < pb@.len() implies (#[trigger] pb@[m]).amount as int
                == cur.ledger.bal(pb@[m].token, pb@[m].owner) by {
                if pb@[m] == entry {
                } else {
                    assert(pbprev.contains(pb@[m]));
                    let w = choose|w: int| 0 <= w < pbprev.len() && pbprev[w] == pb@[m];
                }
            }
        }
        k += 1;
    }
    proof {
        assert(ns@.take(ns@.len() as int) =~= ns@);
    }
    let mut k2: usize = 0;
    while k2 < nt.len()
        invariant
            k2 <= nt@.len(),
            *ctx == cur,
            cur.ledger.wf(),
            legs_sorted(pb@),
            legs_sorted(nt@),
            forall|o: Address, t: Address|
                #![trigger has_key(pb@, o, t)]
                has_key(pb@, o, t) <==> has_key(ns@, o, t) || has_key(nt@.take(k2 as int), o, t),
            forall|m: int|
                0 <= m < pb@.len() ==> (#[trigger] pb@[m]).amount as int == cur.ledger.bal(
                    pb@[m].token,
                    pb@[m].owner,
                ),
        decreases nt@.len() - k2,
    {
        let leg = nt[k2];
        let b = ctx.ledger.read_balance(&leg.token, &leg.owner);
        let ghost pbprev = pb@;
        let entry = AccountAmount { owner: leg.owner, token: leg.token, amount: b };
        upsert_leg_sorted(&mut pb, entry);
        proof {
            assert forall|o: Address, t: Address|
                has_key(pb@, o, t) <==> has_key(ns@, o, t) || has_key(
                    nt@.take(k2 as int + 1),
                    o,
                    t,
                ) by {
                assert(has_key(pb@, o, t) <==> has_key(pbprev, o, t) || (o == leg.owner && t
                    == leg.token));
                if has_key(nt@.take(k2 as int + 1), o, t) {
                    let m = choose|m: int|
                        0 <= m < nt@.take(k2 as int + 1).len() && (#[trigger] nt@.take(
                            k2 as int + 1,
                        )[m]).owner == o && nt@.take(k2 as int + 1)[m].token == t;
                    if m < k2 as int {
                        assert(nt@.take(k2 as int)[m].owner == o);
                    }
                }
                if has_key(nt@.take(k2 as int), o, t) {
                    let m = choose|m: int|
                        0 <= m < nt@.take(k2 as int).len() && (#[trigger] nt@.take(k2 as int)[
                        m]).owner == o && nt@.take(k2 as int)[m].token == t;
                    assert(nt@.take(k2 as int + 1)[m].owner == o);
                }
                if o == leg.owner && t == leg.token {
                    assert(nt@.take(k2 as int + 1)[k2 as int].owner == o);
                }
            }
            assert forall|m: int| 0 <= m < pb@.len() implies (#[trigger] pb@[m]).amount as int
                == cur.ledger.bal(pb@[m].token, pb@[m].owner) by {
                if pb@[m] == entry {
                } else {
                    assert(pbprev.contains(pb@[m]));
                    let w = choose|w: int| 0 <= w < pbprev.len() && pbprev[w] == pb@[m];
                }
            }
        }
        k2 += 1;
    }
    proof {
        assert(nt@.take(nt@.len() as int) =~= nt@);
    }
    let ghost gns = ns@;
    let ghost gnt = nt@;
    let ghost gpb = pb@;
    let ev = TokenEvent {
        descriptor: String::from_str("transfer-from-wasm"),
        level: EventLevel::Tx,
        operation: (TokenOperation::MultiTransfer { sources: ns, targets: nt, post_balances: pb }),
    };
    ctx.emit(ev);
    proof {
        assert(final(ctx).events@.drop_last() =~= old(ctx).events@);
        assert(event_is_multi(final(ctx).events@.last(), *old(ctx), gs, gt, *final(ctx)));
    }
    Ok(debited)
}

/// Membership of an account's transparent-pool address in a vin set.
pub open spec fn vin_member(vins: Set<TAddr>) -> spec_fn(Address) -> bool {
    |a: Address| vins.contains(spec_addr_taddr(a))
}

/// The shielded-movement authorizers: the debited accounts whose
/// transparent-pool address the shielded payload claims as an input, in
/// canonical order.
pub open spec fn auth_filter(debited: Seq<Address>, vins: Set<TAddr>) -> Seq<Address> {
    debited.filter(vin_member(vins))
}

/// One filtering step at the end of the debited sequence.
proof fn lemma_auth_filter_push(s: Seq<Address>, vins: Set<TAddr>, a: Address)
    ensures
        auth_filter(s.push(a), vins) == if vins.contains(spec_addr_taddr(a)) {
            auth_filter(s, vins).push(a)
        } else {
            auth_filter(s, vins)
        },
{
    reveal(Seq::filter);
    assert(s.push(a).drop_last() =~= s);
    assert(s.push(a).last() == a);
}

/// The authorizer actions recorded for a list of authorizers, in order.
pub open spec fn auth_actions(auth: Seq<Address>) -> Seq<Action> {
    auth.map_values(|a: Address| Action::ShieldedAuthorizer(a))
}

/// What a successful shielded application did: payload found and accepted,
/// commitments appended, the section-reference action recorded, and one
/// authorizer action per reconciled account, whose count equals the number
/// of distinct vin addresses.
pub open spec fn shielded_ok(
    pre: Ctx,
    h: MaspTxId,
    debited: Seq<Address>,
    sections: Seq<ShieldedPayload>,
    post: Ctx,
) -> bool {
    match find_section(sections, h) {
        Option::Some(p) => {
            &&& p.proofs_valid
            &&& pre.tree.commitments@.len() + p.commitments@.len() <= pre.tree.capacity
            &&& auth_filter(debited, vin_addresses(p).to_set()).len() == vin_addresses(
                p,
            ).to_set().len()
            &&& post.tree.capacity == pre.tree.capacity
            &&& post.tree.commitments@ == pre.tree.commitments@ + p.commitments@
            &&& post.ledger == pre.ledger
            &&& post.verifiers == pre.verifiers
            &&& post.events == pre.events
            &&& post.commitment_sentinel == pre.commitment_sentinel
            &&& post.actions@ == pre.actions@.push(Action::ShieldedSectionReferenced(h))
                + auth_actions(auth_filter(debited, vin_addresses(p).to_set()))
        },
        Option::None => false,
    }
}

/// The context is unchanged in content.
pub open spec fn ctx_same(pre: Ctx, post: Ctx) -> bool {
    &&& post.ledger == pre.ledger
    &&& post.verifiers == pre.verifiers
    &&& post.actions == pre.actions
    &&& post.events == pre.events
    &&& post.tree.commitments@ == pre.tree.commitments@
    &&& post.tree.capacity == pre.tree.capacity
    &&& post.commitment_sentinel == pre.commitment_sentinel
}

/// Which failure a shielded application reports, exactly when, and what it
/// left behind: a missing section poisons the commitment-tree sentinel; a
/// rejected payload or a full tree leaves the context untouched; an
/// authorization mismatch leaves the appended commitments and the recorded
/// section reference, but no authorizer action.
pub open spec fn shielded_err(
    pre: Ctx,
    h: MaspTxId,
    debited: Seq<Address>,
    sections: Seq<ShieldedPayload>,
    post: Ctx,
    e: TransferError,
) -> bool {
    match find_section(sections, h) {
        Option::None => {
            &&& e == TransferError::MissingShieldedSection
            &&& post.ledger == pre.ledger
            &&& post.verifiers == pre.verifiers
            &&& post.actions == pre.actions
            &&& post.events == pre.events
            &&& post.tree.commitments == pre.tree.commitments
            &&& post.tree.capacity == pre.tree.capacity
            &&& post.commitment_sentinel
        },
        Option::Some(p) => {
            if !p.proofs_valid {
                e == TransferError::ShieldedApplicationFailure && ctx_same(pre, post)
            } else if pre.tree.commitments@.len() + p.commitments@.len() > pre.tree.capacity {
                e == TransferError::CommitmentTreeFailure && ctx_same(pre, post)
            } else {
                &&& e == TransferError::AuthorizationMismatch
                &&& auth_filter(debited, vin_addresses(p).to_set()).len() != vin_addresses(
                    p,
                ).to_set().len()
                &&& post.ledger == pre.ledger
                &&& post.verifiers == pre.verifiers
                &&& post.events == pre.events
                &&& post.commitment_sentinel == pre.commitment_sentinel
                &&& post.tree.capacity == pre.tree.capacity
                &&& post.tree.commitments@ == pre.tree.commitments@ + p.commitments@
                &&& post.actions@ == pre.actions@.push(Action::ShieldedSectionReferenced(h))
            }
        },
    }
}

/// Duplicate a vector of transparent-pool addresses.
fn copy_taddrs(v: &Vec<TAddr>) -> (r: Vec<TAddr>)
    ensures
        r@ == v@,
{
    let mut r: Vec<TAddr> = Vec::new();
    let mut i: usize = 0;
    while i < v.len()
        invariant
            i <= v@.len(),
            r@ == v@.take(i as int),
        decreases v@.len() - i,
    {
        r.push(v[i]);
        proof {
            assert(r@ =~= v@.take(i as int + 1));
        }
        i += 1;
    }
    proof {
        assert(v@.take(i as int) =~= v@);
    }
    r
}

/// Whether the vector holds the given transparent-pool address.
fn taddrs_contains(v: &Vec<TAddr>, x: &TAddr) -> (r: bool)
    ensures
        r == v@.contains(*x),
{
    let mut i: usize = 0;
    while i < v.len()
        invariant
            i <= v@.len(),
            forall|m: int| 0 <= m < i ==> v@[m] != *x,
        decreases v@.len() - i,
    {
        if v[i] == *x {
            return true;
        }
        i += 1;
    }
    false
}

/// Count the distinct transparent-pool addresses of a vector.
fn count_distinct_taddrs(v: &Vec<TAddr>) -> (c: usize)
    ensures
        c as int == v@.to_set().len(),
{
    broadcast use vstd::set::group_set_axioms, vstd::seq_lib::seq_to_set_is_finite;

    let mut c: usize = 0;
    let mut i: usize = 0;
    proof {
        broadcast use vstd::set::axiom_set_empty_len;

        assert(v@.take(0).to_set() =~= Set::<TAddr>::empty());
    }
    while i < v.len()
        invariant
            i <= v@.len(),
            c <= i,
            c as int == v@.take(i as int).to_set().len(),
        decreases v@.len() - i,
    {
        broadcast use vstd::set::group_set_axioms, vstd::seq_lib::seq_to_set_is_finite;

        let x = v[i];
        let mut seen = false;
        let mut m: usize = 0;
        while m < i
            invariant
                m <= i <= v@.len(),
                seen == exists|w: int| 0 <= w < m && v@[w] == x,
            decreases i - m,
        {
            if v[m] == x {
                seen = true;
                proof {
                    assert(v@[m as int] == x);
                }
            }
            m += 1;
        }
        proof {
            assert(v@.take(i as int + 1).to_set() =~= v@.take(i as int).to_set().insert(x)) by {
                assert forall|y: TAddr| #[trigger]
                    v@.take(i as int + 1).contains(y) <==> v@.take(i as int).contains(y) || y == x
                    by {
                    if v@.take(i as int + 1).contains(y) {
                        let w = choose|w: int|
                            0 <= w < v@.take(i as int + 1).len() && (#[trigger] v@.take(
                                i as int + 1,
                            )[w]) == y;
                        if w < i as int {
                            assert(v@.take(i as int)[w] == y);
                        }
                    }
                    if v@.take(i as int).contains(y) {
                        let w = choose|w: int|
                            0 <= w < v@.take(i as int).len() && (#[trigger] v@.take(i as int)[w])
                                == y;
                        assert(v@.take(i as int + 1)[w] == y);
                    }
                    if y == x {
                        assert(v@.take(i as int + 1)[i as int] == y);
                    }
                }
            }
            assert(seen == v@.take(i as int).contains(x)) by {
                if seen {
                    let w = choose|w: int| 0 <= w < i && v@[w] == x;
                    assert(v@.take(i as int)[w] == x);
                }
                if v@.take(i as int).contains(x) {
                    let w = choose|w: int|
                        0 <= w < v@.take(i as int).len() && (#[trigger] v@.take(i as int)[w])
                            == x;
                    assert(v@[w] == x);
                }
            }
        }
        if !seen {
            c += 1;
        }
        i += 1;
    }
    proof {
        assert(v@.take(i as int) =~= v@);
    }
    c
}

/// Apply a shielded transfer: resolve the referenced section in the
/// transaction body, apply the payload through the pool's cryptographic
/// checks, append its commitments to the tree, record the section-reference
/// action, and reconcile the payload's authorizing transparent addresses
/// against the transparently debited accounts.  Every vin address must be
/// backed by a debited account of this same transaction; on success one
/// authorizer action is recorded per reconciled account, after the
/// section-reference action.
pub fn apply_shielded_transfer(
    ctx: &mut Ctx,
    masp_section_ref: MaspTxId,
    debited_accounts: Vec<Address>,
    tx_data: &BatchedTx,
) -> (r: Result<(), TransferError>)
    requires
        old(ctx).wf(),
        addrs_sorted(debited_accounts@),
    ensures
        final(ctx).wf(),
        match r {
            Ok(u) => shielded_ok(
                *old(ctx),
                masp_section_ref,
                debited_accounts@,
                tx_data.tx.masp_sections@,
                *final(ctx),
            ),
            Err(e) => shielded_err(
                *old(ctx),
                masp_section_ref,
                debited_accounts@,
                tx_data.tx.masp_sections@,
                *final(ctx),
                e,
            ),
        },
{
    let shielded = match tx_data.tx.get_masp_section(&masp_section_ref) {
        Some(p) => p,
        None => {
            ctx.set_commitment_sentinel();
            return Err(TransferError::MissingShieldedSection);
        },
    };
    if !shielded.proofs_valid {
        return Err(TransferError::ShieldedApplicationFailure);
    }
    match ctx.tree.update_commitment_tree(shielded) {
        Ok(u) => {},
        Err(e) => {
            return Err(e);
        },
    }
    ctx.push_action(Action::ShieldedSectionReferenced(masp_section_ref));
    let vins: Vec<TAddr> = match &shielded.transparent_bundle {
        Some(b) => copy_taddrs(&b.vin),
        None => Vec::new(),
    };
    proof {
        assert(vins@ == vin_addresses(*shielded));
    }
    let ghost vset = vins@.to_set();
    let vin_count = count_distinct_taddrs(&vins);
    let ghost base = *ctx;
    let mut auth: Vec<Address> = Vec::new();
    let mut i: usize = 0;
    while i < debited_accounts.len()
        invariant
            i <= debited_accounts@.len(),
            *ctx == base,
            vset == vins@.to_set(),
            auth@ == auth_filter(debited_accounts@.take(i as int), vset),
        decreases debited_accounts@.len() - i,
    {
        broadcast use vstd::set::group_set_axioms;

        let a = debited_accounts[i];
        let ta = addr_taddr(&a);
        if taddrs_contains(&vins, &ta) {
            auth.push(a);
        }
        proof {
            lemma_auth_filter_push(debited_accounts@.take(i as int), vset, a);
            assert(debited_accounts@.take(i as int).push(a) =~= debited_accounts@.take(
                i as int + 1,
            ));
        }
        i += 1;
    }
    proof {
        assert(debited_accounts@.take(debited_accounts@.len() as int) =~= debited_accounts@);
    }
    if auth.len() != vin_count {
        return Err(TransferError::AuthorizationMismatch);
    }
    let ghost base2 = *ctx;
    let mut k: usize = 0;
    while k < auth.len()
        invariant
            k <= auth@.len(),
            ctx.ledger == base2.ledger,
            ctx.verifiers == base2.verifiers,
            ctx.events == base2.events,
            ctx.tree.commitments == base2.tree.commitments,
            ctx.tree.capacity == base2.tree.capacity,
            ctx.commitment_sentinel == base2.commitment_sentinel,
            ctx.actions@ == base2.actions@ + auth_actions(auth@.take(k as int)),
        decreases auth@.len() - k,
    {
        let a = auth[k];
        ctx.push_action(Action::ShieldedAuthorizer(a));
        proof {
            assert(auth_actions(auth@.take(k as int + 1)) =~= auth_actions(
                auth@.take(k as int),
            ).push(Action::ShieldedAuthorizer(auth@[k as int])));
            assert(ctx.actions@ =~= base2.actions@ + auth_actions(auth@.take(k as int + 1)));
        }
        k += 1;
    }
    proof {
        assert(auth@.take(auth@.len() as int) =~= auth@);
        assert(final(ctx).actions@ =~= old(ctx).actions@.push(
            Action::ShieldedSectionReferenced(masp_section_ref),
        ) + auth_actions(auth@));
    }
    Ok(())
}

/// What a whole multi-part transfer application did: the transparent leg
/// first, when present, its debited accounts threaded into the shielded leg,
/// when present; any failure wrapped with its stage.
pub open spec fn multi_post(
    pre: Ctx,
    sources: Seq<AccountAmount>,
    targets: Seq<AccountAmount>,
    shash: Option<MaspTxId>,
    sections: Seq<ShieldedPayload>,
    post: Ctx,
    r: Result<(), MultiTransferError>,
) -> bool {
    if sources.len() == 0 && targets.len() == 0 {
        match shash {
            Option::Some(h) => match r {
                Result::Ok(_) => shielded_ok(pre, h, Seq::<Address>::empty(), sections, post),
                Result::Err(me) => me.stage == Stage::Shielded && shielded_err(
                    pre,
                    h,
                    Seq::<Address>::empty(),
                    sections,
                    post,
                    me.error,
                ),
            },
            Option::None => post == pre && r is Ok,
        }
    } else {
        match r {
            Result::Ok(_) => exists|mid: Ctx, debited: Seq<Address>|
                {
                    &&& #[trigger] transparent_ok(pre, sources, targets, mid, debited)
                    &&& match shash {
                        Option::Some(h) => shielded_ok(mid, h, debited, sections, post),
                        Option::None => post == mid,
                    }
                },
            Result::Err(me) => {
                ||| (me.stage == Stage::Transparent && post == pre && transparent_err(
                    pre,
                    sources,
                    targets,
                    me.error,
                ))
                ||| (me.stage == Stage::Shielded && exists|mid: Ctx, debited: Seq<Address>|
                    {
                        &&& #[trigger] transparent_ok(pre, sources, targets, mid, debited)
                        &&& match shash {
                            Option::Some(h) => shielded_err(
                                mid,
                                h,
                                debited,
                                sections,
                                post,
                                me.error,
                            ),
                            Option::None => false,
                        }
                    })
            },
        }
    }
}

/// Apply a transfer descriptor: the transparent multi-leg first, when
/// present, collecting the set of debited accounts; then the shielded leg,
/// when referenced, reconciling its authorizing addresses against that set.
/// A failure is wrapped with the stage that produced it; a transparent
/// mutation is not rolled back by a later shielded failure — discarding the
/// writes of a failed transaction belongs to the enclosing environment.
pub fn multi_transfer(ctx: &mut Ctx, transfers: Transfer, tx_data: &BatchedTx) -> (r: Result<
    (),
    MultiTransferError,
>)
    requires
        old(ctx).wf(),
    ensures
        final(ctx).wf(),
        multi_post(
            *old(ctx),
            transfers.sources@,
            transfers.targets@,
            transfers.shielded_section_hash,
            tx_data.tx.masp_sections@,
            *final(ctx),
            r,
        ),
{
    let ghost gs = transfers.sources@;
    let ghost gt = transfers.targets@;
    let ghost shash = transfers.shielded_section_hash;
    let debited_accounts: Vec<Address> = match transfers.transparent_part() {
        Some(transparent) => {
            match apply_transparent_transfers(ctx, &transparent) {
                Ok(d) => d,
                Err(e) => {
                    return Err(MultiTransferError { stage: Stage::Transparent, error: e });
                },
            }
        },
        None => Vec::new(),
    };
    let ghost mid = *ctx;
    let ghost deb = debited_accounts@;
    proof {
        if gs.len() == 0 && gt.len() == 0 {
            assert(deb =~= Seq::<Address>::empty());
        }
    }
    if let Some(masp_section_ref) = transfers.shielded_section_hash {
        match apply_shielded_transfer(ctx, masp_section_ref, debited_accounts, tx_data) {
            Ok(u) => {},
            Err(e) => {
                proof {
                    if gs.len() > 0 || gt.len() > 0 {
                        assert(transparent_ok(*old(ctx), gs, gt, mid, deb));
                        assert(shielded_err(
                            mid,
                            masp_section_ref,
                            deb,
                            tx_data.tx.masp_sections@,
                            *final(ctx),
                            e,
                        ));
                    }
                }
                return Err(MultiTransferError { stage: Stage::Shielded, error: e });
            },
        }
        proof {
            if gs.len() > 0 || gt.len() > 0 {
                assert(transparent_ok(*old(ctx), gs, gt, mid, deb));
                assert(shielded_ok(
                    mid,
                    masp_section_ref,
                    deb,
                    tx_data.tx.masp_sections@,
                    *final(ctx),
                ));
            }
        }
    } else {
        proof {
            if gs.len() > 0 || gt.len() > 0 {
                assert(transparent_ok(*old(ctx), gs, gt, mid, deb));
                assert(*final(ctx) == mid);
            }
        }
    }
    Ok(())
}

} // verus!
