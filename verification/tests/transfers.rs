use token_transfer::addr::{addr_taddr, Address};
use token_transfer::ctx::{Action, Ctx};
use token_transfer::error::{Stage, TransferError};
use token_transfer::event::{EventLevel, TokenOperation};
use token_transfer::ledger::Ledger;
use token_transfer::legs::AccountAmount;
use token_transfer::shielded::{BatchedTx, MaspTxId, ShieldedPayload, TransparentBundle, Tx};
use token_transfer::token::{
    apply_shielded_transfer, apply_transparent_transfers, multi_transfer, transfer, Transfer,
    TransparentTransfersRef,
};

fn addr(id: u64) -> Address {
    Address { id, internal: false }
}

fn itoken(id: u64) -> Address {
    Address { id, internal: true }
}

fn leg(owner: Address, token: Address, amount: u128) -> AccountAmount {
    AccountAmount { owner, token, amount }
}

fn ctx_with(balances: &[(Address, Address, u128)], cap: usize) -> Ctx {
    let mut ledger = Ledger::new();
    for (t, o, a) in balances {
        ledger.set_balance(t, o, *a);
    }
    Ctx::new(ledger, cap)
}

fn multi_op(ctx: &Ctx) -> (Vec<AccountAmount>, Vec<AccountAmount>, Vec<AccountAmount>) {
    assert_eq!(ctx.events.len(), 1);
    let ev = &ctx.events[0];
    assert_eq!(ev.descriptor, "transfer-from-wasm");
    assert!(matches!(ev.level, EventLevel::Tx));
    match &ev.operation {
        TokenOperation::MultiTransfer { sources, targets, post_balances } => {
            (sources.clone(), targets.clone(), post_balances.clone())
        },
        _ => panic!("expected a multi-transfer event"),
    }
}

#[test]
fn example_scenario() {
    let alice = addr(1);
    let bob = addr(2);
    let carol = addr(3);
    let tkn = addr(10);
    let mut ctx = ctx_with(&[(tkn, alice, 100), (tkn, bob, 5), (tkn, carol, 0)], 64);
    let transfers = TransparentTransfersRef {
        sources: vec![leg(alice, tkn, 30)],
        targets: vec![leg(bob, tkn, 20), leg(carol, tkn, 10)],
    };
    let debited = apply_transparent_transfers(&mut ctx, &transfers).unwrap();
    assert_eq!(debited, vec![alice]);
    assert_eq!(ctx.ledger.read_balance(&tkn, &alice), 70);
    assert_eq!(ctx.ledger.read_balance(&tkn, &bob), 25);
    assert_eq!(ctx.ledger.read_balance(&tkn, &carol), 10);
    let (es, et, pb) = multi_op(&ctx);
    assert_eq!(es, vec![leg(alice, tkn, 30)]);
    assert_eq!(et, vec![leg(bob, tkn, 20), leg(carol, tkn, 10)]);
    assert_eq!(pb, vec![leg(alice, tkn, 70), leg(bob, tkn, 25), leg(carol, tkn, 10)]);
}

#[test]
fn single_transfer_success() {
    let src = addr(1);
    let dest = addr(2);
    let tkn = addr(9);
    let mut ctx = ctx_with(&[(tkn, src, 50)], 16);
    transfer(&mut ctx, &src, &dest, &tkn, 20).unwrap();
    assert_eq!(ctx.ledger.read_balance(&tkn, &src), 30);
    assert_eq!(ctx.ledger.read_balance(&tkn, &dest), 20);
    assert_eq!(ctx.verifiers, vec![src, dest]);
    assert_eq!(ctx.events.len(), 1);
    match &ctx.events[0].operation {
        TokenOperation::SingleTransfer {
            source,
            target,
            token,
            amount,
            source_post_balance,
            target_post_balance,
        } => {
            assert_eq!(*source, src);
            assert_eq!(*target, dest);
            assert_eq!(*token, tkn);
            assert_eq!(*amount, 20);
            assert_eq!(*source_post_balance, 30);
            assert_eq!(*target_post_balance, 20);
        },
        _ => panic!("expected a single-transfer event"),
    }
}

#[test]
fn single_transfer_insufficient() {
    let src = addr(1);
    let dest = addr(2);
    let tkn = addr(9);
    let mut ctx = ctx_with(&[(tkn, src, 5)], 16);
    let r = transfer(&mut ctx, &src, &dest, &tkn, 20);
    assert_eq!(r, Err(TransferError::InsufficientBalance));
    assert_eq!(ctx.ledger.read_balance(&tkn, &src), 5);
    assert_eq!(ctx.ledger.read_balance(&tkn, &dest), 0);
    assert!(ctx.events.is_empty());
    // verifier registration precedes the balance mutation
    assert_eq!(ctx.verifiers, vec![src, dest]);
}

#[test]
fn single_transfer_overflow() {
    let src = addr(1);
    let dest = addr(2);
    let tkn = addr(9);
    let mut ctx = ctx_with(&[(tkn, src, 50), (tkn, dest, u128::MAX)], 16);
    let r = transfer(&mut ctx, &src, &dest, &tkn, 1);
    assert_eq!(r, Err(TransferError::Overflow));
    assert_eq!(ctx.ledger.read_balance(&tkn, &src), 50);
    assert_eq!(ctx.ledger.read_balance(&tkn, &dest), u128::MAX);
}

#[test]
fn single_transfer_to_self() {
    let a = addr(4);
    let tkn = addr(9);
    let mut ctx = ctx_with(&[(tkn, a, 50)], 16);
    transfer(&mut ctx, &a, &a, &tkn, 50).unwrap();
    assert_eq!(ctx.ledger.read_balance(&tkn, &a), 50);
    assert_eq!(ctx.verifiers, vec![a]);
}

#[test]
fn internal_token_registers_verifier() {
    let src = addr(1);
    let dest = addr(2);
    let tkn = itoken(9);
    let mut ctx = ctx_with(&[(tkn, src, 50)], 16);
    transfer(&mut ctx, &src, &dest, &tkn, 10).unwrap();
    assert_eq!(ctx.verifiers, vec![src, dest, tkn]);
}

#[test]
fn zero_amount_leg_still_registers_and_reports() {
    let a = addr(1);
    let b = addr(2);
    let tkn = addr(9);
    let mut ctx = ctx_with(&[(tkn, a, 10)], 16);
    let transfers = TransparentTransfersRef {
        sources: vec![leg(a, tkn, 0)],
        targets: vec![leg(b, tkn, 0)],
    };
    let debited = apply_transparent_transfers(&mut ctx, &transfers).unwrap();
    // a zero-amount leg reduces nothing
    assert!(debited.is_empty());
    assert_eq!(ctx.verifiers, vec![a, b]);
    let (es, et, pb) = multi_op(&ctx);
    assert_eq!(es, vec![leg(a, tkn, 0)]);
    assert_eq!(et, vec![leg(b, tkn, 0)]);
    assert_eq!(pb, vec![leg(a, tkn, 10), leg(b, tkn, 0)]);
}

#[test]
fn duplicate_legs_are_summed() {
    let a = addr(1);
    let b = addr(2);
    let tkn = addr(9);
    let mut ctx = ctx_with(&[(tkn, a, 20)], 16);
    let transfers = TransparentTransfersRef {
        sources: vec![leg(a, tkn, 10), leg(a, tkn, 5)],
        targets: vec![leg(b, tkn, 15)],
    };
    let debited = apply_transparent_transfers(&mut ctx, &transfers).unwrap();
    assert_eq!(debited, vec![a]);
    assert_eq!(ctx.ledger.read_balance(&tkn, &a), 5);
    let (es, _, _) = multi_op(&ctx);
    assert_eq!(es, vec![leg(a, tkn, 15)]);
}

#[test]
fn summed_amount_overflow_is_rejected() {
    let a = addr(1);
    let tkn = addr(9);
    let mut ctx = ctx_with(&[(tkn, a, 20)], 16);
    let transfers = TransparentTransfersRef {
        sources: vec![leg(a, tkn, u128::MAX), leg(a, tkn, 1)],
        targets: vec![],
    };
    let r = apply_transparent_transfers(&mut ctx, &transfers);
    assert_eq!(r, Err(TransferError::Overflow));
    assert_eq!(ctx.ledger.read_balance(&tkn, &a), 20);
    assert!(ctx.events.is_empty());
    assert!(ctx.verifiers.is_empty());
}

#[test]
fn insufficient_balance_leaves_context_untouched() {
    let a = addr(1);
    let b = addr(2);
    let tkn = addr(9);
    let mut ctx = ctx_with(&[(tkn, a, 10)], 16);
    let transfers = TransparentTransfersRef {
        sources: vec![leg(a, tkn, 30)],
        targets: vec![leg(b, tkn, 30)],
    };
    let r = apply_transparent_transfers(&mut ctx, &transfers);
    assert_eq!(r, Err(TransferError::InsufficientBalance));
    assert_eq!(ctx.ledger.read_balance(&tkn, &a), 10);
    assert_eq!(ctx.ledger.read_balance(&tkn, &b), 0);
    assert!(ctx.events.is_empty());
    assert!(ctx.verifiers.is_empty());
}

#[test]
fn credited_balance_overflow_is_rejected() {
    let a = addr(1);
    let b = addr(2);
    let tkn = addr(9);
    let mut ctx = ctx_with(&[(tkn, a, 10), (tkn, b, u128::MAX - 5)], 16);
    let transfers = TransparentTransfersRef {
        sources: vec![leg(a, tkn, 10)],
        targets: vec![leg(b, tkn, 10)],
    };
    let r = apply_transparent_transfers(&mut ctx, &transfers);
    assert_eq!(r, Err(TransferError::Overflow));
    assert_eq!(ctx.ledger.read_balance(&tkn, &b), u128::MAX - 5);
}

#[test]
fn verifier_insertion_is_idempotent() {
    let a = addr(7);
    let mut ctx = ctx_with(&[], 16);
    ctx.insert_verifier(&a);
    ctx.insert_verifier(&a);
    assert_eq!(ctx.verifiers, vec![a]);
}

fn shielded_tx(payload: ShieldedPayload) -> BatchedTx {
    BatchedTx { tx: Tx { masp_sections: vec![payload] } }
}

#[test]
fn shielded_reconciliation_positive() {
    let a = addr(1);
    let b = addr(2);
    let tkn = addr(9);
    let h = MaspTxId { digest: 77 };
    let mut ctx = ctx_with(&[(tkn, a, 10), (tkn, b, 10)], 16);
    let payload = ShieldedPayload {
        id: h,
        transparent_bundle: Some(TransparentBundle { vin: vec![addr_taddr(&b), addr_taddr(&a)] }),
        commitments: vec![11, 12],
        proofs_valid: true,
    };
    let tx = shielded_tx(payload);
    let debited = vec![a, b];
    apply_shielded_transfer(&mut ctx, h, debited, &tx).unwrap();
    assert_eq!(
        ctx.actions,
        vec![
            Action::ShieldedSectionReferenced(h),
            Action::ShieldedAuthorizer(a),
            Action::ShieldedAuthorizer(b),
        ]
    );
    assert_eq!(ctx.tree.commitments, vec![11, 12]);
    assert!(!ctx.commitment_sentinel);
}

#[test]
fn shielded_reconciliation_negative() {
    let a = addr(1);
    let b = addr(2);
    let stranger = addr(3);
    let tkn = addr(9);
    let h = MaspTxId { digest: 77 };
    let mut ctx = ctx_with(&[(tkn, a, 10), (tkn, b, 10)], 16);
    let payload = ShieldedPayload {
        id: h,
        transparent_bundle: Some(TransparentBundle {
            vin: vec![addr_taddr(&a), addr_taddr(&b), addr_taddr(&stranger)],
        }),
        commitments: vec![],
        proofs_valid: true,
    };
    let tx = shielded_tx(payload);
    let r = apply_shielded_transfer(&mut ctx, h, vec![a, b], &tx);
    assert_eq!(r, Err(TransferError::AuthorizationMismatch));
    // the section reference is recorded, but no authorizer action is
    assert_eq!(ctx.actions, vec![Action::ShieldedSectionReferenced(h)]);
}

#[test]
fn missing_section_poisons_sentinel() {
    let h = MaspTxId { digest: 5 };
    let other = MaspTxId { digest: 6 };
    let mut ctx = ctx_with(&[], 16);
    let payload = ShieldedPayload {
        id: other,
        transparent_bundle: None,
        commitments: vec![],
        proofs_valid: true,
    };
    let tx = shielded_tx(payload);
    assert!(!ctx.commitment_sentinel);
    let r = apply_shielded_transfer(&mut ctx, h, vec![], &tx);
    assert_eq!(r, Err(TransferError::MissingShieldedSection));
    assert!(ctx.commitment_sentinel);
    assert!(ctx.actions.is_empty());
    assert!(ctx.tree.commitments.is_empty());
}

#[test]
fn rejected_payload_does_not_poison_sentinel() {
    let h = MaspTxId { digest: 5 };
    let mut ctx = ctx_with(&[], 16);
    let payload = ShieldedPayload {
        id: h,
        transparent_bundle: None,
        commitments: vec![1],
        proofs_valid: false,
    };
    let tx = shielded_tx(payload);
    let r = apply_shielded_transfer(&mut ctx, h, vec![], &tx);
    assert_eq!(r, Err(TransferError::ShieldedApplicationFailure));
    assert!(!ctx.commitment_sentinel);
    assert!(ctx.actions.is_empty());
    assert!(ctx.tree.commitments.is_empty());
}

#[test]
fn full_commitment_tree_fails() {
    let h = MaspTxId { digest: 5 };
    let mut ctx = ctx_with(&[], 1);
    let payload = ShieldedPayload {
        id: h,
        transparent_bundle: None,
        commitments: vec![1, 2],
        proofs_valid: true,
    };
    let tx = shielded_tx(payload);
    let r = apply_shielded_transfer(&mut ctx, h, vec![], &tx);
    assert_eq!(r, Err(TransferError::CommitmentTreeFailure));
    assert!(ctx.tree.commitments.is_empty());
    assert!(ctx.actions.is_empty());
}

#[test]
fn fully_shielded_payload_has_no_authorizers() {
    let h = MaspTxId { digest: 5 };
    let mut ctx = ctx_with(&[], 16);
    let payload = ShieldedPayload {
        id: h,
        transparent_bundle: None,
        commitments: vec![3],
        proofs_valid: true,
    };
    let tx = shielded_tx(payload);
    apply_shielded_transfer(&mut ctx, h, vec![], &tx).unwrap();
    assert_eq!(ctx.actions, vec![Action::ShieldedSectionReferenced(h)]);
    assert_eq!(ctx.tree.commitments, vec![3]);
}

#[test]
fn orchestrator_threads_debited_accounts() {
    let a = addr(1);
    let b = addr(2);
    let tkn = addr(9);
    let h = MaspTxId { digest: 42 };
    let mut ctx = ctx_with(&[(tkn, a, 50)], 16);
    let payload = ShieldedPayload {
        id: h,
        transparent_bundle: Some(TransparentBundle { vin: vec![addr_taddr(&a)] }),
        commitments: vec![8],
        proofs_valid: true,
    };
    let tx = shielded_tx(payload);
    let transfers = Transfer {
        sources: vec![leg(a, tkn, 30)],
        targets: vec![leg(b, tkn, 30)],
        shielded_section_hash: Some(h),
    };
    multi_transfer(&mut ctx, transfers, &tx).unwrap();
    assert_eq!(ctx.ledger.read_balance(&tkn, &a), 20);
    assert_eq!(ctx.ledger.read_balance(&tkn, &b), 30);
    assert_eq!(
        ctx.actions,
        vec![Action::ShieldedSectionReferenced(h), Action::ShieldedAuthorizer(a)]
    );
}

#[test]
fn orchestrator_wraps_stage_errors() {
    let a = addr(1);
    let b = addr(2);
    let tkn = addr(9);
    let h = MaspTxId { digest: 42 };
    let empty_tx = BatchedTx { tx: Tx { masp_sections: vec![] } };

    let mut ctx = ctx_with(&[(tkn, a, 5)], 16);
    let transfers = Transfer {
        sources: vec![leg(a, tkn, 30)],
        targets: vec![leg(b, tkn, 30)],
        shielded_section_hash: None,
    };
    let r = multi_transfer(&mut ctx, transfers, &empty_tx);
    let e = r.unwrap_err();
    assert_eq!(e.stage, Stage::Transparent);
    assert_eq!(e.error, TransferError::InsufficientBalance);

    let mut ctx2 = ctx_with(&[(tkn, a, 50)], 16);
    let transfers2 = Transfer {
        sources: vec![leg(a, tkn, 30)],
        targets: vec![leg(b, tkn, 30)],
        shielded_section_hash: Some(h),
    };
    let r2 = multi_transfer(&mut ctx2, transfers2, &empty_tx);
    let e2 = r2.unwrap_err();
    assert_eq!(e2.stage, Stage::Shielded);
    assert_eq!(e2.error, TransferError::MissingShieldedSection);
    assert!(ctx2.commitment_sentinel);
}

#[test]
fn execution_is_deterministic_under_reordering() {
    let a = addr(1);
    let b = addr(2);
    let c = addr(3);
    let tkn = addr(9);
    let h = MaspTxId { digest: 42 };
    let payload = ShieldedPayload {
        id: h,
        transparent_bundle: Some(TransparentBundle { vin: vec![addr_taddr(&a)] }),
        commitments: vec![8],
        proofs_valid: true,
    };
    let tx = shielded_tx(payload);
    let balances = [(tkn, a, 50), (tkn, b, 5)];
    let mut ctx1 = ctx_with(&balances, 16);
    let mut ctx2 = ctx_with(&balances, 16);
    let t1 = Transfer {
        sources: vec![leg(a, tkn, 30)],
        targets: vec![leg(b, tkn, 10), leg(c, tkn, 20)],
        shielded_section_hash: Some(h),
    };
    let t2 = Transfer {
        sources: vec![leg(a, tkn, 30)],
        targets: vec![leg(c, tkn, 20), leg(b, tkn, 10)],
        shielded_section_hash: Some(h),
    };
    let r1 = multi_transfer(&mut ctx1, t1, &tx);
    let r2 = multi_transfer(&mut ctx2, t2, &tx);
    assert_eq!(r1, r2);
    assert_eq!(ctx1.verifiers, ctx2.verifiers);
    assert_eq!(ctx1.actions, ctx2.actions);
    assert_eq!(ctx1.tree.commitments, ctx2.tree.commitments);
    for who in [a, b, c] {
        assert_eq!(
            ctx1.ledger.read_balance(&tkn, &who),
            ctx2.ledger.read_balance(&tkn, &who)
        );
    }
    let (es1, et1, pb1) = multi_op(&ctx1);
    let (es2, et2, pb2) = multi_op(&ctx2);
    assert_eq!(es1, es2);
    assert_eq!(et1, et2);
    assert_eq!(pb1, pb2);
}

#[test]
fn balance_conservation_per_token() {
    let a = addr(1);
    let b = addr(2);
    let c = addr(3);
    let tkn = addr(9);
    let mut ctx = ctx_with(&[(tkn, a, 100), (tkn, b, 40)], 16);
    let transfers = TransparentTransfersRef {
        sources: vec![leg(a, tkn, 25), leg(b, tkn, 5)],
        targets: vec![leg(c, tkn, 30)],
    };
    apply_transparent_transfers(&mut ctx, &transfers).unwrap();
    let total = ctx.ledger.read_balance(&tkn, &a) + ctx.ledger.read_balance(&tkn, &b)
        + ctx.ledger.read_balance(&tkn, &c);
    assert_eq!(total, 140);
}

#[test]
fn error_descriptions() {
    assert_eq!(
        TransferError::AuthorizationMismatch.describe(),
        "transfer transaction does not debit all the expected accounts"
    );
    assert_eq!(
        TransferError::MissingShieldedSection.describe(),
        "unable to find required shielded section in tx data"
    );
}

#[test]
fn empty_transfer_is_a_no_op() {
    let mut ctx = ctx_with(&[], 16);
    let transfers = Transfer { sources: vec![], targets: vec![], shielded_section_hash: None };
    let tx = BatchedTx { tx: Tx { masp_sections: vec![] } };
    multi_transfer(&mut ctx, transfers, &tx).unwrap();
    assert!(ctx.events.is_empty());
    assert!(ctx.verifiers.is_empty());
    assert!(ctx.actions.is_empty());
}
