//! What the mempool, the executor, the guard and consensus promise together.

use phi::account::AccountId;
use phi::cargo::{AuditViolation, FigGovernor, GuardError, PeerId, Throttle, ThrottleConfig};
use phi::consensus::{vote_message, EquivocationDetector, Vote};
use phi::crypto::{Keypair, Signature};
use phi::engine::{verify_chain, ConsensusEngine, RoundOutcome};
use phi::executor;
use phi::mempool::{AdmissionError, Mempool, DEFAULT_MAX_PENDING};
use phi::receipt::{Receipt, TxError};
use phi::state::State;
use phi::transaction::Transaction;

fn id(label: &str) -> AccountId {
    AccountId::from_label(label)
}

fn funded(labels: &[&str]) -> State {
    let mut state = State::new();
    for label in labels {
        state.genesis_account(id(label), 1_000);
    }
    state
}

fn pay(from: &str, nonce: u64, to: &str, amount: u64) -> Transaction {
    Transaction::transfer(id(from), nonce, id(to), amount)
}

fn ballot(keypair: &Keypair, validator: u32, block: u8, view: u64, approve: bool) -> Vote {
    let block_hash = phi::hash::Hash::of(&[block]);
    Vote {
        validator,
        block_hash,
        height: 1,
        view,
        approve,
        signature: keypair.sign(vote_message(&block_hash, 1, view, approve).as_bytes()),
    }
}

#[test]
fn admission_names_each_refusal() {
    let state = funded(&["alice", "bob"]);
    let mut pool = Mempool::with_capacity(2, 3);
    assert_eq!(pool.submit(pay("alice", 0, "bob", 1), &state), Ok(()));
    assert_eq!(
        pool.submit(pay("alice", 0, "bob", 1), &state),
        Err(AdmissionError::Duplicate)
    );
    assert_eq!(
        pool.submit(pay("alice", 3, "bob", 1), &state),
        Err(AdmissionError::Invalid(TxError::BadNonce { expected: 1, got: 3 }))
    );
    assert_eq!(pool.submit(pay("alice", 1, "bob", 1), &state), Ok(()));
    assert_eq!(
        pool.submit(pay("alice", 2, "bob", 1), &state),
        Err(AdmissionError::QuotaExceeded)
    );
    assert_eq!(pool.submit(pay("bob", 0, "alice", 1), &state), Ok(()));
    assert_eq!(
        pool.submit(pay("bob", 1, "alice", 1), &state),
        Err(AdmissionError::Full)
    );
    assert_eq!(pool.len(), 3);
    assert_eq!(DEFAULT_MAX_PENDING, 100_000);
}

#[test]
fn a_new_window_renews_the_quota() {
    let state = funded(&["alice"]);
    let mut pool = Mempool::new(1);
    assert_eq!(pool.submit(pay("alice", 0, "bob", 1), &state), Ok(()));
    assert_eq!(
        pool.submit(pay("alice", 1, "bob", 1), &state),
        Err(AdmissionError::QuotaExceeded)
    );
    pool.reset_window();
    assert_eq!(pool.submit(pay("alice", 1, "bob", 1), &state), Ok(()));
    assert!(!pool.is_empty());
}

#[test]
fn queued_spends_count_against_the_balance() {
    let state = funded(&["alice"]);
    let mut pool = Mempool::new(10);
    assert_eq!(pool.submit(pay("alice", 0, "bob", 600), &state), Ok(()));
    assert_eq!(
        pool.submit(pay("alice", 1, "bob", 401), &state),
        Err(AdmissionError::Invalid(TxError::InsufficientBalance { have: 400, need: 401 }))
    );
    assert_eq!(pool.submit(pay("alice", 1, "bob", 400), &state), Ok(()));
}

#[test]
fn putting_a_batch_back_undoes_taking_it() {
    let state = funded(&["alice", "bob"]);
    let mut pool = Mempool::new(10);
    let txs = vec![pay("alice", 0, "x", 1), pay("bob", 0, "x", 1), pay("alice", 1, "x", 1)];
    for tx in &txs {
        assert!(pool.can_consider(tx, &state));
        assert_eq!(pool.submit(tx.clone(), &state), Ok(()));
    }
    let batch = pool.take_batch(2);
    assert_eq!(batch, txs[..2].to_vec());
    assert_eq!(pool.len(), 1);
    assert!(pool.can_requeue(&batch));
    pool.requeue_front(batch);
    assert_eq!(
        pool.submit(txs[0].clone(), &state),
        Err(AdmissionError::Duplicate)
    );
    assert_eq!(pool.take_batch(9), txs);
    assert!(pool.is_empty());
}

#[test]
fn higher_fees_go_first_but_nonces_stay_in_order() {
    let state = funded(&["alice", "bob"]);
    let mut pool = Mempool::new(10);
    let a0 = pay("alice", 0, "x", 1).with_max_fee(1);
    let a1 = pay("alice", 1, "x", 1).with_max_fee(9);
    let b0 = pay("bob", 0, "x", 1).with_max_fee(5);
    for tx in [&a0, &a1, &b0] {
        assert_eq!(pool.submit(tx.clone(), &state), Ok(()));
    }
    assert_eq!(pool.take_priority_batch(2), vec![b0, a0]);
    assert_eq!(pool.take_priority_batch(2), vec![a1]);
}

#[test]
fn parallel_execution_equals_serial_even_with_undeclared_senders() {
    // The second transaction does not declare its sender, which the first one
    // funds: it must still see the first one's effect on that account.
    let mut undeclared = pay("bob", 0, "carol", 1_001);
    undeclared.access.writes = vec![id("carol")];
    let txs = vec![
        pay("alice", 0, "bob", 10),
        undeclared,
        pay("carol", 0, "dave", 1),
        pay("bob", 0, "erin", 1_010),
    ];
    let mut serial = funded(&["alice", "bob", "carol"]);
    let expected: Vec<Receipt> = txs.iter().map(|tx| serial.apply_tx(tx)).collect();
    let mut state = funded(&["alice", "bob", "carol"]);
    let out = executor::execute(&mut state, &txs);
    assert_eq!(out.receipts, expected);
    assert_eq!(out.state_root, serial.root());
    assert_eq!(out.fees_burned, 0);
    assert_eq!(expected[1].result, Err(TxError::AccessViolation));
    assert_eq!(expected[3].result, Ok(()));
}

#[test]
fn waves_keep_conflicting_transactions_apart_and_in_order() {
    let txs = vec![
        pay("a", 0, "b", 1),
        pay("c", 0, "d", 1),
        pay("b", 0, "c", 1),
        pay("e", 0, "f", 1),
    ];
    let waves = executor::conflict_groups(&txs);
    assert_eq!(waves, vec![vec![0, 1, 3], vec![2]]);
    assert_eq!(executor::conflict_groups(&[]), Vec::<Vec<usize>>::new());
}

#[test]
fn a_sandbox_holds_what_its_transaction_touches_and_no_more() {
    let mut state = funded(&["alice", "bob", "carol"]);
    state.set_chain_id(8);
    let tx = pay("alice", 0, "bob", 25).with_chain_id(8);
    let mut sandbox = executor::sandbox(&state, &tx);
    assert_eq!(sandbox.account_count(), 2);
    assert_eq!(sandbox.chain_id(), 8);
    assert_eq!(sandbox.apply_tx(&tx).result, Ok(()));
    executor::merge(&mut state, &sandbox, &tx);
    assert_eq!(state.balance(&id("alice")), 975);
    assert_eq!(state.balance(&id("bob")), 1_025);
    assert_eq!(state.balance(&id("carol")), 1_000);
}

#[test]
fn the_guard_screens_mints() {
    let governor = FigGovernor { minter: Some(id("treasury")), max_mint_per_block: 100 };
    assert_eq!(governor.screen_tx(&pay("alice", 0, "bob", 1)), Ok(()));
    assert_eq!(
        governor.screen_tx(&Transaction::mint(id("eve"), 0, id("eve"), 1)),
        Err(GuardError::UnauthorizedMint { sender: id("eve") })
    );
    assert_eq!(
        governor.screen_tx(&Transaction::mint(id("treasury"), 0, id("bob"), 101)),
        Err(GuardError::MintCapExceeded { requested: 101, cap: 100 })
    );
    assert_eq!(
        governor.screen_tx(&Transaction::mint(id("treasury"), 0, id("bob"), 100)),
        Ok(())
    );
    // Without an authority issuance is frozen.
    assert_eq!(
        FigGovernor::default().screen_tx(&Transaction::mint(id("treasury"), 0, id("bob"), 1)),
        Err(GuardError::UnauthorizedMint { sender: id("treasury") })
    );
}

#[test]
fn the_audit_trips_on_each_violation() {
    let governor = FigGovernor { minter: Some(id("treasury")), max_mint_per_block: 100 };
    let ok = |tx: &Transaction, fee_paid: u64| Receipt { tx_id: tx.id(), result: Ok(()), fee_paid };
    let transfer = pay("alice", 0, "bob", 1);
    assert_eq!(governor.audit_block(50, 50, &[transfer.clone()], &[ok(&transfer, 0)]), Ok(()));
    // Burned fees are accounted for.
    assert_eq!(governor.audit_block(50, 43, &[transfer.clone()], &[ok(&transfer, 7)]), Ok(()));
    assert_eq!(
        governor.audit_block(50, 51, &[transfer.clone()], &[ok(&transfer, 0)]),
        Err(AuditViolation::SupplyMismatch { expected: 50, actual: 51 })
    );
    let stolen = Transaction::mint(id("eve"), 0, id("eve"), 5);
    assert_eq!(
        governor.audit_block(50, 55, &[stolen.clone()], &[ok(&stolen, 0)]),
        Err(AuditViolation::UnauthorizedMint { tx_id: stolen.id() })
    );
    let a = Transaction::mint(id("treasury"), 0, id("bob"), 60);
    let b = Transaction::mint(id("treasury"), 1, id("bob"), 41);
    assert_eq!(
        governor.audit_block(50, 151, &[a.clone(), b.clone()], &[ok(&a, 0), ok(&b, 0)]),
        Err(AuditViolation::MintCapExceeded { minted: 101, cap: 100 })
    );
}

#[test]
fn honest_blocks_pass_the_audit() {
    let governor = FigGovernor { minter: Some(id("treasury")), max_mint_per_block: 100 };
    let mut pre = funded(&["alice", "treasury"]);
    pre.set_minter(Some(id("treasury")));
    pre.set_base_fee(2);
    let txs = vec![
        pay("alice", 0, "bob", 10).with_max_fee(2),
        Transaction::mint(id("treasury"), 0, id("bob"), 100).with_max_fee(2),
        pay("alice", 1, "bob", 5_000).with_max_fee(2),
    ];
    let mut post = pre.clone();
    let receipts: Vec<Receipt> = txs.iter().map(|tx| post.apply_tx(tx)).collect();
    assert_eq!(post.total_supply(), pre.total_supply() + 100 - 4);
    assert_eq!(governor.audit_executed(&pre, &post, &txs, &receipts), Ok(()));
}

#[test]
fn throttling_one_peer_leaves_the_others_alone() {
    let config = ThrottleConfig { free_failures: 0, base_cooldown_ms: 10, max_cooldown_ms: 25 };
    let mut throttle = Throttle::new(config);
    let eve = PeerId::from_label("eve");
    let bob = PeerId::from_label("bob");
    for (failure, until) in [(1u32, 10u64), (2, 20), (3, 25), (4, 25)] {
        throttle.record_failure(eve, 0);
        assert_eq!(
            throttle.check(&eve, 0),
            Err(GuardError::CoolingDown { until_ms: until }),
            "failure {failure}"
        );
    }
    assert_eq!(throttle.check(&bob, 0), Ok(()));
    assert_eq!(throttle.check(&eve, 25), Ok(()));
    throttle.record_success(&eve);
    assert_eq!(throttle.check(&eve, 0), Ok(()));
    assert!(Throttle::counts_as_auth_failure(&TxError::AuthFailed));
    assert!(!Throttle::counts_as_auth_failure(&TxError::UnknownSender));
}

#[test]
fn quorum_sizes() {
    for (n, q) in [(1u32, 1usize), (2, 2), (3, 3), (4, 3), (5, 4), (6, 5), (7, 5), (10, 7)] {
        assert_eq!(ConsensusEngine::new(n, State::new()).quorum(), q, "{n} validators");
    }
}

#[test]
fn a_committed_chain_verifies_and_a_doctored_one_does_not() {
    let mut engine = ConsensusEngine::new(4, funded(&["alice"]));
    let start = engine.parent;
    for nonce in 0..3 {
        let outcome = engine.run_round(vec![pay("alice", nonce, "bob", 1)], nonce);
        assert!(matches!(outcome, RoundOutcome::Committed { .. }));
    }
    let keys = engine.validator_keys();
    let quorum = engine.quorum();
    assert!(verify_chain(&engine.chain, &start, &keys, quorum));
    assert!(!verify_chain(&engine.chain[1..], &start, &keys, quorum));
    assert!(!verify_chain(&engine.chain, &phi::hash::Hash::of(b"else"), &keys, quorum));
    assert!(!verify_chain(&engine.chain, &start, &keys[..2], quorum));
    engine.chain[1].0.header.timestamp_ms = 99;
    assert!(!verify_chain(&engine.chain, &start, &keys, quorum));
}

#[test]
fn a_rejected_round_changes_no_ledger_and_hands_the_batch_back() {
    let mut engine = ConsensusEngine::new(4, funded(&["alice"]));
    let proposer = engine.proposer_index();
    engine.validators[proposer].byzantine = true;
    let root = engine.canonical_state().root();
    let batch = vec![pay("alice", 0, "bob", 5)];
    match engine.run_round(batch.clone(), 1) {
        RoundOutcome::Rejected { approvals, needed, txs, .. } => {
            assert!(approvals < needed);
            assert_eq!(txs, batch);
        }
        other => panic!("expected a rejection, got {other:?}"),
    }
    assert_eq!((engine.height, engine.view, engine.chain.len()), (0, 1, 0));
    assert_eq!(engine.canonical_state().root(), root);
    assert!(engine.slashing_evidence.is_empty());
    assert!(matches!(engine.run_round(batch, 2), RoundOutcome::Committed { .. }));
}

#[test]
fn double_votes_are_found_in_either_order() {
    let kp = Keypair::from_label("v");
    let keys = vec![kp.public()];
    let yes = ballot(&kp, 0, 1, 5, true);
    let other = ballot(&kp, 0, 2, 5, true);
    let next = ballot(&kp, 0, 2, 6, true);
    for (first, second) in [(yes, other), (other, yes)] {
        let mut detector = EquivocationDetector::new();
        assert_eq!(detector.observe(first), None);
        assert_eq!(detector.observe(first), None);
        assert_eq!(detector.observe(next), None);
        let evidence = detector.observe(second).unwrap();
        assert_eq!((evidence.validator, evidence.view), (0, 5));
        assert!(evidence.verify(&keys));
        assert!(!evidence.verify(&[Keypair::from_label("w").public()]));
    }
}

#[test]
fn votes_bind_everything_they_speak_of() {
    let kp = Keypair::from_label("v");
    let keys = vec![kp.public()];
    let vote = ballot(&kp, 0, 1, 5, true);
    assert!(vote.verify(&keys));
    let mut tampered = vec![vote; 5];
    tampered[0].block_hash = phi::hash::Hash::of(&[2]);
    tampered[1].height = 2;
    tampered[2].view = 6;
    tampered[3].approve = false;
    tampered[4].signature = Signature([0; 64]);
    for v in tampered {
        assert!(!v.verify(&keys));
    }
    let mut stranger = vote;
    stranger.validator = 1;
    assert!(!stranger.verify(&keys));
}
