//! Rounds, certificates, equivocation and view changes.

use phi::account::AccountId;
use phi::cargo::FigGovernor;
use phi::consensus::{EquivocationDetector, SlashingEvidence, Vote};
use phi::crypto::{Keypair, Signature, SIGNATURE_LEN};
use phi::engine::{ConsensusEngine, RoundOutcome, MAX_BLOCK_TXS};
use phi::receipt::TxError;
use phi::state::State;
use phi::transaction::Transaction;

fn id(label: &str) -> AccountId {
    AccountId::from_label(label)
}

fn genesis() -> State {
    let mut s = State::new();
    s.genesis_account(id("alice"), 1000);
    s.genesis_account(id("bob"), 0);
    s
}

#[test]
fn honest_round_commits_and_all_validators_agree() {
    let mut engine = ConsensusEngine::new(4, genesis());
    let txs = vec![Transaction::transfer(id("alice"), 0, id("bob"), 100)];
    match engine.run_round(txs, 1) {
        RoundOutcome::Committed {
            block,
            qc,
            receipts,
        } => {
            assert_eq!(block.header.height, 1);
            assert!(receipts.iter().all(|r| r.result.is_ok()));
            assert!(qc.verify(&engine.validator_keys(), engine.quorum()));
            let roots: Vec<phi::hash::Hash> = engine.validators.iter().map(|v| v.state.root()).collect();
            assert!(roots.windows(2).all(|w| w[0] == w[1]));
            assert_eq!(engine.canonical_state().balance(&id("bob")), 100);
        }
        other => panic!("expected commit, got {other:?}"),
    }
}

#[test]
fn bad_state_root_is_rejected_by_voters() {
    let engine = ConsensusEngine::new(4, genesis());
    let mut block =
        engine.propose(vec![Transaction::transfer(id("alice"), 0, id("bob"), 1)], 1);
    block.header.state_root = phi::hash::Hash::zero(); // corrupt the proposal
    let approvals = engine
        .validators
        .iter()
        .filter(|v| v.vote(&block, engine.view).approve)
        .count();
    assert_eq!(approvals, 0);
}

#[test]
fn proposer_rotates_round_robin() {
    let mut engine = ConsensusEngine::new(3, genesis());
    let mut proposers = Vec::new();
    for i in 0..3 {
        if let RoundOutcome::Committed { block, .. } = engine.run_round(vec![], i) {
            proposers.push(block.header.proposer);
        }
    }
    assert_eq!(proposers, vec![0, 1, 2]);
}

#[test]
fn byzantine_proposer_is_outvoted_then_view_change_recovers() {
    let mut engine = ConsensusEngine::new(4, genesis());
    engine.validators[0].byzantine = true;

    // View 0: the Byzantine validator proposes a corrupted root. Only
    // its own blind vote approves — safety holds.
    let txs = vec![Transaction::transfer(id("alice"), 0, id("bob"), 100)];
    let returned = match engine.run_round(txs, 1) {
        RoundOutcome::Rejected {
            proposer,
            approvals,
            needed,
            txs,
        } => {
            assert_eq!(proposer, 0);
            assert_eq!(approvals, 1);
            assert_eq!(needed, 3);
            txs
        }
        other => panic!("expected rejection, got {other:?}"),
    };
    assert_eq!(engine.height, 0, "nothing committed");
    assert_eq!(engine.canonical_state().balance(&id("bob")), 0);

    // View 1: an honest proposer commits the same batch (the Byzantine
    // validator's blind approval simply counts toward the honest block).
    match engine.run_round(returned, 2) {
        RoundOutcome::Committed { block, .. } => {
            assert_eq!(block.header.proposer, 1);
            assert_eq!(block.header.height, 1);
        }
        other => panic!("expected commit, got {other:?}"),
    }
    assert_eq!(engine.canonical_state().balance(&id("bob")), 100);
    let roots: Vec<phi::hash::Hash> = engine.validators.iter().map(|v| v.state.root()).collect();
    assert!(roots.windows(2).all(|w| w[0] == w[1]));
}

#[test]
fn quorum_certificate_tampering_detected() {
    let mut engine = ConsensusEngine::new(4, genesis());
    let RoundOutcome::Committed { qc, .. } =
        engine.run_round(vec![Transaction::transfer(id("alice"), 0, id("bob"), 1)], 1)
    else {
        panic!("expected commit");
    };
    let keys = engine.validator_keys();
    let quorum = engine.quorum();
    assert!(qc.verify(&keys, quorum));

    let mut wrong_block = qc.clone();
    wrong_block.block_hash = phi::hash::Hash::of(b"forged");
    assert!(!wrong_block.verify(&keys, quorum));

    let mut duplicated_signer = qc.clone();
    duplicated_signer.signers[1] = duplicated_signer.signers[0];
    duplicated_signer.signatures[1] = duplicated_signer.signatures[0];
    assert!(!duplicated_signer.verify(&keys, quorum));

    let mut truncated = qc.clone();
    truncated.signers.truncate(quorum - 1);
    truncated.signatures.truncate(quorum - 1);
    assert!(!truncated.verify(&keys, quorum));
}

#[test]
fn committed_receipts_record_runtime_failures() {
    let mut engine = ConsensusEngine::new(4, genesis());
    let txs = vec![
        Transaction::transfer(id("alice"), 0, id("bob"), 10),
        Transaction::transfer(id("alice"), 1, id("bob"), 999_999), // fails in-block
    ];
    let RoundOutcome::Committed { receipts, .. } = engine.run_round(txs, 1) else {
        panic!("expected commit");
    };
    assert!(receipts[0].result.is_ok());
    assert!(matches!(
        receipts[1].result,
        Err(TxError::InsufficientBalance { .. })
    ));
    // The failed attempt still consumed alice's nonce.
    assert_eq!(
        engine
            .canonical_state()
            .account(&id("alice"))
            .unwrap()
            .nonce,
        2
    );
}

#[test]
fn unauthorized_mint_rejected_by_ledger_then_allowed_after_governance() {
    let mut engine = ConsensusEngine::new(4, genesis());
    let supply_before = engine.canonical_state().total_supply();

    // Issuance is frozen by default. Eve's self-mint is rejected by the
    // base ledger itself: validators re-execute, get a failed receipt,
    // and the block commits with no figs created (supply unchanged).
    let exploit = vec![Transaction::mint(id("alice"), 0, id("alice"), 1_000_000)];
    let RoundOutcome::Committed { receipts, .. } = engine.run_round(exploit, 1) else {
        panic!("expected commit with a failed mint receipt");
    };
    assert_eq!(
        receipts[0].result,
        Err(TxError::UnauthorizedIssuance)
    );
    assert_eq!(engine.canonical_state().total_supply(), supply_before);

    // Governance grants alice issuance authority across both layers; the
    // mint now executes and the Cargo audit verifies the supply delta.
    // (The earlier rejection didn't consume alice's nonce, so it's still 0.)
    engine.set_issuance_authority(id("alice"), 1_000_000);
    let RoundOutcome::Committed { receipts, .. } = engine.run_round(
        vec![Transaction::mint(id("alice"), 0, id("alice"), 1_000_000)],
        2,
    ) else {
        panic!("expected commit");
    };
    assert!(receipts[0].result.is_ok());
    assert_eq!(
        engine.canonical_state().total_supply(),
        supply_before + 1_000_000
    );
}

#[test]
fn within_bounds_block_is_approved() {
    // Complements the wrong-chain test: an honest, in-bounds block is
    // approved. (The MAX_BLOCK_TXS rejection path is a single length
    // comparison in vote(); building 10k+ txs to exercise it would only
    // test the executor's throughput, not the bound.)
    let engine = ConsensusEngine::new(4, genesis());
    let block = engine.propose(vec![Transaction::transfer(id("alice"), 0, id("bob"), 1)], 1);
    assert!(block.transactions.len() <= MAX_BLOCK_TXS);
    assert!(engine.validators[1].vote(&block, engine.view).approve);
}

#[test]
fn wrong_chain_block_is_refused_by_voters() {
    let engine = ConsensusEngine::new(4, genesis());
    let mut block =
        engine.propose(vec![Transaction::transfer(id("alice"), 0, id("bob"), 1)], 1);
    // Re-stamp the header for a different network; honest voters refuse.
    block.header.chain_id = 999;
    assert!(!engine.validators[1].vote(&block, engine.view).approve);
}

#[test]
fn detector_flags_only_genuine_equivocation() {
    let engine = ConsensusEngine::new(4, genesis());
    let keys = engine.validator_keys();
    let v = &engine.validators[1];
    let mut detector = EquivocationDetector::new();

    let vote = v.sign_vote(phi::hash::Hash::of(b"block-A"), 1, 0, true);
    assert!(detector.observe(vote.clone()).is_none(), "first vote is fine");
    // An identical rebroadcast is not a fault.
    assert!(detector.observe(vote).is_none());

    // Same validator and view but a different block: equivocation.
    let conflicting = v.sign_vote(phi::hash::Hash::of(b"block-B"), 1, 0, true);
    let evidence = detector.observe(conflicting).expect("double-sign caught");
    assert!(evidence.verify(&keys));
    assert_eq!(evidence.validator, 1);

    // A vote in a *different* view is legitimate (honest cross-view voting).
    let next_view = v.sign_vote(phi::hash::Hash::of(b"block-C"), 1, 1, true);
    assert!(detector.observe(next_view).is_none());
}

#[test]
fn forged_or_nonconflicting_evidence_is_rejected() {
    let engine = ConsensusEngine::new(4, genesis());
    let keys = engine.validator_keys();
    let v2 = &engine.validators[2];

    let a = v2.sign_vote(phi::hash::Hash::of(b"x"), 1, 0, true);
    let b = v2.sign_vote(phi::hash::Hash::of(b"y"), 1, 0, true);

    // Two identical votes do not conflict.
    let identical = SlashingEvidence {
        validator: 2,
        view: 0,
        vote_a: a.clone(),
        vote_b: a.clone(),
    };
    assert!(!identical.verify(&keys));

    // A real conflict but accusing the wrong validator fails.
    let mislabeled = SlashingEvidence {
        validator: 1,
        view: 0,
        vote_a: a.clone(),
        vote_b: b.clone(),
    };
    assert!(!mislabeled.verify(&keys));

    // Tampering with a signature breaks verification.
    let mut tampered_b = b;
    tampered_b.signature.0[0] ^= 0xff;
    let tampered = SlashingEvidence {
        validator: 2,
        view: 0,
        vote_a: a,
        vote_b: tampered_b,
    };
    assert!(!tampered.verify(&keys));
}

#[test]
fn honest_consensus_produces_no_slashing_evidence() {
    let mut engine = ConsensusEngine::new(4, genesis());
    for i in 0..3 {
        engine.run_round(vec![], i);
    }
    assert!(engine.slashing_evidence.is_empty());
}

#[test]
fn engine_records_equivocation_from_a_gossiped_double_vote() {
    let mut engine = ConsensusEngine::new(4, genesis());
    engine.validators[2].byzantine = true;

    // View 0: a normal round. Every validator casts exactly one vote, so
    // the detector sees no fault even from the Byzantine validator.
    let RoundOutcome::Committed { .. } =
        engine.run_round(vec![Transaction::transfer(id("alice"), 0, id("bob"), 1)], 1)
    else {
        panic!("expected commit");
    };
    assert!(engine.slashing_evidence.is_empty());

    // The Byzantine validator gossips a SECOND, conflicting vote for the
    // same view (a different block hash): provable double-signing.
    let forged = engine.validators[2].sign_vote(phi::hash::Hash::of(b"a different block"), 1, 0, true);
    let evidence = engine
        .observe_external_vote(forged)
        .expect("equivocation detected");

    assert_eq!(evidence.validator, 2);
    assert_eq!(evidence.view, 0);
    assert!(evidence.verify(&engine.validator_keys()));
    assert_eq!(engine.slashing_evidence.len(), 1);

    // An unsigned/forged vote from an outsider is not admissible evidence.
    let garbage = Vote {
        validator: 0,
        block_hash: phi::hash::Hash::of(b"z"),
        height: 1,
        view: 0,
        approve: false,
        signature: Signature([0u8; SIGNATURE_LEN]),
    };
    assert!(engine.observe_external_vote(garbage).is_none());
    assert_eq!(engine.slashing_evidence.len(), 1);
}

#[test]
fn a_repeated_vote_is_no_equivocation() {
    let first = Vote {
        validator: 1,
        block_hash: phi::hash::Hash::zero(),
        height: 1,
        view: 0,
        approve: true,
        signature: Signature([0u8; SIGNATURE_LEN]),
    };
    let mut detector = EquivocationDetector::new();
    assert_eq!(detector.observe(first), None);
    // The same block and approval, under another signature or height.
    let mut resigned = first;
    resigned.signature = Signature([1u8; SIGNATURE_LEN]);
    assert_eq!(detector.observe(resigned), None);
    let mut elsewhere = first;
    elsewhere.height = 2;
    assert_eq!(detector.observe(elsewhere), None);
    // Another approval conflicts.
    let mut refusal = first;
    refusal.approve = false;
    let evidence = detector.observe(refusal).unwrap();
    assert_eq!((evidence.vote_a, evidence.vote_b), (first, refusal));
}

#[test]
fn recorded_evidence_verifies() {
    let mut engine = ConsensusEngine::new(4, genesis());
    engine.run_round(vec![], 1);
    let cast = engine.validators[1].sign_vote(engine.parent, 1, 0, true);
    assert_eq!(engine.observe_external_vote(cast), None);
    let taller = engine.validators[1].sign_vote(engine.parent, 2, 0, true);
    assert_eq!(engine.observe_external_vote(taller), None);
    assert!(engine.slashing_evidence.is_empty());
    let other = engine.validators[1].sign_vote(phi::hash::Hash::zero(), 1, 0, true);
    assert!(engine.observe_external_vote(other).is_some());
    assert_eq!(engine.slashing_evidence.len(), 1);
    assert!(engine.slashing_evidence[0].verify(&engine.validator_keys()));
}

#[test]
fn votes_verify_under_the_key_of_their_validator() {
    let mut engine = ConsensusEngine::new(4, genesis());
    let keys = engine.validator_keys();
    for v in &engine.validators {
        assert!(v.sign_vote(phi::hash::Hash::of(b"block"), 7, 3, false).verify(&keys));
    }
    let RoundOutcome::Committed { block, .. } = engine.run_round(vec![], 1) else {
        panic!("expected commit");
    };
    for v in &engine.validators {
        let vote = v.vote(&block, 9);
        assert!(vote.verify(&keys));
        assert_eq!((vote.validator, vote.height, vote.view), (v.index, 1, 9));
        assert_eq!(vote.block_hash, block.header.hash());
    }
}

#[test]
fn rounds_beyond_the_counters_hand_the_batch_back() {
    let batch = vec![Transaction::transfer(id("alice"), 0, id("bob"), 1)];
    let mut engine = ConsensusEngine::new(4, genesis());
    assert!(engine.can_run(&batch, 1));
    engine.height = u64::MAX;
    assert!(!engine.can_run(&batch, 1));
    match engine.try_run_round(batch.clone(), 1) {
        Err(back) => assert_eq!(back, batch),
        Ok(outcome) => panic!("expected no round, got {outcome:?}"),
    }
    assert_eq!(engine.view, 0);
    engine.height = 0;
    assert!(matches!(
        engine.try_run_round(batch, 1),
        Ok(RoundOutcome::Committed { .. })
    ));
    assert_eq!((engine.height, engine.view), (1, 1));
}

#[test]
fn every_validator_takes_over_a_governor() {
    let mut state = genesis();
    state.set_minter(Some(id("alice")));
    let mut engine = ConsensusEngine::new(4, state);
    let mint = vec![Transaction::mint(id("alice"), 0, id("bob"), 50)];
    assert!(matches!(engine.run_round(mint.clone(), 1), RoundOutcome::Rejected { .. }));
    engine.set_governor(FigGovernor { minter: Some(id("alice")), max_mint_per_block: 50 });
    assert!(matches!(engine.run_round(mint, 2), RoundOutcome::Committed { .. }));
    for v in &engine.validators {
        assert_eq!(v.state.balance(&id("bob")), 50);
    }
}

#[test]
fn a_round_without_a_valid_certificate_does_not_run() {
    // The same validator stands in the list twice: both its votes count, so
    // the certificate would name it twice.
    let mut engine = ConsensusEngine::new(4, genesis());
    for i in 0..2 {
        engine.validators[i].index = 0;
        engine.validators[i].keypair = Keypair::from_label("twin");
    }
    let batch = vec![Transaction::transfer(id("alice"), 0, id("bob"), 1)];
    assert!(!engine.can_run(&batch, 1));
    match engine.try_run_round(batch.clone(), 1) {
        Err(back) => assert_eq!(back, batch),
        Ok(outcome) => panic!("expected no round, got {outcome:?}"),
    }
    assert_eq!((engine.height, engine.view), (0, 0));
    assert!(engine.chain.is_empty());
    assert_eq!(engine.validators[3].state.balance(&id("bob")), 0);

    // Without a quorum there is no certificate to fail: the round runs, and
    // commits nothing.
    engine.validators[2].index = 3;
    engine.validators[3].index = 2;
    assert!(engine.can_run(&batch, 1));
    assert!(matches!(
        engine.try_run_round(batch, 1),
        Ok(RoundOutcome::Rejected { needed: 3, .. })
    ));
    assert_eq!((engine.height, engine.view), (0, 1));
}

#[test]
fn validators_out_of_order_certify_what_they_can() {
    // Two validators that stand at each other's place sign under the wrong
    // key: of seven votes five count, which is a quorum of distinct signers.
    let mut engine = ConsensusEngine::new(7, genesis());
    engine.validators.swap(0, 1);
    let batch = vec![Transaction::transfer(id("alice"), 0, id("bob"), 1)];
    assert!(engine.can_run(&batch, 1));
    match engine.run_round(batch, 1) {
        RoundOutcome::Committed { qc, .. } => {
            assert_eq!(qc.signers, vec![2, 3, 4, 5, 6]);
            assert!(qc.verify(&engine.validator_keys(), engine.quorum()));
        }
        other => panic!("expected commit, got {other:?}"),
    }
}
