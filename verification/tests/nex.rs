//! The unsigned starter chain.

use phi::nex::account::AccountId;
use phi::nex::consensus::{ConsensusEngine, RoundOutcome};
use phi::nex::state::{State, TxError};
use phi::nex::transaction::Transaction;

fn id(label: &str) -> AccountId {
    AccountId::from_label(label)
}

#[test]
fn lib_transfer_moves_funds_and_bumps_nonce() {
    let mut state = State::new();
    state.genesis_account(id("alice"), 100);
    state.genesis_account(id("bob"), 0);

    let receipt = state.apply_tx(&Transaction::transfer(id("alice"), 0, id("bob"), 40));
    assert!(receipt.result.is_ok());
    assert_eq!(state.balance(&id("alice")), 60);
    assert_eq!(state.balance(&id("bob")), 40);
    assert_eq!(state.account(&id("alice")).unwrap().nonce, 1);
}

#[test]
fn lib_insufficient_balance_rejected_but_nonce_consumed() {
    let mut state = State::new();
    state.genesis_account(id("alice"), 10);

    let receipt = state.apply_tx(&Transaction::transfer(id("alice"), 0, id("bob"), 40));
    assert_eq!(
        receipt.result,
        Err(TxError::InsufficientBalance { have: 10, need: 40 })
    );
    assert_eq!(state.balance(&id("alice")), 10);
    assert_eq!(state.account(&id("alice")).unwrap().nonce, 1);
}

#[test]
fn lib_replay_rejected() {
    let mut state = State::new();
    state.genesis_account(id("alice"), 100);
    let tx = Transaction::transfer(id("alice"), 0, id("bob"), 5);
    assert!(state.apply_tx(&tx).result.is_ok());
    assert_eq!(
        state.apply_tx(&tx).result,
        Err(TxError::BadNonce { expected: 1, got: 0 })
    );
    assert_eq!(state.balance(&id("bob")), 5);
}

#[test]
fn lib_transfers_conserve_supply() {
    let mut state = State::new();
    state.genesis_account(id("alice"), 100);
    state.genesis_account(id("bob"), 50);
    let before = state.total_supply();
    state.apply_tx(&Transaction::transfer(id("alice"), 0, id("bob"), 30));
    state.apply_tx(&Transaction::transfer(id("bob"), 0, id("alice"), 80));
    assert_eq!(state.total_supply(), before);
}

#[test]
fn lib_state_root_is_deterministic_and_changes_on_writes() {
    let mut a = State::new();
    let mut b = State::new();
    a.genesis_account(id("alice"), 100);
    b.genesis_account(id("alice"), 100);
    assert_eq!(a.root(), b.root());

    a.apply_tx(&Transaction::transfer(id("alice"), 0, id("bob"), 1));
    assert_ne!(a.root(), b.root());
}


fn genesis() -> State {
    let mut s = State::new();
    s.genesis_account(id("alice"), 1000);
    s.genesis_account(id("bob"), 0);
    s
}

#[test]
fn lib_honest_round_commits_and_all_validators_agree() {
    let mut engine = ConsensusEngine::new(4, genesis());
    let txs = vec![Transaction::transfer(id("alice"), 0, id("bob"), 100)];
    match engine.run_round(txs, 1) {
        RoundOutcome::Committed(block) => {
            assert_eq!(block.header.height, 1);
            let roots: Vec<phi::hash::Hash> =
                engine.validators.iter().map(|v| v.state.root()).collect();
            assert!(roots.windows(2).all(|w| w[0] == w[1]));
            assert_eq!(engine.canonical_state().balance(&id("bob")), 100);
        }
        other => panic!("expected commit, got {other:?}"),
    }
}

#[test]
fn lib_bad_state_root_is_rejected_by_voters() {
    let engine = ConsensusEngine::new(4, genesis());
    let mut block =
        engine.propose(vec![Transaction::transfer(id("alice"), 0, id("bob"), 1)], 1);
    block.header.state_root = phi::hash::Hash::zero(); // corrupt the proposal
    let approvals = engine
        .validators
        .iter()
        .filter(|v| v.vote(&block).approve)
        .count();
    assert_eq!(approvals, 0);
}

#[test]
fn lib_proposer_rotates_round_robin() {
    let mut engine = ConsensusEngine::new(3, genesis());
    let mut proposers = Vec::new();
    for i in 0..3 {
        if let RoundOutcome::Committed(b) = engine.run_round(vec![], i) {
            proposers.push(b.header.proposer);
        }
    }
    assert_eq!(proposers, vec![0, 1, 2]);
}
