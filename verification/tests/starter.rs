//! What the unsigned starter chain promises, on concrete values.

use phi::nex::account::{Account, AccountId};
use phi::nex::block::Block;
use phi::nex::consensus::{ConsensusEngine, RoundOutcome};
use phi::nex::state::{State, TxError};
use phi::nex::transaction::Transaction;

fn id(label: &str) -> AccountId {
    AccountId::from_label(label)
}

fn genesis() -> State {
    let mut s = State::new();
    s.genesis_account(id("alice"), 100);
    s.genesis_account(id("bob"), u64::MAX - 200);
    s
}

#[test]
fn starter_errors_leave_balances_alone() {
    let cases = [
        (Transaction::transfer(id("ghost"), 0, id("bob"), 1), TxError::UnknownSender, 0),
        (
            Transaction::transfer(id("alice"), 2, id("bob"), 1),
            TxError::BadNonce { expected: 0, got: 2 },
            0,
        ),
        (
            Transaction::transfer(id("alice"), 0, id("bob"), 101),
            TxError::InsufficientBalance { have: 100, need: 101 },
            1,
        ),
        (Transaction::mint(id("alice"), 0, id("bob"), 201), TxError::Overflow, 1),
    ];
    for (tx, error, nonce) in cases {
        let mut s = genesis();
        assert_eq!(s.apply_tx(&tx).result, Err(error));
        assert_eq!(s.balance(&id("alice")), 100);
        assert_eq!(s.balance(&id("bob")), u64::MAX - 200);
        assert_eq!(s.account(&id("alice")).unwrap().nonce, nonce);
        assert!(s.account(&id("ghost")).is_none());
    }
}

#[test]
fn starter_mints_add_to_the_supply() {
    let mut s = genesis();
    let before = s.total_supply();
    assert!(s.apply_tx(&Transaction::mint(id("alice"), 0, id("carol"), 7)).result.is_ok());
    assert_eq!(s.total_supply(), before + 7);
    assert_eq!(s.balance(&id("carol")), 7);
}

#[test]
fn starter_ids_cover_the_payload() {
    let tx = Transaction::transfer(id("alice"), 0, id("bob"), 1);
    assert_eq!(tx.id(), tx.clone().id());
    let others = [
        Transaction::transfer(id("carol"), 0, id("bob"), 1),
        Transaction::transfer(id("alice"), 1, id("bob"), 1),
        Transaction::transfer(id("alice"), 0, id("carol"), 1),
        Transaction::transfer(id("alice"), 0, id("bob"), 2),
        Transaction::mint(id("alice"), 0, id("bob"), 1),
    ];
    for other in others {
        assert_ne!(other.id(), tx.id());
    }
    assert_ne!(id("alice"), id("alicf"));
}

#[test]
fn starter_roots_commit_to_accounts() {
    let mut a = genesis();
    let root = a.root();
    assert_eq!(root, genesis().root());
    a.apply_tx(&Transaction::transfer(id("alice"), 0, id("bob"), 0));
    assert_ne!(a.root(), root);
    assert_eq!(Account::new(id("alice"), 1).encode().len(), 32 + 8 + 8);
}

#[test]
fn starter_replay_is_refused_later_too() {
    let mut s = genesis();
    let first = Transaction::transfer(id("alice"), 0, id("bob"), 1);
    s.apply_tx(&first);
    s.apply_tx(&Transaction::transfer(id("alice"), 1, id("bob"), 1));
    assert_eq!(s.validate(&first), Err(TxError::BadNonce { expected: 2, got: 0 }));
    let last = Transaction::transfer(id("alice"), u64::MAX, id("bob"), 1);
    assert_eq!(s.nonce(&id("alice")), 2);
    assert!(s.has_nonces_left(&[first, last.clone()]));
    assert_eq!(
        s.apply_tx(&last).result,
        Err(TxError::BadNonce { expected: 2, got: u64::MAX })
    );
}

#[test]
fn starter_rounds_keep_validators_in_step() {
    let mut engine = ConsensusEngine::new(4, genesis());
    assert_eq!(engine.quorum(), 3);
    for nonce in 0..3 {
        let txs = vec![Transaction::transfer(id("alice"), nonce, id("bob"), 1)];
        match engine.run_round(txs, nonce) {
            RoundOutcome::Committed(block) => {
                assert_eq!(block.header.height, nonce + 1);
                assert_eq!(block.header.tx_root, Block::compute_tx_root(&block.transactions));
                assert_eq!(engine.parent, block.header.hash());
            }
            other => panic!("expected commit, got {other:?}"),
        }
        let root = engine.canonical_state().root();
        assert!(engine.validators.iter().all(|v| v.state.root() == root));
    }
    assert_eq!(engine.canonical_state().balance(&id("alice")), 97);
}

#[test]
fn starter_access_sets_are_disjoint_symmetrically() {
    let a = Transaction::transfer(id("a"), 0, id("b"), 1).access;
    let b = Transaction::transfer(id("c"), 0, id("d"), 1).access;
    let c = Transaction::transfer(id("b"), 0, id("d"), 1).access;
    assert!(a.disjoint_from(&b) && b.disjoint_from(&a));
    assert!(!a.disjoint_from(&c) && !c.disjoint_from(&a));
}

#[test]
fn starter_supply_is_checked() {
    let mut s = genesis();
    assert_eq!(s.checked_supply(), Some(u64::MAX - 100));
    assert_eq!(s.total_supply(), u64::MAX - 100);
    s.genesis_account(id("carol"), 100);
    assert_eq!(s.checked_supply(), Some(u64::MAX));
    s.genesis_account(id("dave"), 1);
    assert_eq!(s.checked_supply(), None);
}
