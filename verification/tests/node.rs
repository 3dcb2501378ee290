//! The persistent single-node chain.

use phi::account::AuthPolicy;
use phi::node::{Node, NodeError, TREASURY};
use phi::receipt::TxError;

const TS: u64 = 1_700_000_000_000;

#[test]
fn fund_then_transfer_moves_value_and_claims_account() {
    let mut node = Node::init(1, 1_000_000);
    assert_eq!(node.balance(TREASURY), 1_000_000);

    // Fund alice from the treasury.
    let r = node.fund("alice", 1_000, TS).unwrap();
    assert!(r.result.is_ok());
    assert_eq!(node.balance("alice"), 1_000);
    assert_eq!(node.height, 1);

    // alice's account was created by receiving funds → Unclaimed.
    assert_eq!(
        node.state.account(&Node::address("alice")).unwrap().auth,
        AuthPolicy::Unclaimed
    );

    // alice transfers to bob: first spend reveals & claims her policy.
    let r = node.transfer("alice", "bob", 400, TS + 1).unwrap();
    assert!(r.result.is_ok());
    assert_eq!(node.balance("alice"), 600);
    assert_eq!(node.balance("bob"), 400);
    assert_eq!(
        node.state.account(&Node::address("alice")).unwrap().auth,
        AuthPolicy::SingleKey(Node::keypair("alice").public())
    );
    assert_eq!(node.height, 2, "one block for fund, one for transfer");
}

#[test]
fn overspend_is_rejected_without_advancing_the_chain() {
    let mut node = Node::init(1, 100);
    node.fund("alice", 50, TS).unwrap();
    let height_before = node.height;
    let err = node.transfer("alice", "bob", 1_000, TS + 1).unwrap_err();
    assert!(matches!(
        err,
        NodeError::Rejected(TxError::InsufficientBalance { .. })
    ));
    assert_eq!(
        node.height, height_before,
        "rejected tx must not make a block"
    );
    assert_eq!(node.balance("alice"), 50);
}

#[test]
fn spending_from_unknown_account_is_a_usage_error() {
    let mut node = Node::init(1, 100);
    let err = node.transfer("nobody", "bob", 1, TS).unwrap_err();
    assert!(matches!(err, NodeError::Usage(_)));
}

#[test]
fn persistence_round_trips_through_bytes_and_preserves_head() {
    let mut node = Node::init(7, 5_000);
    node.fund("alice", 250, TS).unwrap();
    node.transfer("alice", "bob", 100, TS + 1).unwrap();

    let bytes = node.to_bytes();
    let restored = Node::from_bytes(&bytes).unwrap();
    assert_eq!(restored.height, node.height);
    assert_eq!(restored.parent, node.parent);
    assert_eq!(restored.state_root(), node.state_root());
    assert_eq!(restored.balance("alice"), 150);
    assert_eq!(restored.balance("bob"), 100);
    assert_eq!(restored.chain_id(), 7);

    // A restored node keeps producing valid blocks (chain continuity).
    let mut restored = restored;
    restored.transfer("bob", "carol", 40, TS + 2).unwrap();
    assert_eq!(restored.balance("carol"), 40);
}

#[test]
fn bad_chain_files_are_rejected() {
    assert!(Node::from_bytes(b"").is_err());
    assert!(Node::from_bytes(b"XXXX\x01....").is_err());
}

#[test]
fn the_treasury_of_a_fresh_chain_can_give_all_it_has() {
    for amount in [0, 1, 999, 1_000] {
        let mut node = Node::init(3, 1_000);
        let receipt = node.fund("alice", amount, TS).unwrap();
        assert_eq!(receipt.result, Ok(()));
        assert_eq!(node.balance("alice"), amount);
        assert_eq!(node.balance(TREASURY), 1_000 - amount);
        assert_eq!(node.height, 1);
    }
    let mut node = Node::init(3, 1_000);
    assert!(matches!(
        node.fund("alice", 1_001, TS),
        Err(NodeError::Rejected(TxError::InsufficientBalance { have: 1_000, need: 1_001 }))
    ));
    assert_eq!(node.height, 0);
    // Moving figs to oneself changes no balance.
    assert!(node.fund(TREASURY, 1_000, TS).is_ok());
    assert_eq!(node.balance(TREASURY), 1_000);
}

#[test]
fn owners_spend_until_nothing_is_left() {
    let mut node = Node::init(3, 1_000);
    node.fund("alice", 30, TS).unwrap();
    for (i, left) in [20u64, 10, 0].into_iter().enumerate() {
        node.transfer("alice", "bob", 10, TS + i as u64).unwrap();
        assert_eq!(node.balance("alice"), left);
    }
    // Each recipient can spend in turn.
    node.transfer("bob", "carol", 30, TS).unwrap();
    node.transfer("carol", "alice", 30, TS).unwrap();
    node.transfer("alice", TREASURY, 30, TS).unwrap();
    assert_eq!(node.balance(TREASURY), 1_000);
    assert_eq!(node.height, 7);
}
