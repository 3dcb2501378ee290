//! Transactions, blocks and Merkle trees.

use phi::account::{AccountId, AuthPolicy};
use phi::block::{Block, BlockHeader};
use phi::crypto::Keypair;
use phi::merkle;
use phi::merkle::MerkleProof;
use phi::transaction::Transaction;

fn txs(n: u64) -> Vec<Transaction> {
    (0..n)
        .map(|i| {
            Transaction::transfer(
                AccountId::from_label("sender"),
                i,
                AccountId::from_label("recipient"),
                1,
            )
        })
        .collect()
}

#[test]
fn tx_root_changes_with_contents() {
    assert_ne!(
        Block::compute_tx_root(&txs(2)),
        Block::compute_tx_root(&txs(3))
    );
}

#[test]
fn tx_inclusion_proof_roundtrip() {
    let transactions = txs(5);
    let root = Block::compute_tx_root(&transactions);
    let block = Block {
        header: BlockHeader {
            height: 1,
            chain_id: 0,
            parent: phi::hash::Hash::zero(),
            tx_root: root,
            state_root: phi::hash::Hash::zero(),
            receipts_root: phi::hash::Hash::zero(),
            proposer: 0,
            timestamp_ms: 0,
        },
        transactions,
    };
    let proof = block.prove_tx(3).unwrap();
    let tx_id = block.transactions[3].id();
    assert!(Block::verify_tx_proof(&root, &tx_id, 3, 5, &proof));
    assert!(!Block::verify_tx_proof(&root, &tx_id, 2, 5, &proof));
}

#[test]
fn header_hash_commits_to_receipts_root() {
    let mut header = BlockHeader {
        height: 1,
        chain_id: 0,
        parent: phi::hash::Hash::zero(),
        tx_root: phi::hash::Hash::zero(),
        state_root: phi::hash::Hash::zero(),
        receipts_root: phi::hash::Hash::zero(),
        proposer: 0,
        timestamp_ms: 0,
    };
    let original = header.hash();
    header.receipts_root = phi::hash::Hash::of(b"different");
    assert_ne!(original, header.hash());
}

fn id(label: &str) -> AccountId {
    AccountId::from_label(label)
}

#[test]
fn id_covers_every_payload_field() {
    let base = Transaction::transfer(id("a"), 0, id("b"), 10);
    let mut access_changed = base.clone();
    access_changed.access.writes.push(id("c"));
    let mut fee_changed = base.clone();
    fee_changed.max_fee = 1;
    let mut sponsor_changed = base.clone();
    sponsor_changed.sponsor = Some(id("s"));
    let reveal_changed = base.clone().with_reveal(AuthPolicy::Open, 0);
    let kind_changed = Transaction::mint(id("a"), 0, id("b"), 10);
    let chain_changed = base.clone().with_chain_id(1);

    let ids = [
        base.id(),
        access_changed.id(),
        fee_changed.id(),
        sponsor_changed.id(),
        reveal_changed.id(),
        kind_changed.id(),
        chain_changed.id(),
    ];
    for (i, a) in ids.iter().enumerate() {
        for b in ids.iter().skip(i + 1) {
            assert_ne!(a, b);
        }
    }
}

#[test]
fn signatures_do_not_change_the_id() {
    let unsigned = Transaction::transfer(id("a"), 0, id("b"), 10);
    let signed = unsigned.clone().signed(&Keypair::from_label("a"));
    assert_eq!(unsigned.id(), signed.id());
    assert_eq!(signed.signatures.len(), 1);
}

#[test]
fn disjoint_access_sets_detected() {
    let a = Transaction::transfer(id("a"), 0, id("b"), 1);
    let b = Transaction::transfer(id("c"), 0, id("d"), 1);
    let c = Transaction::transfer(id("b"), 0, id("e"), 1);
    assert!(a.access.disjoint_from(&b.access));
    assert!(!a.access.disjoint_from(&c.access));
}

fn leaves(n: usize) -> Vec<phi::hash::Hash> {
    (0..n).map(|i| phi::hash::Hash::of(&[i as u8])).collect()
}

#[test]
fn empty_and_single_leaf_roots_are_distinct() {
    let single = leaves(1);
    assert_ne!(merkle::root(&[]), merkle::root(&single));
    assert_ne!(merkle::root(&single), single[0], "leaf must be domain-tagged");
}

#[test]
fn duplicating_the_last_leaf_changes_the_root() {
    // Pairing an odd node with a copy of itself would make these equal.
    let abc = leaves(3);
    let mut abcc = abc.clone();
    abcc.push(abc[2]);
    assert_ne!(merkle::root(&abc), merkle::root(&abcc));
}

#[test]
fn proofs_verify_for_every_index_and_size() {
    for n in 1..=9 {
        let ls = leaves(n);
        let r = merkle::root(&ls);
        for i in 0..n {
            let proof = merkle::prove(&ls, i).unwrap();
            assert!(merkle::verify(&r, &ls[i], i, n, &proof), "n={n} i={i}");
            // Wrong leaf, wrong index, truncated proof all fail.
            assert!(!merkle::verify(&r, &phi::hash::Hash::of(b"bogus"), i, n, &proof));
            assert!(!merkle::verify(&r, &ls[i], (i + 1) % n, n, &proof) || n == 1);
            if !proof.siblings.is_empty() {
                let short = MerkleProof {
                    siblings: proof.siblings[..proof.siblings.len() - 1].to_vec(),
                };
                assert!(!merkle::verify(&r, &ls[i], i, n, &short));
            }
        }
    }
}

#[test]
fn proof_with_extra_siblings_rejected() {
    let ls = leaves(4);
    let r = merkle::root(&ls);
    let mut proof = merkle::prove(&ls, 0).unwrap();
    proof.siblings.push(phi::hash::Hash::of(b"extra"));
    assert!(!merkle::verify(&r, &ls[0], 0, 4, &proof));
}

#[test]
fn proofs_fit_one_place_in_one_block() {
    let transactions = txs(3);
    let root = Block::compute_tx_root(&transactions);
    let ids: Vec<phi::hash::Hash> = transactions.iter().map(|t| t.id()).collect();
    let block = Block {
        header: BlockHeader {
            height: 1,
            chain_id: 0,
            parent: phi::hash::Hash::zero(),
            tx_root: root,
            state_root: phi::hash::Hash::zero(),
            receipts_root: phi::hash::Hash::zero(),
            proposer: 0,
            timestamp_ms: 0,
        },
        transactions,
    };
    assert!(block.prove_tx(3).is_none());
    let last = block.prove_tx(2).unwrap();
    assert!(!Block::verify_tx_proof(&root, &ids[2], 1, 2, &last));
    for i in 0..3 {
        let proof = block.prove_tx(i).unwrap();
        for j in 0..4 {
            for count in 0..6 {
                for (k, tx_id) in ids.iter().enumerate() {
                    assert_eq!(
                        Block::verify_tx_proof(&root, tx_id, j, count, &proof),
                        (i, i, 3) == (j, k, count)
                    );
                }
            }
        }
    }
}
