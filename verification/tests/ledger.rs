//! What the ledger promises of every transaction, on concrete ones.

use phi::account::{Account, AccountId, AuthPolicy};
use phi::block::{Block, BlockHeader};
use phi::crypto::{Keypair, PublicKey};
use phi::merkle;
use phi::merkle::MerkleProof;
use phi::receipt::{receipts_root, Receipt, TxError};
use phi::smt;
use phi::state::State;
use phi::transaction::{AccessSet, Transaction};

fn id(label: &str) -> AccountId {
    AccountId::from_label(label)
}

fn single(label: &str) -> AuthPolicy {
    AuthPolicy::SingleKey(Keypair::from_label(label).public())
}

fn leaf(n: u8) -> phi::hash::Hash {
    phi::hash::Hash::of(&[n])
}

fn sample_header() -> BlockHeader {
    BlockHeader {
        height: 1,
        chain_id: 2,
        parent: leaf(1),
        tx_root: leaf(2),
        state_root: leaf(3),
        receipts_root: leaf(4),
        proposer: 5,
        timestamp_ms: 6,
    }
}

#[test]
fn low_fee_is_refused_and_consumes_nothing() {
    let mut state = State::new();
    state.set_base_fee(5);
    state.genesis_account(id("alice"), 100);
    let tx = Transaction::transfer(id("alice"), 0, id("bob"), 10).with_max_fee(4);
    let before = state.root();
    assert_eq!(
        state.apply_tx(&tx).result,
        Err(TxError::FeeTooLow { base_fee: 5, max_fee: 4 })
    );
    assert_eq!(state.root(), before);
}

#[test]
fn the_sender_pays_amount_and_fee() {
    let mut state = State::new();
    state.set_base_fee(5);
    state.genesis_account(id("alice"), 100);
    let receipt =
        state.apply_tx(&Transaction::transfer(id("alice"), 0, id("bob"), 10).with_max_fee(9));
    assert_eq!((receipt.result, receipt.fee_paid), (Ok(()), 5));
    assert_eq!(state.balance(&id("alice")), 85);
    assert_eq!(state.balance(&id("bob")), 10);
    assert_eq!(state.total_supply(), 95);
}

#[test]
fn the_sponsor_pays_the_fee_and_nothing_else() {
    let mut state = State::new();
    state.set_base_fee(5);
    state.genesis_account(id("alice"), 10);
    state.genesis_account(id("carol"), 7);
    let tx = Transaction::transfer(id("alice"), 0, id("bob"), 10)
        .with_max_fee(5)
        .with_sponsor(id("carol"));
    let receipt = state.apply_tx(&tx);
    assert_eq!((receipt.result, receipt.fee_paid), (Ok(()), 5));
    assert_eq!(state.balance(&id("alice")), 0);
    assert_eq!(state.balance(&id("bob")), 10);
    assert_eq!(state.balance(&id("carol")), 2);

    // The sponsor cannot pay a second time: nothing is burned.
    state.genesis_account(id("dave"), 1);
    let again = Transaction::transfer(id("dave"), 0, id("bob"), 1)
        .with_max_fee(5)
        .with_sponsor(id("carol"));
    let receipt = state.apply_tx(&again);
    assert_eq!(
        receipt.result,
        Err(TxError::InsufficientBalance { have: 2, need: 5 })
    );
    assert_eq!(receipt.fee_paid, 0);
    assert_eq!(state.balance(&id("carol")), 2);
}

#[test]
fn every_failure_leaves_the_balances_alone() {
    let kp = Keypair::from_label("alice");
    let mut state = State::new();
    state.set_chain_id(3);
    state.genesis_account_with_auth(id("alice"), 100, single("alice"));
    state.genesis_account(id("rich"), u64::MAX);
    let base = Transaction::transfer(id("alice"), 0, id("bob"), 10).with_chain_id(3);
    let mut oversized = base.clone();
    oversized.access.reads = vec![id("x"); 65];
    let mut undeclared = base.clone();
    undeclared.access = AccessSet { reads: vec![], writes: vec![id("alice")] };
    let cases = vec![
        (oversized, TxError::TransactionTooLarge, false),
        (
            Transaction::transfer(id("alice"), 0, id("bob"), 10),
            TxError::WrongChain { expected: 3, got: 0 },
            false,
        ),
        (
            Transaction::transfer(id("ghost"), 0, id("bob"), 10).with_chain_id(3),
            TxError::UnknownSender,
            false,
        ),
        (undeclared, TxError::AccessViolation, false),
        (
            Transaction::transfer(id("alice"), 4, id("bob"), 10).with_chain_id(3).signed(&kp),
            TxError::BadNonce { expected: 0, got: 4 },
            false,
        ),
        (base.clone().with_reveal(single("alice"), 0).signed(&kp), TxError::RevealMismatch, false),
        (base.clone(), TxError::AuthFailed, false),
        (
            Transaction::mint(id("alice"), 0, id("bob"), 10).with_chain_id(3).signed(&kp),
            TxError::UnauthorizedIssuance,
            false,
        ),
        (
            Transaction::transfer(id("alice"), 0, id("bob"), 101).with_chain_id(3).signed(&kp),
            TxError::InsufficientBalance { have: 100, need: 101 },
            true,
        ),
        (
            Transaction::transfer(id("alice"), 0, id("rich"), 1).with_chain_id(3).signed(&kp),
            TxError::Overflow,
            true,
        ),
    ];
    for (tx, error, consumes) in cases {
        assert_eq!(error.consumes_nonce(), consumes);
        let mut s = state.clone();
        let supply = s.total_supply();
        assert_eq!(s.apply_tx(&tx).result, Err(error));
        assert_eq!(s.total_supply(), supply);
        assert_eq!(s.balance(&id("alice")), 100);
        assert_eq!(s.account_count(), 2);
        let nonce = s.account(&id("alice")).unwrap().nonce;
        assert_eq!(nonce, if consumes { 1 } else { 0 });
        if !consumes {
            assert_eq!(s.root(), state.root());
        }
    }
}

#[test]
fn a_spent_nonce_is_refused_ever_after() {
    let mut state = State::new();
    state.genesis_account(id("alice"), 100);
    let first = Transaction::transfer(id("alice"), 0, id("bob"), 1);
    state.apply_tx(&first);
    for nonce in 1..6 {
        state.apply_tx(&Transaction::transfer(id("alice"), nonce, id("bob"), 1));
        assert_eq!(
            state.validate(&first),
            Err(TxError::BadNonce { expected: nonce + 1, got: 0 })
        );
    }
}

#[test]
fn repeated_keys_and_signatures_add_no_authority() {
    let a = Keypair::from_label("a");
    let b = Keypair::from_label("b");
    let make = |keys: Vec<PublicKey>, signers: &[&Keypair]| {
        let mut state = State::new();
        state.genesis_account_with_auth(id("vault"), 10, AuthPolicy::Threshold { m: 2, keys });
        let mut tx = Transaction::transfer(id("vault"), 0, id("bob"), 1);
        for kp in signers {
            tx = tx.signed(kp);
        }
        state.validate(&tx)
    };
    let (ka, kb) = (a.public(), b.public());
    assert_eq!(make(vec![ka, kb], &[&a, &b]), Ok(()));
    assert_eq!(make(vec![ka, kb, ka], &[&b, &a, &a]), Ok(()));
    assert_eq!(make(vec![ka, kb], &[&a, &a]), Err(TxError::AuthFailed));
    assert_eq!(make(vec![ka, ka], &[&a, &a]), Err(TxError::AuthFailed));
}

#[test]
fn the_first_spend_claims_for_good() {
    let kp = Keypair::from_label("alice");
    let policy = single("alice");
    let address = AccountId::from_auth(&policy, 9);
    let mut state = State::new();
    state.genesis_account(id("faucet"), 100);
    state.apply_tx(&Transaction::transfer(id("faucet"), 0, address, 50));
    assert_eq!(state.account(&address).unwrap().auth, AuthPolicy::Unclaimed);

    let spend = Transaction::transfer(address, 0, id("bob"), 5);
    // No reveal, another policy, or another salt: refused.
    assert_eq!(state.validate(&spend.clone().signed(&kp)), Err(TxError::RevealMismatch));
    assert_eq!(
        state.validate(&spend.clone().with_reveal(AuthPolicy::Open, 9)),
        Err(TxError::RevealMismatch)
    );
    assert_eq!(
        state.validate(&spend.clone().with_reveal(policy.clone(), 8).signed(&kp)),
        Err(TxError::RevealMismatch)
    );
    // The right reveal without a signature does not do either.
    assert_eq!(
        state.validate(&spend.clone().with_reveal(policy.clone(), 9)),
        Err(TxError::AuthFailed)
    );
    let claim = spend.with_reveal(policy.clone(), 9).signed(&kp);
    assert_eq!(state.apply_tx(&claim).result, Ok(()));
    assert_eq!(state.account(&address).unwrap().auth, policy);
    // Claimed: a second reveal is out of place.
    let second = Transaction::transfer(address, 1, id("bob"), 5);
    assert_eq!(
        state.validate(&second.clone().with_reveal(policy.clone(), 9).signed(&kp)),
        Err(TxError::RevealMismatch)
    );
    assert_eq!(state.validate(&second.signed(&kp)), Ok(()));
}

#[test]
fn only_the_minter_mints() {
    let mut state = State::new();
    state.genesis_account(id("treasury"), 0);
    let mint = Transaction::mint(id("treasury"), 0, id("alice"), 70);
    assert_eq!(state.validate(&mint), Err(TxError::UnauthorizedIssuance));
    state.set_minter(Some(id("someone")));
    assert_eq!(state.validate(&mint), Err(TxError::UnauthorizedIssuance));
    state.set_minter(Some(id("treasury")));
    assert_eq!(state.apply_tx(&mint).result, Ok(()));
    assert_eq!(state.total_supply(), 70);
}

#[test]
fn undeclared_accounts_stay_untouched() {
    let mut state = State::new();
    state.genesis_account(id("alice"), 10);
    state.genesis_account(id("carol"), 4);
    let carol = state.account(&id("carol")).unwrap().clone();
    state.apply_tx(&Transaction::transfer(id("alice"), 0, id("bob"), 10));
    assert_eq!(state.account(&id("carol")), Some(&carol));
}

#[test]
fn roots_tell_balances_nonces_and_policies_apart() {
    let with = |balance: u64, nonce: u64, auth: AuthPolicy| {
        let mut s = State::new();
        let mut account = Account::with_auth(id("alice"), balance, auth);
        account.nonce = nonce;
        s.upsert_account(account);
        s.root()
    };
    let root = with(1, 0, AuthPolicy::Open);
    assert_ne!(root, with(2, 0, AuthPolicy::Open));
    assert_ne!(root, with(1, 1, AuthPolicy::Open));
    assert_ne!(root, with(1, 0, AuthPolicy::Unclaimed));
    assert_eq!(root, with(1, 0, AuthPolicy::Open));
}

#[test]
fn account_proofs_reject_another_account() {
    let mut state = State::new();
    state.genesis_account(id("alice"), 10);
    state.genesis_account(id("bob"), 20);
    let root = state.root();
    let proof = state.prove_account(&id("alice"));
    assert_eq!(proof.siblings.len(), smt::DEPTH);
    let alice = state.account(&id("alice")).unwrap().clone();
    assert!(State::verify_account_proof(&root, &id("alice"), Some(&alice), &proof));
    let mut richer = alice.clone();
    richer.balance = 11;
    assert!(!State::verify_account_proof(&root, &id("alice"), Some(&richer), &proof));
    assert!(!State::verify_account_proof(&root, &id("alice"), None, &proof));
    let absent = state.prove_account(&id("nobody"));
    assert!(State::verify_account_proof(&root, &id("nobody"), None, &absent));
    assert!(!State::verify_account_proof(&root, &id("nobody"), Some(&alice), &absent));
}

#[test]
fn merkle_proofs_hold_only_their_own_leaf() {
    for count in 1..9usize {
        let leaves: Vec<phi::hash::Hash> = (0..count).map(|i| leaf(i as u8)).collect();
        let root = merkle::root(&leaves);
        for i in 0..count {
            let proof = merkle::prove(&leaves, i).unwrap();
            assert!(merkle::verify(&root, &leaves[i], i, count, &proof));
            assert!(!merkle::verify(&root, &leaf(200), i, count, &proof));
            for j in 0..count {
                if j != i {
                    assert!(!merkle::verify(&root, &leaves[j], i, count, &proof));
                }
            }
        }
        assert_eq!(merkle::prove(&leaves, count), None);
    }
    // Nothing is in the empty tree, and no index is past the end.
    let none = MerkleProof { siblings: vec![] };
    assert_eq!(merkle::root(&[]), merkle::empty_root());
    assert!(!merkle::verify(&merkle::empty_root(), &leaf(0), 0, 0, &none));
    assert!(!merkle::verify(&merkle::root(&[leaf(0)]), &leaf(0), 1, 1, &none));
}

#[test]
fn header_hash_covers_every_field() {
    let header = sample_header();
    let h = header.hash();
    let mut variants = vec![header; 8];
    variants[0].height = 9;
    variants[1].chain_id = 9;
    variants[2].parent = leaf(9);
    variants[3].tx_root = leaf(9);
    variants[4].state_root = leaf(9);
    variants[5].receipts_root = leaf(9);
    variants[6].proposer = 9;
    variants[7].timestamp_ms = 9;
    for v in variants {
        assert_ne!(v.hash(), h);
    }
    assert_eq!(sample_header().hash(), h);
}

#[test]
fn receipts_root_tells_results_apart() {
    let receipt = |tx: u8, result: Result<(), TxError>| Receipt {
        tx_id: leaf(tx),
        result,
        fee_paid: 0,
    };
    let results = [
        Ok(()),
        Err(TxError::UnknownSender),
        Err(TxError::BadNonce { expected: 1, got: 2 }),
        Err(TxError::BadNonce { expected: 2, got: 1 }),
        Err(TxError::WrongChain { expected: 1, got: 2 }),
        Err(TxError::TransactionTooLarge),
        Err(TxError::AccessViolation),
        Err(TxError::AuthFailed),
        Err(TxError::UnauthorizedIssuance),
        Err(TxError::RevealMismatch),
        Err(TxError::InsufficientBalance { have: 1, need: 2 }),
        Err(TxError::Overflow),
        Err(TxError::FeeTooLow { base_fee: 1, max_fee: 2 }),
    ];
    let mut roots: Vec<phi::hash::Hash> =
        results.iter().map(|r| receipts_root(&[receipt(1, *r)])).collect();
    roots.push(receipts_root(&[receipt(2, Ok(()))]));
    roots.push(receipts_root(&[]));
    for i in 0..roots.len() {
        for j in 0..i {
            assert_ne!(roots[i], roots[j], "{i} and {j}");
        }
    }
}

#[test]
fn disjointness_is_symmetric_and_lets_reads_overlap() {
    let set = |reads: &[&str], writes: &[&str]| AccessSet {
        reads: reads.iter().map(|l| id(l)).collect(),
        writes: writes.iter().map(|l| id(l)).collect(),
    };
    let cases = [
        (set(&["a"], &["b"]), set(&["a"], &["c"]), true),
        (set(&["a"], &["b"]), set(&["b"], &["c"]), false),
        (set(&[], &["b"]), set(&[], &["b"]), false),
        (set(&["c"], &[]), set(&[], &["c"]), false),
        (AccessSet::default(), set(&["x"], &["y"]), true),
    ];
    for (a, b, expected) in cases {
        assert_eq!(a.disjoint_from(&b), expected);
        assert_eq!(b.disjoint_from(&a), expected);
    }
}

#[test]
fn transaction_proofs_of_a_block_verify() {
    let transactions: Vec<Transaction> =
        (0..5).map(|n| Transaction::transfer(id("alice"), n, id("bob"), n)).collect();
    let mut header = sample_header();
    header.tx_root = Block::compute_tx_root(&transactions);
    let block = Block { header, transactions };
    for i in 0..5 {
        let proof = block.prove_tx(i).unwrap();
        let tx_id = block.transactions[i].id();
        assert!(Block::verify_tx_proof(&block.header.tx_root, &tx_id, i, 5, &proof));
        assert!(!Block::verify_tx_proof(&block.header.tx_root, &leaf(0), i, 5, &proof));
    }
    assert!(block.prove_tx(5).is_none());
}

#[test]
fn the_last_nonce_is_out_of_bounds() {
    let mut state = State::new();
    state.genesis_account(id("alice"), 5);
    let last = Transaction::transfer(id("alice"), u64::MAX, id("bob"), 1);
    // Out of turn, the last nonce is refused like any other.
    assert!(state.has_nonces_left(&[last.clone()]));
    assert_eq!(
        state.apply_tx(&last).result,
        Err(TxError::BadNonce { expected: 0, got: u64::MAX })
    );
    let mut old = Account::new(id("alice"), 5);
    old.nonce = u64::MAX - 1;
    state.upsert_account(old);
    assert_eq!(state.nonce(&id("alice")), u64::MAX - 1);
    assert_eq!(state.nonce(&id("nobody")), 0);
    let fits = Transaction::transfer(id("alice"), u64::MAX - 1, id("bob"), 1);
    assert!(state.has_nonces_left(&[fits.clone()]));
    assert!(!state.has_nonces_left(&[fits, last]));
}

#[test]
fn account_ids_tell_policies_and_salts_apart() {
    let ids = [
        AccountId::from_auth(&AuthPolicy::Open, 0),
        AccountId::from_auth(&AuthPolicy::Open, 1),
        AccountId::from_auth(&AuthPolicy::Unclaimed, 0),
        AccountId::from_auth(&single("a"), 0),
        AccountId::from_auth(&single("b"), 0),
        AccountId::from_label("a"),
    ];
    for i in 0..ids.len() {
        for j in 0..i {
            assert_ne!(ids[i], ids[j]);
        }
    }
}
