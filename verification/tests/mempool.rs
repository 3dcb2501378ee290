//! Admission, batching and re-queuing.

use phi::account::{AccountId, AuthPolicy};
use phi::crypto::Keypair;
use phi::mempool::{AdmissionError, Mempool};
use phi::receipt::TxError;
use phi::state::State;
use phi::transaction::Transaction;

fn id(label: &str) -> AccountId {
    AccountId::from_label(label)
}

fn funded_state() -> State {
    let mut s = State::new();
    s.genesis_account(id("alice"), 1000);
    s.genesis_account(id("bob"), 1000);
    s.genesis_account(id("carol"), 1000);
    s
}

#[test]
fn admits_sequential_nonces_from_same_sender() {
    let state = funded_state();
    let mut pool = Mempool::new(16);
    assert!(pool
        .submit(Transaction::transfer(id("alice"), 0, id("bob"), 1), &state)
        .is_ok());
    assert!(pool
        .submit(Transaction::transfer(id("alice"), 1, id("bob"), 1), &state)
        .is_ok());
    // Skipping a nonce is rejected.
    assert!(matches!(
        pool.submit(Transaction::transfer(id("alice"), 5, id("bob"), 1), &state),
        Err(AdmissionError::Invalid(_))
    ));
}

#[test]
fn global_capacity_bounds_memory() {
    let state = funded_state();
    // Generous per-sender quota but a tiny global cap.
    let mut pool = Mempool::with_capacity(1000, 2);
    assert!(pool
        .submit(Transaction::transfer(id("alice"), 0, id("bob"), 1), &state)
        .is_ok());
    assert!(pool
        .submit(Transaction::transfer(id("alice"), 1, id("bob"), 1), &state)
        .is_ok());
    assert_eq!(
        pool.submit(Transaction::transfer(id("alice"), 2, id("bob"), 1), &state),
        Err(AdmissionError::Full)
    );
}

#[test]
fn oversized_transaction_rejected_at_admission() {
    let state = funded_state();
    let mut pool = Mempool::new(16);
    let mut huge = Transaction::transfer(id("alice"), 0, id("bob"), 1);
    huge.access.writes = (0..200).map(|i| id(&format!("a-{i}"))).collect();
    assert_eq!(
        pool.submit(huge, &state),
        Err(AdmissionError::Invalid(
            TxError::TransactionTooLarge
        ))
    );
}

#[test]
fn quota_limits_free_lane() {
    let state = funded_state();
    let mut pool = Mempool::new(2);
    for nonce in 0..2 {
        pool.submit(
            Transaction::transfer(id("alice"), nonce, id("bob"), 1),
            &state,
        )
        .unwrap();
    }
    assert_eq!(
        pool.submit(Transaction::transfer(id("alice"), 2, id("bob"), 1), &state),
        Err(AdmissionError::QuotaExceeded)
    );
    pool.reset_window();
    assert!(pool
        .submit(Transaction::transfer(id("alice"), 2, id("bob"), 1), &state)
        .is_ok());
}

#[test]
fn duplicate_rejected() {
    let state = funded_state();
    let mut pool = Mempool::new(16);
    let tx = Transaction::transfer(id("alice"), 0, id("bob"), 1);
    pool.submit(tx.clone(), &state).unwrap();
    assert_eq!(pool.submit(tx, &state), Err(AdmissionError::Duplicate));
}

#[test]
fn queued_outflow_cannot_exceed_balance() {
    let state = funded_state(); // alice: 1000
    let mut pool = Mempool::new(16);
    pool.submit(
        Transaction::transfer(id("alice"), 0, id("bob"), 600),
        &state,
    )
    .unwrap();
    // Head-of-line alone would pass (600 < 1000); the projection over
    // the queue must reject the cumulative 1200.
    assert_eq!(
        pool.submit(
            Transaction::transfer(id("alice"), 1, id("bob"), 600),
            &state
        ),
        Err(AdmissionError::Invalid(
            TxError::InsufficientBalance {
                have: 400,
                need: 600
            }
        ))
    );
    assert!(pool
        .submit(
            Transaction::transfer(id("alice"), 1, id("bob"), 400),
            &state
        )
        .is_ok());
}

#[test]
fn unsigned_spend_from_keyed_account_rejected_at_admission() {

    let kp = Keypair::from_label("alice-key");
    let policy = AuthPolicy::SingleKey(kp.public());
    let alice = AccountId::from_auth(&policy, 0);
    let mut state = State::new();
    state.genesis_account_with_auth(alice, 1000, policy);

    let mut pool = Mempool::new(16);
    assert_eq!(
        pool.submit(Transaction::transfer(alice, 0, id("bob"), 1), &state),
        Err(AdmissionError::Invalid(TxError::AuthFailed))
    );
    assert!(pool
        .submit(
            Transaction::transfer(alice, 0, id("bob"), 1).signed(&kp),
            &state
        )
        .is_ok());
}

#[test]
fn requeue_preserves_order_and_duplicate_protection() {
    let state = funded_state();
    let mut pool = Mempool::new(16);
    for nonce in 0..3 {
        pool.submit(
            Transaction::transfer(id("alice"), nonce, id("bob"), 1),
            &state,
        )
        .unwrap();
    }
    let batch = pool.take_batch(2);
    assert_eq!(pool.len(), 1);

    let resubmit = batch[0].clone();
    pool.requeue_front(batch);
    assert_eq!(pool.len(), 3);
    // Order restored: nonces 0,1,2 from the front.
    let drained = pool.take_batch(3);
    assert_eq!(
        drained.iter().map(|t| t.nonce).collect::<Vec<_>>(),
        vec![0, 1, 2]
    );
    pool.requeue_front(drained);
    assert_eq!(
        pool.submit(resubmit, &state),
        Err(AdmissionError::Duplicate)
    );
}

#[test]
fn projections_stay_consistent_across_take_and_requeue() {
    let state = funded_state(); // alice: 1000
    let mut pool = Mempool::new(16);
    pool.submit(
        Transaction::transfer(id("alice"), 0, id("bob"), 300),
        &state,
    )
    .unwrap();
    pool.submit(
        Transaction::transfer(id("alice"), 1, id("bob"), 300),
        &state,
    )
    .unwrap();

    let batch = pool.take_batch(2);
    // Taken txs no longer count toward projections: nonce 0 is expected
    // again (the caller owns the in-flight batch until commit/requeue).
    assert_eq!(
        pool.submit(Transaction::transfer(id("alice"), 1, id("bob"), 1), &state),
        Err(AdmissionError::Invalid(TxError::BadNonce {
            expected: 0,
            got: 1
        }))
    );

    pool.requeue_front(batch);
    // Projections restored: expected nonce 2, outflow 600 of 1000.
    assert!(pool
        .submit(
            Transaction::transfer(id("alice"), 2, id("bob"), 400),
            &state
        )
        .is_ok());
    assert_eq!(
        pool.submit(Transaction::transfer(id("alice"), 3, id("bob"), 1), &state),
        Err(AdmissionError::Invalid(
            TxError::InsufficientBalance { have: 0, need: 1 }
        ))
    );
}

#[test]
fn priority_batch_serves_higher_fees_first_preserving_nonce_order() {
    let state = funded_state();
    let mut pool = Mempool::new(16);
    // Alice queues two low-fee transactions; Bob one high-fee transaction.
    pool.submit(
        Transaction::transfer(id("alice"), 0, id("carol"), 1).with_max_fee(1),
        &state,
    )
    .unwrap();
    pool.submit(
        Transaction::transfer(id("alice"), 1, id("carol"), 1).with_max_fee(1),
        &state,
    )
    .unwrap();
    pool.submit(
        Transaction::transfer(id("bob"), 0, id("carol"), 1).with_max_fee(9),
        &state,
    )
    .unwrap();

    let batch = pool.take_priority_batch(3);
    // Bob's richer tip jumps ahead; Alice's two follow in nonce order.
    assert_eq!(batch[0].sender, id("bob"));
    assert_eq!((batch[1].sender, batch[1].nonce), (id("alice"), 0));
    assert_eq!((batch[2].sender, batch[2].nonce), (id("alice"), 1));
    assert!(pool.is_empty());
}

#[test]
fn priority_batch_with_uniform_fees_matches_fifo() {
    let state = funded_state();
    let mut pool = Mempool::new(16);
    pool.submit(Transaction::transfer(id("alice"), 0, id("bob"), 1), &state)
        .unwrap();
    pool.submit(Transaction::transfer(id("carol"), 0, id("bob"), 1), &state)
        .unwrap();
    pool.submit(Transaction::transfer(id("alice"), 1, id("bob"), 1), &state)
        .unwrap();

    let order: Vec<(AccountId, u64)> = pool
        .take_priority_batch(3)
        .iter()
        .map(|t| (t.sender, t.nonce))
        .collect();
    // No fee differences -> identical to FIFO submission order.
    assert_eq!(
        order,
        vec![(id("alice"), 0), (id("carol"), 0), (id("alice"), 1)]
    );
}

#[test]
fn priority_batch_leaves_lowest_fee_behind_and_stays_consistent() {
    let state = funded_state();
    let mut pool = Mempool::new(16);
    pool.submit(
        Transaction::transfer(id("alice"), 0, id("bob"), 1).with_max_fee(1),
        &state,
    )
    .unwrap();
    pool.submit(
        Transaction::transfer(id("bob"), 0, id("carol"), 1).with_max_fee(5),
        &state,
    )
    .unwrap();
    pool.submit(
        Transaction::transfer(id("carol"), 0, id("alice"), 1).with_max_fee(3),
        &state,
    )
    .unwrap();

    // Take the two richest; the low-fee tx stays queued.
    let batch = pool.take_priority_batch(2);
    assert_eq!(
        batch.iter().map(|t| t.max_fee).collect::<Vec<_>>(),
        vec![5, 3]
    );
    assert_eq!(pool.len(), 1);
    // Tracking stayed consistent: the still-queued tx rejects its duplicate.
    let duplicate = Transaction::transfer(id("alice"), 0, id("bob"), 1).with_max_fee(1);
    assert_eq!(
        pool.submit(duplicate, &state),
        Err(AdmissionError::Duplicate)
    );
}

#[test]
fn earlier_checks_refuse_what_cannot_be_projected() {
    let state = funded_state();
    let mut pool = Mempool::with_capacity(16, 2);
    // A sender that the ledger does not know has queued all that 64 bits hold.
    let all = Transaction::transfer(id("ghost"), 0, id("bob"), u64::MAX);
    let more = Transaction::transfer(id("ghost"), 1, id("bob"), 1);
    assert!(pool.can_requeue(&vec![all.clone()]));
    pool.requeue_front(vec![all.clone()]);
    assert!(!pool.can_requeue(&vec![more.clone()]));
    assert!(!pool.can_consider(&more, &state));
    assert_eq!(pool.try_submit(more.clone(), &state), None);
    assert_eq!(pool.len(), 1);
    // A duplicate is refused before it would be projected.
    assert!(pool.can_consider(&all, &state));
    assert_eq!(pool.try_submit(all, &state), Some(Err(AdmissionError::Duplicate)));
    // So is everything once the pool is full.
    assert_eq!(
        pool.try_submit(Transaction::transfer(id("alice"), 0, id("bob"), 1), &state),
        Some(Ok(()))
    );
    assert_eq!(pool.try_submit(more, &state), Some(Err(AdmissionError::Full)));
    assert_eq!(pool.len(), 2);
}

#[test]
fn pending_ids_are_those_of_the_queue() {
    let state = funded_state();
    let txs: Vec<Transaction> = (0..4)
        .map(|n| Transaction::transfer(id("alice"), n, id("bob"), 1).with_max_fee(n))
        .collect();
    let mut pool = Mempool::new(16);
    for tx in &txs {
        assert_eq!(pool.submit(tx.clone(), &state), Ok(()));
    }
    let refused = |pool: &mut Mempool, tx: &Transaction| {
        pool.submit(tx.clone(), &state) == Err(AdmissionError::Duplicate)
    };
    let batch = pool.take_batch(1);
    let rest = pool.take_priority_batch(1);
    assert_eq!((batch.len(), rest.len()), (1, 1));
    assert_eq!((&batch[0], &rest[0]), (&txs[0], &txs[1]));
    pool.reset_window();
    assert!(!refused(&mut pool, &txs[0]));
    assert!(!refused(&mut pool, &txs[1]));
    assert!(refused(&mut pool, &txs[2]));
    assert!(refused(&mut pool, &txs[3]));
    assert_eq!(pool.len(), 2);
    pool.requeue_front(rest);
    pool.requeue_front(batch);
    for tx in &txs {
        assert!(refused(&mut pool, tx));
    }
    assert_eq!(pool.take_batch(9), txs);
}

#[test]
fn a_priority_batch_and_the_rest_make_up_the_queue() {
    let state = funded_state();
    let bid = |who: &str, nonce: u64, tip: u64| {
        Transaction::transfer(id(who), nonce, id("dex"), 1).with_max_fee(tip)
    };
    let txs = vec![
        bid("alice", 0, 1),
        bid("bob", 0, 7),
        bid("alice", 1, 9),
        bid("carol", 0, 7),
        bid("bob", 1, 2),
    ];
    for n in 0..=6 {
        let mut pool = Mempool::new(16);
        for tx in &txs {
            assert_eq!(pool.submit(tx.clone(), &state), Ok(()));
        }
        let batch = pool.take_priority_batch(n);
        let rest = pool.take_batch(9);
        assert_eq!(batch.len(), n.min(5));
        assert_eq!(batch.len() + rest.len(), 5);
        for tx in &txs {
            assert_ne!(batch.contains(tx), rest.contains(tx));
        }
    }
}
