//! Conflict waves and equality with serial execution.

use phi::account::AccountId;
use phi::executor::{can_execute, conflict_groups, execute, try_execute, ExecutionOutput};
use phi::receipt::{Receipt, TxError};
use phi::state::State;
use phi::transaction::Transaction;

fn id(label: &str) -> AccountId {
    AccountId::from_label(label)
}

fn funded_state(labels: &[&str], balance: u64) -> State {
    let mut state = State::new();
    for label in labels {
        state.genesis_account(id(label), balance);
    }
    state
}

/// Serial reference: receipts + root from `State::apply_tx` in order.
fn serial(state: &mut State, txs: &[Transaction]) -> ExecutionOutput {
    let receipts: Vec<Receipt> = txs.iter().map(|tx| state.apply_tx(tx)).collect();
    let fees_burned = receipts.iter().map(|r| r.fee_paid).sum();
    ExecutionOutput {
        state_root: state.root(),
        receipts,
        fees_burned,
    }
}

#[test]
fn sandboxes_inherit_chain_id_and_minter_from_the_ledger() {
    // A sandbox carries the ledger's consensus config: without it,
    // authorized mints would fail and a non-zero chain_id would reject its
    // own transactions inside the executor.
    let mut state = State::new();
    state.set_chain_id(42);
    state.set_minter(Some(id("treasury")));
    state.genesis_account(id("treasury"), 0);
    state.genesis_account(id("alice"), 0); // Open auth, can spend unsigned

    let txs = vec![
        Transaction::mint(id("treasury"), 0, id("alice"), 500).with_chain_id(42),
        Transaction::transfer(id("alice"), 0, id("bob"), 200).with_chain_id(42),
    ];
    let mut serial_state = state.clone();
    let expected = serial(&mut serial_state, &txs);
    let actual = execute(&mut state, &txs);
    assert_eq!(expected, actual);
    assert!(actual.receipts.iter().all(|r| r.result.is_ok()));
    assert_eq!(state.balance(&id("bob")), 200);

    // A transaction for the wrong network fails inside the sandbox too.
    let wrong_chain =
        vec![Transaction::mint(id("treasury"), 1, id("alice"), 1).with_chain_id(7)];
    let out = execute(&mut state, &wrong_chain);
    assert_eq!(
        out.receipts[0].result,
        Err(TxError::WrongChain {
            expected: 42,
            got: 7
        })
    );
}

#[test]
fn disjoint_txs_share_a_wave_conflicts_split() {
    let txs = vec![
        Transaction::transfer(id("alice"), 0, id("bob"), 1), // writes alice,bob
        Transaction::transfer(id("carol"), 0, id("dave"), 1), // disjoint -> same wave
        Transaction::transfer(id("alice"), 1, id("eve"), 1), // conflicts #1 -> next wave
    ];
    let groups = conflict_groups(&txs);
    assert_eq!(groups, vec![vec![0, 1], vec![2]]);
}

#[test]
fn conflicting_txs_never_reorder_across_waves() {
    // tx2 conflicts with tx1 (account x) but not with tx0, and must NOT
    // land in wave 0 ahead of tx1.
    let txs = vec![
        Transaction::transfer(id("y1"), 0, id("y2"), 1), // {y1,y2}
        Transaction::transfer(id("y1"), 1, id("x"), 60), // {y1,x}
        Transaction::transfer(id("x"), 0, id("z"), 50),  // {x,z}
    ];
    let groups = conflict_groups(&txs);
    assert_eq!(groups, vec![vec![0], vec![1], vec![2]]);

    // And the semantic consequence: x can only afford the 50 after
    // receiving 60; reordering would make the third transfer fail.
    let mut serial_state = funded_state(&["y1", "y2"], 100);
    serial_state.genesis_account(id("x"), 0);
    let mut parallel_state = serial_state.clone();

    let expected = serial(&mut serial_state, &txs);
    let actual = execute(&mut parallel_state, &txs);
    assert!(actual.receipts.iter().all(|r| r.result.is_ok()));
    assert_eq!(expected, actual);
}

#[test]
fn fees_burn_in_parallel_exactly_as_serially() {
    // base_fee burns figs from each payer; a sponsored transfer debits
    // the sponsor. Parallel execution must reproduce serial byte-for-byte
    // including the post-supply drop and the reported fees_burned.
    let mut state = State::new();
    state.set_base_fee(7);
    state.genesis_account(id("alice"), 1_000);
    state.genesis_account(id("bob"), 1_000);
    state.genesis_account(id("treasury"), 1_000);

    let txs = vec![
        // alice pays her own fee (disjoint from bob's transfer -> 1 wave).
        Transaction::transfer(id("alice"), 0, id("carol"), 100).with_max_fee(7),
        Transaction::transfer(id("bob"), 0, id("dave"), 50).with_max_fee(7),
        // treasury sponsors alice's second transfer's fee.
        Transaction::transfer(id("alice"), 1, id("carol"), 100)
            .with_max_fee(7)
            .with_sponsor(id("treasury")),
    ];

    let mut serial_state = state.clone();
    let expected = serial(&mut serial_state, &txs);
    let actual = execute(&mut state, &txs);

    assert_eq!(expected, actual);
    assert!(actual.receipts.iter().all(|r| r.result.is_ok()));
    // Three successful transactions at 7 figs each.
    assert_eq!(actual.fees_burned, 21);
    // Pre-supply 3000 less the 21 burned.
    assert_eq!(state.total_supply(), 2_979);
    // The treasury footed only the third fee; alice paid the other one.
    assert_eq!(state.balance(&id("treasury")), 993);
    // alice sent 200 across two transfers but only burned the fee on the
    // first (the sponsor covered the second).
    assert_eq!(state.balance(&id("alice")), 1_000 - 200 - 7);
}

#[test]
fn parallel_matches_serial_with_failures_and_account_creation() {
    let txs = vec![
        Transaction::transfer(id("alice"), 0, id("new-1"), 10), // creates account
        Transaction::transfer(id("bob"), 0, id("new-2"), 10),   // parallel with #0
        Transaction::transfer(id("alice"), 1, id("bob"), 1_000_000), // runtime failure
        Transaction::transfer(id("ghost"), 0, id("alice"), 1),  // unknown sender
        Transaction::transfer(id("new-1"), 0, id("bob"), 5),    // unclaimed: RevealMismatch
    ];
    let mut serial_state = funded_state(&["alice", "bob"], 500);
    let mut parallel_state = serial_state.clone();

    let expected = serial(&mut serial_state, &txs);
    let actual = execute(&mut parallel_state, &txs);
    assert_eq!(expected, actual);
    assert!(actual.receipts[2].result.is_err());
    assert!(actual.receipts[3].result.is_err());
    assert!(actual.receipts[4].result.is_err());
}

/// Deterministic xorshift-style generator (no dependencies).
struct Rng(u64);

impl Rng {
    fn next(&mut self) -> u64 {
        self.0 = self
            .0
            .wrapping_mul(6364136223846793005)
            .wrapping_add(1442695040888963407);
        self.0 >> 11
    }
}

#[test]
fn fuzz_serial_equivalence() {
    let labels: Vec<String> = (0..12).map(|i| format!("acct-{i}")).collect();
    let label_refs: Vec<&str> = labels.iter().map(|s| s.as_str()).collect();

    for seed in 0..30 {
        let mut rng = Rng(0x5eed + seed);
        let mut serial_state = funded_state(&label_refs, 1_000);
        let mut parallel_state = serial_state.clone();
        // Track expected nonces so most generated txs are valid while
        // some still exercise failure paths.
        let mut nonces = vec![0u64; labels.len()];

        for _ in 0..6 {
            let batch: Vec<Transaction> = (0..16)
                .map(|_| {
                    let from = (rng.next() % labels.len() as u64) as usize;
                    let to = (rng.next() % labels.len() as u64) as usize;
                    let amount = rng.next() % 400; // sometimes exceeds funds
                    let nonce = if rng.next() % 8 == 0 {
                        rng.next() % 4 // occasionally invalid
                    } else {
                        nonces[from]
                    };
                    let tx = Transaction::transfer(
                        id(&labels[from]),
                        nonce,
                        id(&labels[to]),
                        amount,
                    );
                    if nonce == nonces[from] {
                        nonces[from] += 1; // ok or runtime failure: consumed
                    }
                    tx
                })
                .collect();

            let expected = serial(&mut serial_state, &batch);
            let actual = execute(&mut parallel_state, &batch);
            assert_eq!(expected, actual, "divergence at seed {seed}");
        }
        assert_eq!(serial_state.total_supply(), parallel_state.total_supply());
    }
}

#[test]
fn only_fees_that_are_paid_must_add_up() {
    let fee = 1u64 << 63;
    let mut state = funded_state(&["alice", "bob"], u64::MAX);
    state.set_base_fee(fee);
    let bid = |who: &str| Transaction::transfer(id(who), 0, id("carol"), 0).with_max_fee(fee);
    // Strangers pay nothing, however many there are.
    let strangers = [bid("x"), bid("y"), bid("z"), bid("alice")];
    assert!(can_execute(&state, &strangers));
    // Two fees of half the range do not fit it.
    let both = [bid("alice"), bid("bob")];
    assert!(!can_execute(&state, &both));
    let root = state.root();
    assert!(try_execute(&mut state, &both).is_none());
    assert_eq!(state.root(), root);
    let mut reference = state.clone();
    let out = try_execute(&mut state, &strangers).unwrap();
    assert_eq!(out.fees_burned, fee);
    assert_eq!(out.receipts[0].result, Err(TxError::UnknownSender));
    assert_eq!(out.receipts[3].result, Ok(()));
    let expected = serial(&mut reference, &strangers);
    assert_eq!(out.receipts, expected.receipts);
    assert_eq!(out.state_root, expected.state_root);
}
