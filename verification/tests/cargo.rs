//! Issuance governance, the supply audit and per-peer throttling.

use phi::account::AccountId;
use phi::cargo::{
    AuditViolation, FigGovernor, GuardError, PeerId, SaturatingShl, Throttle, ThrottleConfig,
};
use phi::receipt::Receipt;
use phi::state::State;
use phi::transaction::Transaction;

fn id(label: &str) -> AccountId {
    AccountId::from_label(label)
}

fn config() -> ThrottleConfig {
    ThrottleConfig {
        free_failures: 2,
        base_cooldown_ms: 100,
        max_cooldown_ms: 1_000,
    }
}

#[test]
fn throttle_tolerates_free_failures_then_backs_off_exponentially() {
    let peer = PeerId::from_label("eve");
    let mut throttle = Throttle::new(config());

    // Two free failures: still admitted.
    throttle.record_failure(peer, 0);
    throttle.record_failure(peer, 0);
    assert_eq!(throttle.check(&peer, 0), Ok(()));

    // Third failure: 100ms cooldown.
    throttle.record_failure(peer, 0);
    assert_eq!(
        throttle.check(&peer, 50),
        Err(GuardError::CoolingDown { until_ms: 100 })
    );
    assert_eq!(throttle.check(&peer, 100), Ok(()));

    // Fourth and fifth failures: 200ms, then 400ms.
    throttle.record_failure(peer, 100);
    assert_eq!(
        throttle.check(&peer, 250),
        Err(GuardError::CoolingDown { until_ms: 300 })
    );
    throttle.record_failure(peer, 300);
    assert_eq!(
        throttle.check(&peer, 600),
        Err(GuardError::CoolingDown { until_ms: 700 })
    );
}

#[test]
fn throttle_caps_cooldown_and_resets_on_success() {
    let peer = PeerId::from_label("eve");
    let mut throttle = Throttle::new(config());
    for t in 0..40 {
        throttle.record_failure(peer, t);
    }
    // Capped at max_cooldown_ms past the last failure, not 2^37 ms.
    assert_eq!(
        throttle.check(&peer, 40),
        Err(GuardError::CoolingDown {
            until_ms: 39 + 1_000
        })
    );

    throttle.record_success(&peer);
    assert_eq!(throttle.check(&peer, 40), Ok(()));
}

#[test]
fn throttle_is_per_peer_so_victims_are_never_locked_out() {
    let attacker = PeerId::from_label("eve");
    let victim = PeerId::from_label("bob");
    let mut throttle = Throttle::new(config());
    for _ in 0..10 {
        throttle.record_failure(attacker, 0);
    }
    assert!(throttle.check(&attacker, 0).is_err());
    assert_eq!(throttle.check(&victim, 0), Ok(()));
}

#[test]
fn shift_saturates() {
    assert_eq!(u64::MAX.saturating_shl(1), u64::MAX);
    assert_eq!(1u64.saturating_shl(63), 1 << 63);
    assert_eq!(1u64.saturating_shl(64), u64::MAX);
    assert_eq!(2u64.saturating_shl(63), u64::MAX);
}

#[test]
fn screen_rejects_unauthorized_or_oversized_mints() {
    let governor = FigGovernor {
        minter: Some(id("treasury")),
        max_mint_per_block: 100,
    };
    assert_eq!(
        governor.screen_tx(&Transaction::transfer(id("eve"), 0, id("eve"), 1_000)),
        Ok(())
    );
    assert_eq!(
        governor.screen_tx(&Transaction::mint(id("eve"), 0, id("eve"), 10)),
        Err(GuardError::UnauthorizedMint { sender: id("eve") })
    );
    assert_eq!(
        governor.screen_tx(&Transaction::mint(id("treasury"), 0, id("eve"), 500)),
        Err(GuardError::MintCapExceeded {
            requested: 500,
            cap: 100
        })
    );
    assert_eq!(
        governor.screen_tx(&Transaction::mint(id("treasury"), 0, id("eve"), 100)),
        Ok(())
    );
    // The default governor freezes issuance entirely.
    assert!(FigGovernor::default()
        .screen_tx(&Transaction::mint(id("treasury"), 0, id("eve"), 1))
        .is_err());
}

/// Execute `txs` serially and audit the block with `governor`.
fn run_audit(
    governor: &FigGovernor,
    state: &mut State,
    txs: &[Transaction],
) -> Result<(), AuditViolation> {
    let pre = state.total_supply();
    let receipts: Vec<Receipt> = txs.iter().map(|tx| state.apply_tx(tx)).collect();
    governor.audit_block(pre, state.total_supply(), txs, &receipts)
}

#[test]
fn audit_passes_transfer_blocks_and_authorized_mints() {
    let mut state = State::new();
    state.set_minter(Some(id("treasury")));
    state.genesis_account(id("treasury"), 0);
    state.genesis_account(id("alice"), 100);
    let governor = FigGovernor {
        minter: Some(id("treasury")),
        max_mint_per_block: 1_000,
    };
    let txs = vec![
        Transaction::transfer(id("alice"), 0, id("bob"), 30),
        Transaction::mint(id("treasury"), 0, id("alice"), 500),
    ];
    assert_eq!(run_audit(&governor, &mut state, &txs), Ok(()));
    assert_eq!(state.total_supply(), 600);
}

#[test]
fn audit_catches_unauthorized_mint_the_state_machine_accepts() {
    // The ledger lets its minter create figs without a cap; the governor
    // that validators vote by grants eve nothing.
    let mut state = State::new();
    state.set_minter(Some(id("eve")));
    state.genesis_account(id("eve"), 5);
    let txs = vec![Transaction::mint(id("eve"), 0, id("eve"), 1_000_000)];
    let outcome = run_audit(&FigGovernor::default(), &mut state, &txs);
    assert!(matches!(
        outcome,
        Err(AuditViolation::UnauthorizedMint { .. })
    ));
}

#[test]
fn audit_ignores_failed_mints_but_enforces_the_block_cap() {
    let mut state = State::new();
    state.set_minter(Some(id("treasury")));
    state.genesis_account(id("treasury"), 0);
    let governor = FigGovernor {
        minter: Some(id("treasury")),
        max_mint_per_block: 100,
    };
    // A mint with a bad nonce fails and creates nothing: not issuance.
    let failed = vec![Transaction::mint(id("treasury"), 99, id("alice"), 50)];
    assert_eq!(run_audit(&governor, &mut state, &failed), Ok(()));

    // Two successful mints summing over the cap are refused.
    let over_cap = vec![
        Transaction::mint(id("treasury"), 0, id("alice"), 60),
        Transaction::mint(id("treasury"), 1, id("bob"), 60),
    ];
    assert_eq!(
        run_audit(&governor, &mut state, &over_cap),
        Err(AuditViolation::MintCapExceeded {
            minted: 120,
            cap: 100
        })
    );
}

#[test]
fn audit_trips_on_any_supply_mismatch() {
    // Simulates an execution exploit that conjures figs out of thin air:
    // the audit's recomputed expectation must catch it regardless of how
    // the figs appeared.
    let governor = FigGovernor::default();
    let outcome = governor.audit_block(1_000, 1_500, &[], &[]);
    assert_eq!(
        outcome,
        Err(AuditViolation::SupplyMismatch {
            expected: 1_000,
            actual: 1_500
        })
    );
    assert_eq!(governor.audit_block(1_000, 1_000, &[], &[]), Ok(()));
}

#[test]
fn the_audit_takes_the_largest_supply() {
    let governor = FigGovernor { minter: Some(id("treasury")), max_mint_per_block: 10 };
    assert_eq!(governor.audit_block(u128::MAX, u128::MAX, &[], &[]), Ok(()));
    assert_eq!(
        governor.audit_block(u128::MAX, 0, &[], &[]),
        Err(AuditViolation::SupplyMismatch { expected: u128::MAX, actual: 0 })
    );
    // An excessive mint is refused before it is added to the supply.
    let mint = Transaction::mint(id("treasury"), 0, id("bob"), 11);
    let receipt = Receipt { tx_id: mint.id(), result: Ok(()), fee_paid: 0 };
    assert_eq!(
        governor.audit_block(u128::MAX, u128::MAX, &[mint], &[receipt]),
        Err(AuditViolation::MintCapExceeded { minted: 11, cap: 10 })
    );
}

#[test]
fn failures_are_counted_since_the_last_success() {
    let eve = PeerId::from_label("eve");
    let bob = PeerId::from_label("bob");
    let mut throttle = Throttle::new(config());
    assert_eq!(throttle.failures(&eve), 0);
    for n in 1..=5u32 {
        throttle.record_failure(eve, 1_000);
        assert_eq!(throttle.failures(&eve), n);
        // No cooldown while the failures are free; then 100 ms, doubled.
        let until = [0, 0, 1_100, 1_200, 1_400][n as usize - 1];
        assert_eq!(
            throttle.check(&eve, 0),
            if until == 0 { Ok(()) } else { Err(GuardError::CoolingDown { until_ms: until }) }
        );
        assert_eq!(throttle.check(&bob, 0), Ok(()));
    }
    throttle.record_success(&eve);
    assert_eq!(throttle.failures(&eve), 0);
    throttle.record_failure(eve, 1_000);
    assert_eq!(throttle.check(&eve, 0), Ok(()));
    assert_eq!(throttle.failures(&bob), 0);
}
