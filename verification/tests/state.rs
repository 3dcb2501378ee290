//! The ledger state machine.

use phi::account::{Account, AccountId, AuthPolicy};
use phi::crypto::{Keypair, Signature, SIGNATURE_LEN};
use phi::limits;
use phi::receipt::{receipts_root, Receipt, TxError};
use phi::state::State;
use phi::transaction::Transaction;

fn id(label: &str) -> AccountId {
    AccountId::from_label(label)
}

#[test]
fn transfer_moves_funds_and_bumps_nonce() {
    let mut state = State::new();
    state.genesis_account(id("alice"), 100);
    state.genesis_account(id("bob"), 0);

    let receipt = state.apply_tx(&Transaction::transfer(id("alice"), 0, id("bob"), 40));
    assert!(receipt.result.is_ok());
    assert_eq!(state.balance(&id("alice")), 60);
    assert_eq!(state.balance(&id("bob")), 40);
    assert_eq!(state.account(&id("alice")).unwrap().nonce, 1);
}

#[test]
fn insufficient_balance_rejected_but_nonce_consumed() {
    let mut state = State::new();
    state.genesis_account(id("alice"), 10);

    let receipt = state.apply_tx(&Transaction::transfer(id("alice"), 0, id("bob"), 40));
    assert_eq!(
        receipt.result,
        Err(TxError::InsufficientBalance { have: 10, need: 40 })
    );
    assert_eq!(state.balance(&id("alice")), 10);
    assert_eq!(state.account(&id("alice")).unwrap().nonce, 1);
}

#[test]
fn replay_rejected() {
    let mut state = State::new();
    state.genesis_account(id("alice"), 100);
    let tx = Transaction::transfer(id("alice"), 0, id("bob"), 5);
    assert!(state.apply_tx(&tx).result.is_ok());
    assert_eq!(
        state.apply_tx(&tx).result,
        Err(TxError::BadNonce {
            expected: 1,
            got: 0
        })
    );
    assert_eq!(state.balance(&id("bob")), 5);
}

#[test]
fn transfers_conserve_supply() {
    let mut state = State::new();
    state.genesis_account(id("alice"), 100);
    state.genesis_account(id("bob"), 50);
    let before = state.total_supply();
    state.apply_tx(&Transaction::transfer(id("alice"), 0, id("bob"), 30));
    state.apply_tx(&Transaction::transfer(id("bob"), 0, id("alice"), 80));
    assert_eq!(state.total_supply(), before);
}

#[test]
fn state_root_is_deterministic_and_changes_on_writes() {
    let mut a = State::new();
    let mut b = State::new();
    a.genesis_account(id("alice"), 100);
    b.genesis_account(id("alice"), 100);
    assert_eq!(a.root(), b.root());

    a.apply_tx(&Transaction::transfer(id("alice"), 0, id("bob"), 1));
    assert_ne!(a.root(), b.root());
}

#[test]
fn recipient_overflow_makes_no_state_change() {
    // A credit that overflows must not leave the sender debited.
    let mut state = State::new();
    state.genesis_account(id("alice"), 100);
    state.genesis_account(id("bob"), u64::MAX);
    let before = state.total_supply();

    let receipt = state.apply_tx(&Transaction::transfer(id("alice"), 0, id("bob"), 1));
    assert_eq!(receipt.result, Err(TxError::Overflow));
    assert_eq!(state.balance(&id("alice")), 100, "debit must not persist");
    assert_eq!(state.balance(&id("bob")), u64::MAX);
    assert_eq!(state.total_supply(), before);
    // Overflow is a runtime failure: nonce is consumed.
    assert_eq!(state.account(&id("alice")).unwrap().nonce, 1);
}

#[test]
fn self_transfer_of_large_balance_is_not_a_false_overflow() {
    let mut state = State::new();
    state.genesis_account(id("alice"), u64::MAX);
    let receipt = state.apply_tx(&Transaction::transfer(id("alice"), 0, id("alice"), 5));
    assert!(receipt.result.is_ok());
    assert_eq!(state.balance(&id("alice")), u64::MAX);
}

#[test]
fn undeclared_access_rejected_without_consuming_nonce() {
    let mut state = State::new();
    state.genesis_account(id("alice"), 100);
    let mut tx = Transaction::transfer(id("alice"), 0, id("bob"), 5);
    tx.access.writes = vec![tx.sender]; // hides the credit to bob
    assert_eq!(state.apply_tx(&tx).result, Err(TxError::AccessViolation));
    assert_eq!(state.account(&id("alice")).unwrap().nonce, 0);
}

#[test]
fn single_key_auth_enforced() {
    let alice_kp = Keypair::from_label("alice-key");
    let policy = AuthPolicy::SingleKey(alice_kp.public());
    let alice = AccountId::from_auth(&policy, 0);
    let mut state = State::new();
    state.genesis_account_with_auth(alice, 100, policy);

    // Unsigned spend fails and must NOT consume the nonce (griefing).
    let unsigned = Transaction::transfer(alice, 0, id("bob"), 5);
    assert_eq!(state.apply_tx(&unsigned).result, Err(TxError::AuthFailed));
    assert_eq!(state.account(&alice).unwrap().nonce, 0);

    // Wrong key fails.
    let forged = Transaction::transfer(alice, 0, id("bob"), 5)
        .signed(&Keypair::from_label("mallory-key"));
    assert_eq!(state.apply_tx(&forged).result, Err(TxError::AuthFailed));

    // Owner's signature succeeds.
    let genuine = Transaction::transfer(alice, 0, id("bob"), 5).signed(&alice_kp);
    assert!(state.apply_tx(&genuine).result.is_ok());
    assert_eq!(state.balance(&id("bob")), 5);
}

#[test]
fn threshold_auth_requires_m_signers() {
    let keys: Vec<Keypair> = (0..3)
        .map(|i| Keypair::from_label(&format!("guardian-{i}")))
        .collect();
    let policy = AuthPolicy::Threshold {
        m: 2,
        keys: keys.iter().map(|k| k.public()).collect(),
    };
    let acct = AccountId::from_auth(&policy, 0);
    let mut state = State::new();
    state.genesis_account_with_auth(acct, 100, policy);

    let one_sig = Transaction::transfer(acct, 0, id("bob"), 5).signed(&keys[0]);
    assert_eq!(state.apply_tx(&one_sig).result, Err(TxError::AuthFailed));

    // The same key twice is still one signer.
    let dup_sig = Transaction::transfer(acct, 0, id("bob"), 5)
        .signed(&keys[0])
        .signed(&keys[0]);
    assert_eq!(state.apply_tx(&dup_sig).result, Err(TxError::AuthFailed));

    let two_sigs = Transaction::transfer(acct, 0, id("bob"), 5)
        .signed(&keys[0])
        .signed(&keys[2]);
    assert!(state.apply_tx(&two_sigs).result.is_ok());
}

#[test]
fn threshold_duplicate_policy_keys_count_as_one_signer() {
    // A key listed multiple times in the policy must not let a single
    // signature satisfy a 2-of-N threshold.
    let kp = Keypair::from_label("solo-guardian");
    let policy = AuthPolicy::Threshold {
        m: 2,
        keys: vec![kp.public(), kp.public(), kp.public()],
    };
    let acct = AccountId::from_auth(&policy, 0);
    let mut state = State::new();
    state.genesis_account_with_auth(acct, 100, policy);

    let one_signer = Transaction::transfer(acct, 0, id("bob"), 5).signed(&kp);
    assert_eq!(state.apply_tx(&one_signer).result, Err(TxError::AuthFailed));
}

#[test]
fn zero_of_n_threshold_never_authorizes() {
    // A malformed 0-of-N policy must not behave like an Open account.
    let policy = AuthPolicy::Threshold { m: 0, keys: vec![] };
    let acct = AccountId::from_auth(&policy, 0);
    let mut state = State::new();
    state.genesis_account_with_auth(acct, 100, policy);

    let unsigned = Transaction::transfer(acct, 0, id("bob"), 5);
    assert_eq!(state.apply_tx(&unsigned).result, Err(TxError::AuthFailed));
}

#[test]
fn unclaimed_account_claims_on_first_spend() {
    let owner_kp = Keypair::from_label("dave-key");
    let policy = AuthPolicy::SingleKey(owner_kp.public());
    let dave = AccountId::from_auth(&policy, 7);

    let mut state = State::new();
    state.genesis_account(id("alice"), 100);
    // Receiving funds creates the account as Unclaimed.
    assert!(state
        .apply_tx(&Transaction::transfer(id("alice"), 0, dave, 40))
        .result
        .is_ok());
    assert_eq!(state.account(&dave).unwrap().auth, AuthPolicy::Unclaimed);

    // Spending without a reveal fails.
    let no_reveal = Transaction::transfer(dave, 0, id("alice"), 10).signed(&owner_kp);
    assert_eq!(
        state.apply_tx(&no_reveal).result,
        Err(TxError::RevealMismatch)
    );

    // A reveal whose hash doesn't match the id fails (attacker policy).
    let mallory_kp = Keypair::from_label("mallory-key");
    let bad_reveal = Transaction::transfer(dave, 0, id("alice"), 10)
        .with_reveal(AuthPolicy::SingleKey(mallory_kp.public()), 7)
        .signed(&mallory_kp);
    assert_eq!(
        state.apply_tx(&bad_reveal).result,
        Err(TxError::RevealMismatch)
    );

    // Correct reveal + signature claims the account and transfers.
    let claim = Transaction::transfer(dave, 0, id("alice"), 10)
        .with_reveal(AuthPolicy::SingleKey(owner_kp.public()), 7)
        .signed(&owner_kp);
    assert!(state.apply_tx(&claim).result.is_ok());
    assert_eq!(
        state.account(&dave).unwrap().auth,
        AuthPolicy::SingleKey(owner_kp.public())
    );
    assert_eq!(state.balance(&dave), 30);

    // A reveal on the now-claimed account is malformed.
    let stale_reveal = Transaction::transfer(dave, 1, id("alice"), 1)
        .with_reveal(AuthPolicy::SingleKey(owner_kp.public()), 7)
        .signed(&owner_kp);
    assert_eq!(
        state.apply_tx(&stale_reveal).result,
        Err(TxError::RevealMismatch)
    );
}

#[test]
fn account_proofs_verify_inclusion_and_exclusion() {
    let mut state = State::new();
    state.genesis_account(id("alice"), 100);
    state.genesis_account(id("bob"), 50);
    let root = state.root();

    let alice_proof = state.prove_account(&id("alice"));
    assert!(State::verify_account_proof(
        &root,
        &id("alice"),
        state.account(&id("alice")),
        &alice_proof
    ));
    // Claiming a different balance fails.
    let fake = Account::new(id("alice"), 1_000_000);
    assert!(!State::verify_account_proof(
        &root,
        &id("alice"),
        Some(&fake),
        &alice_proof
    ));

    // Absent account: exclusion proof.
    let mallory_proof = state.prove_account(&id("mallory"));
    assert!(State::verify_account_proof(
        &root,
        &id("mallory"),
        None,
        &mallory_proof
    ));
    assert!(!State::verify_account_proof(
        &root,
        &id("mallory"),
        Some(&Account::new(id("mallory"), 9)),
        &mallory_proof
    ));
}

#[test]
fn unauthorized_mint_rejected_by_base_ledger() {
    // Minting is not a free-for-all. With issuance frozen
    // (default) nobody can mint; once an authority is set, only it can.
    let mut state = State::new();
    state.genesis_account(id("eve"), 5);
    let mint = Transaction::mint(id("eve"), 0, id("eve"), 1_000_000);
    assert_eq!(
        state.apply_tx(&mint).result,
        Err(TxError::UnauthorizedIssuance)
    );
    assert_eq!(state.total_supply(), 5, "no figs created");
    assert_eq!(
        state.account(&id("eve")).unwrap().nonce,
        0,
        "policy reject keeps nonce"
    );

    state.set_minter(Some(id("treasury")));
    state.genesis_account(id("treasury"), 0);
    // Eve still cannot mint; only the treasury can.
    assert_eq!(
        state
            .apply_tx(&Transaction::mint(id("eve"), 0, id("eve"), 100))
            .result,
        Err(TxError::UnauthorizedIssuance)
    );
    assert!(state
        .apply_tx(&Transaction::mint(id("treasury"), 0, id("alice"), 100))
        .result
        .is_ok());
    assert_eq!(state.total_supply(), 105);
}

#[test]
fn wrong_chain_transaction_rejected() {
    let mut state = State::new();
    state.set_chain_id(1);
    state.genesis_account(id("alice"), 100);
    let foreign = Transaction::transfer(id("alice"), 0, id("bob"), 1).with_chain_id(2);
    assert_eq!(
        state.apply_tx(&foreign).result,
        Err(TxError::WrongChain {
            expected: 1,
            got: 2
        })
    );
    // A signed transaction for chain 2 has a different id on chain 1, so
    // it cannot be replayed here even with a valid signature.
    assert_eq!(state.balance(&id("alice")), 100);
    assert_eq!(state.account(&id("alice")).unwrap().nonce, 0);
}

#[test]
fn oversized_transactions_rejected_before_auth_work() {
    let mut state = State::new();
    state.genesis_account(id("alice"), 100);

    let mut huge_access = Transaction::transfer(id("alice"), 0, id("bob"), 1);
    huge_access.access.writes = (0..limits::MAX_ACCESS_ENTRIES + 1)
        .map(|i| id(&format!("acct-{i}")))
        .collect();
    assert_eq!(
        state.apply_tx(&huge_access).result,
        Err(TxError::TransactionTooLarge)
    );

    let mut many_sigs = Transaction::transfer(id("alice"), 0, id("bob"), 1);
    many_sigs.signatures = vec![blank_signature(); limits::MAX_SIGNATURES + 1];
    assert_eq!(
        state.apply_tx(&many_sigs).result,
        Err(TxError::TransactionTooLarge)
    );
    assert_eq!(
        state.account(&id("alice")).unwrap().nonce,
        0,
        "no nonce burn"
    );
}

fn blank_signature() -> Signature {
    Signature([0u8; SIGNATURE_LEN])
}

#[test]
fn receipts_root_commits_to_outcomes() {
    let ok = Receipt {
        tx_id: phi::hash::Hash::of(b"tx"),
        result: Ok(()),
        fee_paid: 0,
    };
    let failed = Receipt {
        tx_id: phi::hash::Hash::of(b"tx"),
        result: Err(TxError::Overflow),
        fee_paid: 0,
    };
    assert_ne!(
        receipts_root(std::slice::from_ref(&ok)),
        receipts_root(&[failed])
    );
    assert_ne!(receipts_root(&[]), receipts_root(&[ok]));
}

#[test]
fn nothing_takes_effect_twice() {
    let mut state = State::new();
    state.genesis_account(id("alice"), 10);
    // One succeeds, one fails when it runs.
    for (nonce, amount) in [(0, 4), (1, 100)] {
        let tx = Transaction::transfer(id("alice"), nonce, id("bob"), amount);
        assert_eq!(state.apply_tx(&tx).result.is_ok(), amount == 4);
        let root = state.root();
        assert_eq!(
            state.apply_tx(&tx).result,
            Err(TxError::BadNonce { expected: nonce + 1, got: nonce })
        );
        assert_eq!(state.root(), root);
    }
    assert_eq!(state.balance(&id("alice")), 6);
}
