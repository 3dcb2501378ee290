//! What holds of the ledger as a whole.

use vstd::prelude::*;

use crate::account;
use crate::account::{AccountId, AccountView, PolicyView};
use crate::bytemap::Key;
use crate::crypto;
use crate::crypto::{PublicKey, Signature};
use crate::hash;
use crate::receipt;
use crate::receipt::TxError;
use crate::smt;
use crate::state;
use crate::state::StateView;
use crate::sums;
use crate::text;
use crate::transaction;
use crate::transaction::{TransactionKind, TxView};

verus! {

/// The balances of a set of accounts.
spec fn balances_of(accounts: Map<AccountId, AccountView>) -> Map<AccountId, u64> {
    accounts.map_values(|a: AccountView| a.balance)
}

proof fn lemma_write_total(
    accounts: Map<AccountId, AccountView>,
    id: AccountId,
    a: AccountView,
)
    requires
        accounts.dom().finite(),
    ensures
        accounts.insert(id, a).dom().finite(),
        sums::total(balances_of(accounts.insert(id, a))) == sums::total(balances_of(accounts)) - (
        if accounts.contains_key(id) {
            accounts[id].balance as int
        } else {
            0
        }) + a.balance,
{
    assert(balances_of(accounts.insert(id, a)) =~= balances_of(accounts).insert(id, a.balance));
    assert(balances_of(accounts).dom() =~= accounts.dom());
    sums::lemma_total_insert(balances_of(accounts), id, a.balance);
}

/// Figs that a transaction creates.
pub open spec fn minted(s: StateView, tx: TxView) -> u64 {
    match tx.kind {
        TransactionKind::Mint { amount, .. } => if s.verdict(tx) is Ok {
            amount
        } else {
            0
        },
        _ => 0,
    }
}

/// A transaction changes the total supply by what it mints and what it burns
/// as fee: transfers, self-transfers and every kind of failure conserve it.
pub proof fn law_supply_is_accounted_for(s: StateView, tx: TxView)
    requires
        s.well_keyed(),
    ensures
        s.apply(tx).well_keyed(),
        s.apply(tx).supply() == s.supply() + minted(s, tx) - s.receipt(tx).fee_paid,
{
    let accounts = if s.verdict(tx) is Ok {
        s.moved(tx)
    } else {
        s.accounts
    };
    if s.verdict(tx) is Ok {
        let sender = s.accounts[tx.sender];
        if let Some(r) = tx.auth_reveal {
            lemma_write_total(s.accounts, tx.sender, AccountView { auth: r.policy, ..sender });
        }
        let claimed = s.claimed(tx);
        let payer = state::payer(tx);
        if s.base_fee > 0 {
            let a = claimed[payer];
            lemma_write_total(
                claimed,
                payer,
                AccountView { balance: (a.balance - s.base_fee) as u64, ..a },
            );
        }
        let charged = s.charged(tx);
        let to = tx.kind.target();
        let amount = tx.kind.amount();
        let before = match tx.kind {
            TransactionKind::Transfer { .. } => {
                let a = charged[tx.sender];
                lemma_write_total(
                    charged,
                    tx.sender,
                    AccountView { balance: (a.balance - amount) as u64, ..a },
                );
                state::debited(charged, tx.sender, amount)
            },
            TransactionKind::Mint { .. } => charged,
        };
        let b = state::account_or_new(before, to);
        lemma_write_total(before, to, AccountView { balance: (b.balance + amount) as u64, ..b });
    }
    if s.consumes(tx) {
        let a = accounts[tx.sender];
        lemma_write_total(
            accounts,
            tx.sender,
            AccountView { nonce: (a.nonce + 1) as u64, ..a },
        );
    }
}

/// A transaction that fails moves no funds and claims no account. If it fails
/// only when it runs, its sender's nonce goes up by one; if it is invalid,
/// nothing changes at all.
pub proof fn law_failures_leave_no_trace(s: StateView, tx: TxView)
    requires
        s.verdict(tx) is Err,
    ensures
        !s.verdict(tx)->Err_0.is_runtime() ==> s.apply(tx) == s,
        s.apply(tx).accounts.dom() == s.accounts.dom(),
        forall|id: AccountId| #[trigger]
            s.accounts.contains_key(id) ==> {
                let a = s.accounts[id];
                let b = s.apply(tx).accounts[id];
                &&& b.balance == a.balance
                &&& b.auth == a.auth
                &&& id != tx.sender ==> b == a
                &&& id == tx.sender && a.nonce < u64::MAX && s.verdict(tx)->Err_0.is_runtime()
                    ==> b.nonce == a.nonce + 1
            },
{
    assert(s.apply(tx).accounts.dom() =~= s.accounts.dom());
}

/// A transaction that has used its nonce is refused ever after: whatever
/// transactions follow, it fails with a bad nonce.
pub proof fn law_no_replay(s: StateView, tx: TxView, txs: Seq<TxView>)
    requires
        s.consumes(tx),
        tx.nonce < u64::MAX,
        s.apply(tx).nonces_left(txs),
    ensures
        ({
            let later = s.apply(tx).apply_all(txs);
            later.accounts.contains_key(tx.sender) && later.verdict(tx) == Err::<(), TxError>(
                TxError::BadNonce {
                    expected: later.accounts[tx.sender].nonce,
                    got: tx.nonce,
                },
            )
        }),
{
    state::lemma_nonces_grow(s.apply(tx), txs, tx.sender);
}

/// A transaction that takes effect does so once: applied again at once, it is
/// refused for its nonce and changes nothing.
pub proof fn law_no_double_effect(s: StateView, tx: TxView)
    requires
        s.consumes(tx),
        tx.nonce < u64::MAX,
    ensures
        s.apply(tx).verdict(tx) == Err::<(), TxError>(
            TxError::BadNonce { expected: (tx.nonce + 1) as u64, got: tx.nonce },
        ),
        s.apply(tx).apply(tx) == s.apply(tx),
{
}

/// Only the sender's policy can authorize a transaction: one that takes effect
/// satisfies the policy that governs its sender, on this network and at the
/// sender's nonce.
pub proof fn law_spending_needs_authority(s: StateView, tx: TxView)
    requires
        s.apply(tx) != s,
    ensures
        s.accounts.contains_key(tx.sender),
        s.accounts[tx.sender].nonce == tx.nonce,
        s.chain_id == tx.chain_id,
        ({
            let policy = state::governing_policy(s.accounts[tx.sender], tx);
            policy is Some && state::satisfied(policy->0, tx.id()@, tx.signatures)
        }),
{
}

/// A threshold of zero authorizes nothing, and a threshold that is met has
/// that many *distinct* keys with a signature of their own.
pub proof fn law_thresholds_count_distinct_keys(
    m: u8,
    keys: Seq<PublicKey>,
    message: Seq<u8>,
    signatures: Seq<Signature>,
)
    requires
        state::satisfied(PolicyView::Threshold { m, keys }, message, signatures),
    ensures
        m >= 1,
        exists|set: Set<PublicKey>|
            {
                &&& set.finite()
                &&& set.len() >= m
                &&& forall|key: PublicKey| #[trigger]
                    set.contains(key) ==> keys.contains(key) && state::signed_by(
                        key,
                        message,
                        signatures,
                    )
            },
{
    let set = state::signers(keys, message, signatures);
    vstd::seq_lib::seq_to_set_is_finite(keys);
    assert(set.finite());
    assert forall|key: PublicKey| #[trigger] set.contains(key) implies keys.contains(key)
        && state::signed_by(key, message, signatures) by {}
}

proof fn lemma_signed_among(
    key: PublicKey,
    message: Seq<u8>,
    a: Seq<Signature>,
    b: Seq<Signature>,
)
    requires
        a.to_set() == b.to_set(),
        state::signed_by(key, message, a),
    ensures
        state::signed_by(key, message, b),
{
    let i = choose|i: int| 0 <= i < a.len() && crypto::verifies(key, message, #[trigger] a[i]);
    assert(a.to_set().contains(a[i]));
    let j = choose|j: int| 0 <= j < b.len() && b[j] == a[i];
    assert(crypto::verifies(key, message, b[j]));
}

/// Listing a key twice, or signing twice, makes no difference: a threshold looks
/// at which keys are listed and at which signatures are there, not how often.
pub proof fn law_repetition_adds_no_authority(
    m: u8,
    keys: Seq<PublicKey>,
    other_keys: Seq<PublicKey>,
    message: Seq<u8>,
    signatures: Seq<Signature>,
    other_signatures: Seq<Signature>,
)
    requires
        keys.to_set() == other_keys.to_set(),
        signatures.to_set() == other_signatures.to_set(),
    ensures
        state::satisfied(PolicyView::Threshold { m, keys }, message, signatures)
            == state::satisfied(
            PolicyView::Threshold { m, keys: other_keys },
            message,
            other_signatures,
        ),
{
    assert forall|key: PublicKey|
        state::signed_by(key, message, signatures) == state::signed_by(
            key,
            message,
            other_signatures,
        ) by {
        if state::signed_by(key, message, signatures) {
            lemma_signed_among(key, message, signatures, other_signatures);
        }
        if state::signed_by(key, message, other_signatures) {
            lemma_signed_among(key, message, other_signatures, signatures);
        }
    }
    assert(state::signers(keys, message, signatures) =~= state::signers(
        other_keys,
        message,
        other_signatures,
    ));
}

/// Funds at an unclaimed account move only for a transaction that reveals the
/// policy its id commits to, and that satisfies it. The first spend that
/// succeeds claims the account for good.
pub proof fn law_first_spend_claims(s: StateView, tx: TxView)
    requires
        s.well_keyed(),
        s.apply(tx) != s,
        s.accounts[tx.sender].auth is Unclaimed,
    ensures
        tx.auth_reveal is Some,
        tx.auth_reveal->0.id() == tx.sender,
        state::satisfied(tx.auth_reveal->0.policy, tx.id()@, tx.signatures),
        s.verdict(tx) is Ok ==> s.apply(tx).accounts[tx.sender].auth
            == tx.auth_reveal->0.policy,
{
    law_spending_needs_authority(s, tx);
}

/// A policy, once claimed, never changes.
pub proof fn law_policies_are_permanent(s: StateView, tx: TxView, id: AccountId)
    requires
        s.accounts.contains_key(id),
        !(s.accounts[id].auth is Unclaimed),
    ensures
        s.apply(tx).accounts.contains_key(id),
        s.apply(tx).accounts[id].auth == s.accounts[id].auth,
{
}

/// A sponsor pays the base fee and nothing else; the sender pays what it
/// transfers and nothing else.
pub proof fn law_sponsors_pay_the_fee(s: StateView, tx: TxView)
    requires
        s.verdict(tx) is Ok,
        state::payer(tx) != tx.sender,
        state::payer(tx) != tx.kind.target(),
        tx.kind.target() != tx.sender,
    ensures
        s.apply(tx).balance(state::payer(tx)) == s.balance(state::payer(tx)) - s.base_fee,
        s.apply(tx).balance(tx.sender) == s.balance(tx.sender) - state::spend(tx),
        s.apply(tx).balance(tx.kind.target()) == s.balance(tx.kind.target()) + tx.kind.amount(),
{
}

/// Without a sponsor the sender pays both, and what the target gains is what
/// the sender loses beyond the fee.
pub proof fn law_senders_pay_their_own_way(s: StateView, tx: TxView)
    requires
        s.verdict(tx) is Ok,
        state::payer(tx) == tx.sender,
        tx.kind.target() != tx.sender,
    ensures
        s.apply(tx).balance(tx.sender) == s.balance(tx.sender) - state::spend(tx) - s.base_fee,
        s.apply(tx).balance(tx.kind.target()) == s.balance(tx.kind.target()) + tx.kind.amount(),
{
}

/// A transaction that the ledger's limits admit is short enough for its id to
/// bind its payload: two of them share an id exactly if they agree on everything
/// but the signatures, unless the hash inputs collide.
pub proof fn law_ids_stand_for_payloads(a: TxView, b: TxView)
    requires
        state::within_limits(a),
        state::within_limits(b),
    ensures
        a.frames(),
        b.frames(),
        a.payload() == b.payload() ==> a.id() == b.id(),
        a.id() == b.id() ==> a.payload() == b.payload() || hash::collide(
            a.id_input(),
            b.id_input(),
        ),
{
    lemma_bounded_frames(a);
    lemma_bounded_frames(b);
    transaction::law_id_ignores_signatures(a, b.signatures);
    if a.payload() == b.payload() {
        assert(a.payload().id_parts() =~= a.id_parts());
        assert(b.payload().id_parts() =~= b.id_parts());
    }
    if a.id() == b.id() {
        transaction::law_id_binds_payload(a, b);
    }
}

proof fn lemma_bounded_frames(tx: TxView)
    requires
        state::within_limits(tx),
    ensures
        tx.frames(),
{
    broadcast use crate::bytes::lemma_le_bytes_len;

    transaction::lemma_id_bytes_len(tx.access.reads);
    transaction::lemma_id_bytes_len(tx.access.writes);
    if let Some(r) = tx.auth_reveal {
        if let PolicyView::Threshold { keys, .. } = r.policy {
            account::lemma_key_bytes_len(keys);
        }
    }
}

/// Supply only ever grows at the hands of the issuance authority.
pub proof fn law_only_the_minter_mints(s: StateView, tx: TxView)
    requires
        minted(s, tx) > 0,
    ensures
        s.minter == Some(tx.sender),
{
}

/// Whether two states say the same of one account.
pub open spec fn same_at(a: StateView, b: StateView, id: AccountId) -> bool {
    &&& a.accounts.contains_key(id) == b.accounts.contains_key(id)
    &&& a.accounts.contains_key(id) ==> a.accounts[id] == b.accounts[id]
}

/// Whether two states have the same consensus configuration.
pub open spec fn same_config(a: StateView, b: StateView) -> bool {
    a.bare() == b.bare()
}

/// A transaction changes no account outside its declared writes.
pub proof fn law_writes_are_declared(s: StateView, tx: TxView, id: AccountId)
    requires
        !tx.access.writes.contains(id),
    ensures
        same_at(s, s.apply(tx), id),
        same_config(s, s.apply(tx)),
{
}

/// What a transaction does depends on its sender and its declared writes
/// alone: two states that agree on those give the same receipt and the same
/// new accounts.
pub proof fn law_effects_depend_on_declared(s: StateView, t: StateView, tx: TxView)
    requires
        same_config(s, t),
        same_at(s, t, tx.sender),
        forall|id: AccountId| #[trigger] tx.access.writes.contains(id) ==> same_at(s, t, id),
    ensures
        s.receipt(tx) == t.receipt(tx),
        forall|id: AccountId| #[trigger]
            tx.access.writes.contains(id) ==> same_at(s.apply(tx), t.apply(tx), id),
{
    assert(s.bare() == t.bare());
    assert(s.chain_id == s.bare().chain_id && t.chain_id == t.bare().chain_id);
    assert(s.minter == s.bare().minter && t.minter == t.bare().minter);
    assert(s.base_fee == s.bare().base_fee && t.base_fee == t.bare().base_fee);
    assert(s.verdict(tx) == t.verdict(tx)) by {
        if s.access_covers(tx) {
            assert(tx.access.writes.contains(tx.kind.target()));
            assert(same_at(s, t, tx.kind.target()));
            if s.base_fee > 0 {
                assert(tx.access.writes.contains(state::payer(tx)));
                assert(same_at(s, t, state::payer(tx)));
            }
        }
    }
    if s.verdict(tx) is Ok {
        assert(same_at(s, t, tx.kind.target()));
    }
    assert forall|id: AccountId| #[trigger] tx.access.writes.contains(id) implies same_at(
        s.apply(tx),
        t.apply(tx),
        id,
    ) by {
        assert(same_at(s, t, id));
    }
}

/// An account's tree value stands for one account, unless the hash inputs
/// collide.
pub proof fn law_value_digest_binds(a: AccountView, b: AccountView)
    requires
        state::value_digest(a) == state::value_digest(b),
    ensures
        a == b || hash::collide(state::value_input(a), state::value_input(b)),
{
    hash::law_lone_part_binds(text::utf8("phi:account:state"@), a.encoded(), b.encoded());
    if !hash::collide(state::value_input(a), state::value_input(b)) {
        account::law_account_encoding_injective(a, b);
    }
}

/// What a state says of an account.
pub open spec fn lookup(s: StateView, id: AccountId) -> Option<AccountView> {
    if s.accounts.contains_key(id) {
        Some(s.accounts[id])
    } else {
        None
    }
}

/// A state root commits to every account: balance, nonce and policy. Two
/// states with one root hold the same accounts, unless two of their hash inputs
/// collide.
pub proof fn law_root_binds_accounts(s: StateView, t: StateView)
    requires
        s.root() == t.root(),
    ensures
        s.accounts == t.accounts || hash::collision_in(s.root_inputs().union(t.root_inputs())),
{
    let inputs = s.root_inputs().union(t.root_inputs());
    if !hash::collision_in(inputs) {
        assert(smt::root_inputs(s.entries()).union(smt::root_inputs(t.entries())).subset_of(
            inputs,
        ));
        smt::law_root_binds_map(s.entries(), t.entries());
        assert forall|id: AccountId| same_at(s, t, id) by {
            let k: Key = id.0.0;
            assert(AccountId(hash::Hash(k)) == id);
            assert(s.entries().contains_key(k) == s.accounts.contains_key(id));
            assert(t.entries().contains_key(k) == t.accounts.contains_key(id));
            if s.accounts.contains_key(id) {
                assert(s.entries()[k] == t.entries()[k]);
                assert(s.root_inputs().contains(state::value_input(s.accounts[id])));
                assert(t.root_inputs().contains(state::value_input(t.accounts[id])));
                law_value_digest_binds(s.accounts[id], t.accounts[id]);
            }
        }
        assert forall|id: AccountId| #[trigger] s.accounts.contains_key(id)
            == t.accounts.contains_key(id) by {
            assert(same_at(s, t, id));
        }
        assert forall|id: AccountId| s.accounts.contains_key(id) implies #[trigger] s.accounts[id]
            == t.accounts[id] by {
            assert(same_at(s, t, id));
        }
        assert(s.accounts =~= t.accounts);
    }
}

/// The account proof that a state builds for any id shows what the state says
/// of it: the account if it exists, its absence if it does not.
pub proof fn law_account_proofs_verify(s: StateView, id: AccountId)
    ensures
        smt::proves(
            s.root(),
            id.0.0,
            state::claim_digest(lookup(s, id)),
            smt::path(s.entries(), id.0.0, 0),
        ),
{
    let k: Key = id.0.0;
    smt::law_proofs_verify(s.entries(), k);
    assert(AccountId(hash::Hash(k)) == id);
    assert(smt::lookup(s.entries(), k) == state::claim_digest(lookup(s, id)));
}

/// Against a state root nothing else can be shown of an account, unless two of
/// the hash inputs of root and proof collide.
pub proof fn law_account_proofs_are_sound(
    s: StateView,
    id: AccountId,
    claim: Option<AccountView>,
    siblings: Seq<hash::Hash>,
)
    requires
        smt::proves(s.root(), id.0.0, state::claim_digest(claim), siblings),
    ensures
        claim == lookup(s, id) || hash::collision_in(
            s.root_inputs().union(state::claim_inputs(id, claim, siblings)),
        ),
{
    let k: Key = id.0.0;
    let inputs = s.root_inputs().union(state::claim_inputs(id, claim, siblings));
    if !hash::collision_in(inputs) {
        let path = smt::proof_inputs(k, state::claim_digest(claim), siblings);
        assert(smt::root_inputs(s.entries()).union(path).subset_of(inputs));
        smt::law_proofs_are_sound(s.entries(), k, state::claim_digest(claim), siblings);
        assert(AccountId(hash::Hash(k)) == id);
        assert(smt::lookup(s.entries(), k) == state::claim_digest(lookup(s, id)));
        if let (Some(a), Some(b)) = (claim, lookup(s, id)) {
            assert(inputs.contains(state::value_input(a)));
            assert(s.root_inputs().contains(state::value_input(b)));
            law_value_digest_binds(a, b);
        }
    }
}

/// A whole block changes the supply by what it mints and burns.
pub proof fn law_block_supply(s: StateView, txs: Seq<TxView>)
    requires
        s.well_keyed(),
    ensures
        s.apply_all(txs).well_keyed(),
        s.apply_all(txs).supply() == s.supply() + minted_by(s, txs) - receipt::fees_of(
            s.receipts(txs),
        ),
    decreases txs.len(),
{
    if txs.len() > 0 {
        let rest = txs.drop_last();
        law_block_supply(s, rest);
        law_supply_is_accounted_for(s.apply_all(rest), txs.last());
        assert(s.receipts(txs).drop_last() =~= s.receipts(rest));
    }
}

/// Figs that a list of transactions creates.
pub open spec fn minted_by(s: StateView, txs: Seq<TxView>) -> int
    decreases txs.len(),
{
    if txs.len() == 0 {
        0
    } else {
        minted_by(s, txs.drop_last()) + minted(s.apply_all(txs.drop_last()), txs.last())
    }
}

} // verus!
