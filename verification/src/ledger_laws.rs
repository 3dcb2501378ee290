//! What the ledger owes its users, said of transactions, accounts and
//! signatures directly: who may spend, which transactions are valid, why one is
//! refused, and what a valid one does to every account.

use vstd::prelude::*;

use crate::account;
use crate::account::{AccountId, AccountView, PolicyView};
use crate::bytemap;
use crate::crypto;
use crate::crypto::{PublicKey, Signature};
use crate::receipt::{Receipt, TxError};
use crate::state;
use crate::state::StateView;
use crate::sums;
use crate::transaction::{AccessView, TransactionKind, TxView};

verus! {

/// An open account needs no signature, and an unclaimed one cannot spend,
/// whatever is signed. A single key authorizes exactly what it signed.
pub proof fn law_simple_policies(
    key: PublicKey,
    message: Seq<u8>,
    signatures: Seq<Signature>,
)
    ensures
        state::satisfied(PolicyView::Open, message, signatures),
        !state::satisfied(PolicyView::Unclaimed, message, signatures),
        state::satisfied(PolicyView::SingleKey(key), message, signatures) <==> exists|i: int|
            0 <= i < signatures.len() && crypto::verifies(key, message, #[trigger] signatures[i]),
{
}

/// A threshold is met as soon as enough distinct keys of the policy have
/// signed, however many more have.
pub proof fn law_enough_signers_authorize(
    m: u8,
    keys: Seq<PublicKey>,
    message: Seq<u8>,
    signatures: Seq<Signature>,
    set: Set<PublicKey>,
)
    requires
        m >= 1,
        set.finite(),
        set.len() >= m,
        forall|key: PublicKey| #[trigger]
            set.contains(key) ==> keys.contains(key) && exists|i: int|
                0 <= i < signatures.len() && crypto::verifies(
                    key,
                    message,
                    #[trigger] signatures[i],
                ),
    ensures
        state::satisfied(PolicyView::Threshold { m, keys }, message, signatures),
{
    let all = state::signers(keys, message, signatures);
    vstd::seq_lib::seq_to_set_is_finite(keys);
    assert(all.finite());
    assert forall|key: PublicKey| #[trigger] set.contains(key) implies all.contains(key) by {
        assert(keys.contains(key));
    }
    assert(set.subset_of(all));
    vstd::set_lib::lemma_len_subset(set, all);
}

/// Too few signers do not meet a threshold: if all that signed are among fewer
/// keys than it asks for, or it asks for none at all, nothing is authorized.
pub proof fn law_too_few_signers_do_not(
    m: u8,
    keys: Seq<PublicKey>,
    message: Seq<u8>,
    signatures: Seq<Signature>,
    set: Set<PublicKey>,
)
    requires
        set.finite(),
        m == 0 || set.len() < m,
        forall|key: PublicKey, i: int|
            keys.contains(key) && 0 <= i < signatures.len() && #[trigger] crypto::verifies(
                key,
                message,
                signatures[i],
            ) ==> set.contains(key),
    ensures
        !state::satisfied(PolicyView::Threshold { m, keys }, message, signatures),
{
    let all = state::signers(keys, message, signatures);
    vstd::seq_lib::seq_to_set_is_finite(keys);
    assert(all.finite());
    assert forall|key: PublicKey| #[trigger] all.contains(key) implies set.contains(key) by {
        let i = choose|i: int|
            0 <= i < signatures.len() && crypto::verifies(key, message, #[trigger] signatures[i]);
        assert(crypto::verifies(key, message, signatures[i]));
    }
    assert(all.subset_of(set));
    vstd::set_lib::lemma_len_subset(all, set);
}

/// Adding signatures never takes authority away.
pub proof fn law_signatures_only_add_authority(
    policy: PolicyView,
    message: Seq<u8>,
    some: Seq<Signature>,
    more: Seq<Signature>,
)
    requires
        state::satisfied(policy, message, some),
        forall|i: int| 0 <= i < some.len() ==> more.contains(#[trigger] some[i]),
    ensures
        state::satisfied(policy, message, more),
{
    assert forall|key: PublicKey| state::signed_by(key, message, some) implies state::signed_by(
        key,
        message,
        more,
    ) by {
        let i = choose|i: int|
            0 <= i < some.len() && crypto::verifies(key, message, #[trigger] some[i]);
        let j = choose|j: int| 0 <= j < more.len() && more[j] == some[i];
        assert(crypto::verifies(key, message, more[j]));
    }
    if let PolicyView::Threshold { m, keys } = policy {
        let a = state::signers(keys, message, some);
        let b = state::signers(keys, message, more);
        vstd::seq_lib::seq_to_set_is_finite(keys);
        assert(b.finite());
        assert(a.subset_of(b));
        vstd::set_lib::lemma_len_subset(a, b);
    }
}

/// A lower threshold over more keys is no harder to meet.
pub proof fn law_weaker_thresholds_are_easier(
    m: u8,
    keys: Seq<PublicKey>,
    lower: u8,
    wider: Seq<PublicKey>,
    message: Seq<u8>,
    signatures: Seq<Signature>,
)
    requires
        1 <= lower <= m,
        forall|i: int| 0 <= i < keys.len() ==> wider.contains(#[trigger] keys[i]),
        state::satisfied(PolicyView::Threshold { m, keys }, message, signatures),
    ensures
        state::satisfied(PolicyView::Threshold { m: lower, keys: wider }, message, signatures),
{
    let a = state::signers(keys, message, signatures);
    let b = state::signers(wider, message, signatures);
    vstd::seq_lib::seq_to_set_is_finite(wider);
    assert(b.finite());
    assert forall|key: PublicKey| #[trigger] a.contains(key) implies b.contains(key) by {
        let i = choose|i: int| 0 <= i < keys.len() && keys[i] == key;
        assert(wider.contains(keys[i]));
    }
    assert(a.subset_of(b));
    vstd::set_lib::lemma_len_subset(a, b);
}

/// Who pays the fee, in words: the sponsor if there is one, else the sender.
pub open spec fn who_pays(tx: TxView) -> AccountId {
    if tx.sponsor is Some {
        tx.sponsor->0
    } else {
        tx.sender
    }
}

/// The figs that the sender itself needs: what it transfers, and the fee
/// unless another account pays it.
pub open spec fn own_need(s: StateView, tx: TxView) -> int {
    (match tx.kind {
        TransactionKind::Transfer { amount, .. } => amount as int,
        TransactionKind::Mint { .. } => 0,
    }) + (if tx.sponsor is None || tx.sponsor == Some(tx.sender) {
        s.base_fee as int
    } else {
        0
    })
}

/// A valid transaction is for this network, within the limits, willing to pay
/// the fee, at its sender's nonce, and by a sender that exists, signed for what
/// it spends, declares every account it writes, and is funded; only the issuance
/// authority mints.
pub proof fn law_valid_transactions_are_in_order(s: StateView, tx: TxView)
    requires
        s.verdict(tx) is Ok,
    ensures
        tx.access.reads.len() + tx.access.writes.len() <= 64,
        tx.signatures.len() <= 16,
        tx.auth_reveal is Some && tx.auth_reveal->0.policy is Threshold
            ==> tx.auth_reveal->0.policy->keys.len() <= 16,
        tx.chain_id == s.chain_id,
        tx.max_fee >= s.base_fee,
        s.accounts.contains_key(tx.sender),
        tx.nonce == s.accounts[tx.sender].nonce,
        tx.access.writes.contains(tx.sender),
        tx.kind matches TransactionKind::Transfer { to, .. } ==> tx.access.writes.contains(to),
        tx.kind matches TransactionKind::Mint { to, .. } ==> tx.access.writes.contains(to),
        tx.kind is Mint ==> s.minter == Some(tx.sender),
        s.base_fee > 0 && tx.sponsor is Some ==> {
            &&& tx.access.writes.contains(tx.sponsor->0)
            &&& s.accounts.contains_key(tx.sponsor->0)
            &&& s.accounts[tx.sponsor->0].balance >= s.base_fee
        },
        own_need(s, tx) <= s.accounts[tx.sender].balance,
        tx.kind matches TransactionKind::Transfer { to, amount } ==> s.accounts.contains_key(to)
            && to != tx.sender ==> s.accounts[to].balance + amount <= u64::MAX,
        tx.kind matches TransactionKind::Mint { to, amount } ==> s.accounts.contains_key(to)
            ==> s.accounts[to].balance + amount <= u64::MAX,
        match s.accounts[tx.sender].auth {
            PolicyView::Unclaimed => {
                &&& tx.auth_reveal is Some
                &&& account::auth_id(tx.auth_reveal->0.policy, tx.auth_reveal->0.salt)
                    == s.accounts[tx.sender].id
                &&& state::satisfied(tx.auth_reveal->0.policy, tx.id()@, tx.signatures)
            },
            policy => tx.auth_reveal is None && state::satisfied(policy, tx.id()@, tx.signatures),
        },
{
}

/// A transaction that is in order is valid: nothing else is ever asked.
pub proof fn law_transactions_in_order_are_valid(s: StateView, tx: TxView)
    requires
        tx.access.reads.len() + tx.access.writes.len() <= 64,
        tx.signatures.len() <= 16,
        tx.auth_reveal is Some && tx.auth_reveal->0.policy is Threshold
            ==> tx.auth_reveal->0.policy->keys.len() <= 16,
        tx.chain_id == s.chain_id,
        tx.max_fee >= s.base_fee,
        s.accounts.contains_key(tx.sender),
        tx.nonce == s.accounts[tx.sender].nonce,
        tx.access.writes.contains(tx.sender),
        tx.kind matches TransactionKind::Transfer { to, .. } ==> tx.access.writes.contains(to),
        tx.kind matches TransactionKind::Mint { to, .. } ==> tx.access.writes.contains(to),
        tx.kind is Mint ==> s.minter == Some(tx.sender),
        s.base_fee > 0 && tx.sponsor is Some ==> {
            &&& tx.access.writes.contains(tx.sponsor->0)
            &&& s.accounts.contains_key(tx.sponsor->0)
            &&& s.accounts[tx.sponsor->0].balance >= s.base_fee
        },
        own_need(s, tx) <= s.accounts[tx.sender].balance,
        tx.kind matches TransactionKind::Transfer { to, amount } ==> s.accounts.contains_key(to)
            && to != tx.sender ==> s.accounts[to].balance + amount <= u64::MAX,
        tx.kind matches TransactionKind::Mint { to, amount } ==> s.accounts.contains_key(to)
            ==> s.accounts[to].balance + amount <= u64::MAX,
        match s.accounts[tx.sender].auth {
            PolicyView::Unclaimed => {
                &&& tx.auth_reveal is Some
                &&& account::auth_id(tx.auth_reveal->0.policy, tx.auth_reveal->0.salt)
                    == s.accounts[tx.sender].id
                &&& state::satisfied(tx.auth_reveal->0.policy, tx.id()@, tx.signatures)
            },
            policy => tx.auth_reveal is None && state::satisfied(policy, tx.id()@, tx.signatures),
        },
    ensures
        s.verdict(tx) is Ok,
{
}

/// A refusal names a fault that the transaction has, with the figures of the
/// case, and no fault that is looked for earlier: size, network, fee, sender,
/// access, nonce, reveal, signatures, issuance, funds, room for the credit.
pub proof fn law_refusals_tell_the_first_fault(s: StateView, tx: TxView)
    ensures
        s.verdict(tx) matches Err(e) ==> {
            let sized = tx.access.reads.len() + tx.access.writes.len() <= 64
                && tx.signatures.len() <= 16 && !(tx.auth_reveal is Some
                && tx.auth_reveal->0.policy is Threshold
                && tx.auth_reveal->0.policy->keys.len() > 16);
            let here = tx.chain_id == s.chain_id;
            let paying = tx.max_fee >= s.base_fee;
            let known = s.accounts.contains_key(tx.sender);
            let declared = tx.access.writes.contains(tx.sender) && tx.access.writes.contains(
                match tx.kind {
                    TransactionKind::Transfer { to, .. } => to,
                    TransactionKind::Mint { to, .. } => to,
                },
            ) && (s.base_fee > 0 ==> tx.access.writes.contains(who_pays(tx)));
            let a = s.accounts[tx.sender];
            let next = tx.nonce == a.nonce;
            let revealed = if a.auth is Unclaimed {
                tx.auth_reveal is Some && account::auth_id(
                    tx.auth_reveal->0.policy,
                    tx.auth_reveal->0.salt,
                ) == a.id
            } else {
                tx.auth_reveal is None
            };
            let signed = state::satisfied(
                if a.auth is Unclaimed {
                    tx.auth_reveal->0.policy
                } else {
                    a.auth
                },
                tx.id()@,
                tx.signatures,
            );
            let issued = tx.kind is Mint ==> s.minter == Some(tx.sender);
            match e {
                TxError::TransactionTooLarge => !sized,
                TxError::WrongChain { expected, got } => {
                    &&& sized && !here
                    &&& expected == s.chain_id && got == tx.chain_id
                },
                TxError::FeeTooLow { base_fee, max_fee } => {
                    &&& sized && here && !paying
                    &&& base_fee == s.base_fee && max_fee == tx.max_fee
                },
                TxError::UnknownSender => sized && here && paying && !known,
                TxError::AccessViolation => sized && here && paying && known && !declared,
                TxError::BadNonce { expected, got } => {
                    &&& sized && here && paying && known && declared && !next
                    &&& expected == a.nonce && got == tx.nonce
                },
                TxError::RevealMismatch => {
                    sized && here && paying && known && declared && next && !revealed
                },
                TxError::AuthFailed => {
                    sized && here && paying && known && declared && next && revealed && !signed
                },
                TxError::UnauthorizedIssuance => {
                    &&& sized && here && paying && known && declared && next && revealed && signed
                    &&& !issued
                },
                TxError::InsufficientBalance { have, need } => {
                    &&& sized && here && paying && known && declared && next && revealed && signed
                    &&& issued && have < need
                    &&& if a.balance < own_need(s, tx) {
                        have == a.balance && need == own_need(s, tx)
                    } else {
                        &&& tx.sponsor is Some && tx.sponsor->0 != tx.sender
                        &&& need == s.base_fee
                        &&& have == (if s.accounts.contains_key(tx.sponsor->0) {
                            s.accounts[tx.sponsor->0].balance
                        } else {
                            0
                        })
                    }
                },
                TxError::Overflow => {
                    &&& sized && here && paying && known && declared && next && revealed && signed
                    &&& issued
                    &&& own_need(s, tx) > u64::MAX || match tx.kind {
                        TransactionKind::Transfer { to, amount } => to != tx.sender
                            && s.accounts.contains_key(to) && s.accounts[to].balance + amount
                            > u64::MAX,
                        TransactionKind::Mint { to, amount } => s.accounts.contains_key(to)
                            && s.accounts[to].balance + amount > u64::MAX,
                    }
                },
            }
        },
{
}

/// What a valid transaction does to every account: the sender gives what it
/// transfers, the target gets it, whoever pays for the transaction loses the
/// fee, the sender's nonce goes up by one, and nobody else notices. A target
/// that did not exist becomes an unclaimed account.
pub proof fn law_valid_transactions_move_exactly(s: StateView, tx: TxView, id: AccountId)
    requires
        s.verdict(tx) is Ok,
        tx.nonce < u64::MAX,
    ensures
        ({
            let after = s.apply(tx);
            let to = match tx.kind {
                TransactionKind::Transfer { to, .. } => to,
                TransactionKind::Mint { to, .. } => to,
            };
            let had = if s.accounts.contains_key(id) {
                s.accounts[id].balance as int
            } else {
                0
            };
            let given = match tx.kind {
                TransactionKind::Transfer { amount, .. } => if id == tx.sender {
                    amount as int
                } else {
                    0
                },
                TransactionKind::Mint { .. } => 0,
            };
            let gotten = match tx.kind {
                TransactionKind::Transfer { to, amount } => if id == to {
                    amount as int
                } else {
                    0
                },
                TransactionKind::Mint { to, amount } => if id == to {
                    amount as int
                } else {
                    0
                },
            };
            let fee = if id == who_pays(tx) {
                s.base_fee as int
            } else {
                0
            };
            &&& after.chain_id == s.chain_id
            &&& after.minter == s.minter
            &&& after.base_fee == s.base_fee
            &&& after.accounts.contains_key(id) <==> s.accounts.contains_key(id) || id == to
            &&& after.accounts.contains_key(id) ==> {
                let b = after.accounts[id];
                &&& b.balance == had - given + gotten - fee
                &&& s.accounts.contains_key(id) ==> {
                    let a = s.accounts[id];
                    &&& b.id == a.id
                    &&& b.nonce == a.nonce + (if id == tx.sender {
                        1int
                    } else {
                        0
                    })
                    &&& b.auth == (if id == tx.sender && tx.auth_reveal is Some {
                        tx.auth_reveal->0.policy
                    } else {
                        a.auth
                    })
                }
                &&& !s.accounts.contains_key(id) ==> b.id == id && b.nonce == 0
                    && b.auth is Unclaimed
            }
        }),
{
}

/// A transaction that lacks funds or room for its credit uses up its sender's
/// nonce and changes nothing else; any other refused one changes nothing.
pub proof fn law_refused_transactions(s: StateView, tx: TxView, id: AccountId)
    requires
        s.verdict(tx) is Err,
    ensures
        ({
            let after = s.apply(tx);
            let e = s.verdict(tx)->Err_0;
            let late = e is InsufficientBalance || e is Overflow;
            &&& !late ==> after == s
            &&& after.chain_id == s.chain_id
            &&& after.minter == s.minter
            &&& after.base_fee == s.base_fee
            &&& after.accounts.contains_key(id) == s.accounts.contains_key(id)
            &&& s.accounts.contains_key(id) && (id != tx.sender || !late) ==> after.accounts[id]
                == s.accounts[id]
            &&& late && s.accounts[tx.sender].nonce < u64::MAX ==> after.accounts[tx.sender] == (
            AccountView {
                nonce: (s.accounts[tx.sender].nonce + 1) as u64,
                ..s.accounts[tx.sender]
            })
        }),
{
}

/// A receipt is that of the transaction, tells what validation says, and shows
/// the fee that was burned: the base fee if it succeeded, nothing otherwise.
pub proof fn law_receipts_tell_what_happened(s: StateView, tx: TxView)
    ensures
        s.receipt(tx).tx_id == tx.id(),
        s.receipt(tx).result == s.verdict(tx),
        s.verdict(tx) is Ok ==> s.receipt(tx).fee_paid == s.base_fee,
        s.verdict(tx) is Err ==> s.receipt(tx).fee_paid == 0,
{
}

/// Transactions take effect one after the other, in their order, each with a
/// receipt of its own: running a list is running its beginning and then the
/// rest.
pub proof fn law_blocks_run_in_order(s: StateView, a: Seq<TxView>, b: Seq<TxView>)
    ensures
        s.apply_all(a + b) == s.apply_all(a).apply_all(b),
        s.receipts(a + b) == s.receipts(a) + s.apply_all(a).receipts(b),
        s.receipts(a).len() == a.len(),
    decreases b.len(), a.len(),
{
    if b.len() > 0 {
        let rest = b.drop_last();
        law_blocks_run_in_order(s, a, rest);
        assert((a + b).drop_last() =~= a + rest);
        assert((a + b).last() == b.last());
        assert(s.receipts(a + b) =~= s.receipts(a) + s.apply_all(a).receipts(b));
    } else {
        assert(a + b =~= a);
        assert(s.receipts(a) + s.apply_all(a).receipts(b) =~= s.receipts(a));
        if a.len() > 0 {
            law_blocks_run_in_order(s, a.drop_last(), Seq::empty());
        }
    }
}

/// One transaction is a list of one, and no transaction changes nothing.
pub proof fn law_single_transactions(s: StateView, tx: TxView)
    ensures
        s.apply_all(Seq::empty()) == s,
        s.receipts(Seq::empty()).len() == 0,
        s.apply_all(seq![tx]) == s.apply(tx),
        s.receipts(seq![tx]) == seq![s.receipt(tx)],
{
    let none = Seq::<TxView>::empty();
    let one = seq![tx];
    assert(one.drop_last() =~= none);
    assert(one.last() == tx);
    assert(s.apply_all(none) == s);
    assert(s.apply_all(one) == s.apply_all(none).apply(tx));
    assert(s.receipts(none) =~= Seq::<Receipt>::empty());
    assert(s.receipts(one) == s.receipts(none).push(s.apply_all(none).receipt(tx)));
    assert(s.receipts(one) =~= seq![s.receipt(tx)]);
}

/// Each receipt of a list is that of its transaction in the state that the
/// ones before it left.
pub proof fn law_receipts_match_their_place(s: StateView, txs: Seq<TxView>, i: int)
    requires
        0 <= i < txs.len(),
    ensures
        s.receipts(txs).len() == txs.len(),
        s.receipts(txs)[i] == s.apply_all(txs.take(i)).receipt(txs[i]),
    decreases txs.len(),
{
    if i == txs.len() - 1 {
        assert(txs.drop_last() =~= txs.take(i));
        law_blocks_run_in_order(s, txs.take(i), Seq::empty());
        law_blocks_run_in_order(s, txs, Seq::empty());
    } else {
        let rest = txs.drop_last();
        law_receipts_match_their_place(s, rest, i);
        law_blocks_run_in_order(s, txs, Seq::empty());
        assert(rest.take(i) =~= txs.take(i));
        assert(s.receipts(txs) == s.receipts(rest).push(s.apply_all(rest).receipt(txs.last())));
    }
}

/// The supply is the sum of all balances: nothing in an empty ledger, and an
/// account adds what it holds.
pub proof fn law_supply_adds_up_the_balances(s: StateView, id: AccountId, a: AccountView)
    requires
        s.accounts.dom().finite(),
        !s.accounts.contains_key(id),
    ensures
        s.bare().supply() == 0,
        (StateView { accounts: s.accounts.insert(id, a), ..s }).supply() == s.supply()
            + a.balance,
{
    let t = StateView { accounts: s.accounts.insert(id, a), ..s };
    assert(s.bare().balances() =~= Map::<AccountId, u64>::empty());
    assert(t.balances() =~= s.balances().insert(id, a.balance));
    assert(s.balances().dom() =~= s.accounts.dom());
    sums::lemma_total_insert(s.balances(), id, a.balance);
}

/// Balance and nonce are those of the account; an account that does not exist
/// has neither.
pub proof fn law_reads_are_faithful(s: StateView, id: AccountId)
    ensures
        s.accounts.contains_key(id) ==> s.balance(id) == s.accounts[id].balance && s.nonce(id)
            == s.accounts[id].nonce,
        !s.accounts.contains_key(id) ==> s.balance(id) == 0 && s.nonce(id) == 0,
{
}

/// A root speaks of the accounts alone: who holds the same has the same root.
pub proof fn law_equal_accounts_share_a_root(s: StateView, t: StateView)
    requires
        s.accounts == t.accounts,
    ensures
        s.root() == t.root(),
{
    assert(s.entries() =~= t.entries());
}

/// A plain transfer between two accounts declares what it writes, so an open
/// account can make one whenever it holds the amount.
pub proof fn law_plain_transfers_work(
    s: StateView,
    from: AccountId,
    nonce: u64,
    to: AccountId,
    amount: u64,
)
    requires
        s.base_fee == 0,
        s.chain_id == 0,
        s.accounts.contains_key(from),
        s.accounts[from].auth is Open,
        s.accounts[from].nonce == nonce,
        to == from || !s.accounts.contains_key(to) || s.accounts[to].balance + amount <= u64::MAX,
    ensures
        ({
            let tx = TxView::plain(from, nonce, TransactionKind::Transfer { to, amount });
            s.verdict(tx) is Ok <==> amount <= s.accounts[from].balance
        }),
{
    let tx = TxView::plain(from, nonce, TransactionKind::Transfer { to, amount });
    assert(tx.access.writes[0] == from);
    assert(tx.access.writes[1] == to);
}

/// A plain mint works for the issuance authority, and for nobody else.
pub proof fn law_plain_mints_work(
    s: StateView,
    from: AccountId,
    nonce: u64,
    to: AccountId,
    amount: u64,
)
    requires
        s.base_fee == 0,
        s.chain_id == 0,
        s.accounts.contains_key(from),
        s.accounts[from].auth is Open,
        s.accounts[from].nonce == nonce,
        !s.accounts.contains_key(to) || s.accounts[to].balance + amount <= u64::MAX,
    ensures
        ({
            let tx = TxView::plain(from, nonce, TransactionKind::Mint { to, amount });
            s.verdict(tx) is Ok <==> s.minter == Some(from)
        }),
{
    let tx = TxView::plain(from, nonce, TransactionKind::Mint { to, amount });
    assert(tx.access.writes[0] == from);
    assert(tx.access.writes[1] == to);
}

/// Two access sets are disjoint exactly if nobody writes what the other one
/// reads or writes. Reading the same account is no conflict.
pub proof fn law_disjoint_sets_share_no_write(a: AccessView, b: AccessView)
    ensures
        a.disjoint(b) <==> {
            &&& forall|id: AccountId| #[trigger]
                a.writes.contains(id) ==> !b.reads.contains(id) && !b.writes.contains(id)
            &&& forall|id: AccountId| #[trigger] b.writes.contains(id) ==> !a.reads.contains(id)
        },
{
}

/// A listing holds every account of the ledger, once, in the order of the ids,
/// and nothing else.
pub proof fn law_listings_are_complete(
    list: Seq<AccountView>,
    accounts: Map<AccountId, AccountView>,
    id: AccountId,
)
    requires
        state::is_listing(list, accounts),
    ensures
        accounts.contains_key(id) <==> exists|i: int|
            0 <= i < list.len() && (#[trigger] list[i]).id == id,
        forall|i: int|
            0 <= i < list.len() && (#[trigger] list[i]).id == id ==> accounts[id] == list[i],
        forall|i: int, j: int|
            0 <= i < j < list.len() ==> bytemap::less(
                (#[trigger] list[i]).id.0.0,
                (#[trigger] list[j]).id.0.0,
            ),
{
    let entries = state::keyed_list(list);
    bytemap::lemma_as_map(entries);
    assert forall|i: int, j: int| 0 <= i < j < list.len() implies bytemap::less(
        (#[trigger] list[i]).id.0.0,
        (#[trigger] list[j]).id.0.0,
    ) by {
        assert(bytemap::less(entries[i].0, entries[j].0));
    }
    let m = bytemap::as_map(entries);
    assert(accounts.contains_key(id) == m.contains_key(id.0.0));
    if accounts.contains_key(id) {
        let i = choose|i: int| 0 <= i < entries.len() && (#[trigger] entries[i]).0 == id.0.0;
        assert(list[i].id.0.0 == id.0.0);
        assert(list[i].id == id);
    }
    assert forall|i: int| 0 <= i < list.len() && (#[trigger] list[i]).id == id implies accounts[id]
        == list[i] && accounts.contains_key(id) by {
        assert(entries[i].0 == id.0.0);
        bytemap::lemma_as_map_value(entries, i);
        assert(accounts.contains_key(id));
        assert(accounts[id] == m[id.0.0]);
    }
}

} // verus!
