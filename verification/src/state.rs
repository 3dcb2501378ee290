//! The ledger state machine: account store and deterministic state transition.
//!
//! The state commitment is a sparse Merkle tree (see [`crate::smt`]) over
//! canonical account encodings, so inclusion *and* exclusion of any account is
//! provable against a block's state root.

use vstd::prelude::*;

use crate::account;
use crate::account::{Account, AccountId, AccountView, AuthPolicy, PolicyView};
use crate::block::Block;
use crate::bytemap;
use crate::bytemap::{ByteMap, Key};
use crate::crypto;
use crate::crypto::{PublicKey, Signature};
use crate::hash;
use crate::limits;
use crate::receipt::{Receipt, TxError};
use crate::smt;
use crate::smt::SmtProof;
use crate::sums;
use crate::text;
use crate::transaction;
use crate::transaction::{Transaction, TransactionKind, TxView};

verus! {

/// The contents of a [`State`].
#[verifier::ext_equal]
pub struct StateView {
    pub accounts: Map<AccountId, AccountView>,
    pub chain_id: u64,
    pub minter: Option<AccountId>,
    pub base_fee: u64,
}

/// Whether one of the signatures is `key`'s over `message`.
pub open spec fn signed_by(
    key: PublicKey,
    message: Seq<u8>,
    signatures: Seq<Signature>,
) -> bool {
    exists|i: int|
        0 <= i < signatures.len() && crypto::verifies(key, message, #[trigger] signatures[i])
}

/// The distinct keys that signed.
pub open spec fn signers(
    keys: Seq<PublicKey>,
    message: Seq<u8>,
    signatures: Seq<Signature>,
) -> Set<PublicKey> {
    keys.to_set().filter(|key: PublicKey| signed_by(key, message, signatures))
}

/// Whether the signatures satisfy the policy. A threshold counts *distinct*
/// keys, and one of zero authorizes nothing; nor does an unclaimed policy.
pub open spec fn satisfied(
    policy: PolicyView,
    message: Seq<u8>,
    signatures: Seq<Signature>,
) -> bool {
    match policy {
        PolicyView::Open => true,
        PolicyView::SingleKey(key) => signed_by(key, message, signatures),
        PolicyView::Threshold { m, keys } => m >= 1 && signers(
            keys,
            message,
            signatures,
        ).len() >= m,
        PolicyView::Unclaimed => false,
    }
}

/// The policy that must authorize a spend of `sender` by `tx`: its own, or on
/// the first spend the revealed one, which its id commits to. A reveal that is
/// missing, mismatched or out of place leaves none.
pub open spec fn governing_policy(sender: AccountView, tx: TxView) -> Option<PolicyView> {
    match (sender.auth, tx.auth_reveal) {
        (PolicyView::Unclaimed, Some(r)) => if r.id() == sender.id {
            Some(r.policy)
        } else {
            None
        },
        (PolicyView::Unclaimed, None) => None,
        (_, Some(_)) => None,
        (claimed, None) => Some(claimed),
    }
}

/// Whether a transaction respects the structural limits.
pub open spec fn within_limits(tx: TxView) -> bool {
    &&& tx.access.reads.len() + tx.access.writes.len() <= limits::MAX_ACCESS_ENTRIES
    &&& tx.signatures.len() <= limits::MAX_SIGNATURES
    &&& match tx.auth_reveal {
        Some(r) => match r.policy {
            PolicyView::Threshold { keys, .. } => keys.len() <= limits::MAX_THRESHOLD_KEYS,
            _ => true,
        },
        None => true,
    }
}

/// Who pays the fee: the sponsor, or else the sender.
pub open spec fn payer(tx: TxView) -> AccountId {
    match tx.sponsor {
        Some(id) => id,
        None => tx.sender,
    }
}

/// What leaves the sender's balance, fees apart.
pub open spec fn spend(tx: TxView) -> u64 {
    match tx.kind {
        TransactionKind::Transfer { amount, .. } => amount,
        TransactionKind::Mint { .. } => 0,
    }
}

/// A balance taken down.
pub open spec fn debited(
    accounts: Map<AccountId, AccountView>,
    id: AccountId,
    amount: u64,
) -> Map<AccountId, AccountView> {
    let a = accounts[id];
    accounts.insert(id, AccountView { balance: (a.balance - amount) as u64, ..a })
}

/// The account at `id`, or the unclaimed one that a credit would create.
pub open spec fn account_or_new(
    accounts: Map<AccountId, AccountView>,
    id: AccountId,
) -> AccountView {
    if accounts.contains_key(id) {
        accounts[id]
    } else {
        AccountView { id, balance: 0, nonce: 0, auth: PolicyView::Unclaimed }
    }
}

/// A balance brought up, the account being created if need be.
pub open spec fn credited(
    accounts: Map<AccountId, AccountView>,
    id: AccountId,
    amount: u64,
) -> Map<AccountId, AccountView> {
    let a = account_or_new(accounts, id);
    accounts.insert(id, AccountView { balance: (a.balance + amount) as u64, ..a })
}

impl StateView {
    /// A state with this configuration and no accounts.
    pub open spec fn bare(self) -> StateView {
        StateView { accounts: Map::empty(), ..self }
    }

    pub open spec fn balance(self, id: AccountId) -> u64 {
        if self.accounts.contains_key(id) {
            self.accounts[id].balance
        } else {
            0
        }
    }

    /// Every account is stored under its own id, and there are finitely many.
    pub open spec fn well_keyed(self) -> bool {
        &&& self.accounts.dom().finite()
        &&& forall|id: AccountId| #[trigger]
            self.accounts.contains_key(id) ==> self.accounts[id].id == id
    }

    /// The balances.
    pub open spec fn balances(self) -> Map<AccountId, u64> {
        self.accounts.map_values(|a: AccountView| a.balance)
    }

    /// The sum of all balances.
    pub open spec fn supply(self) -> int {
        sums::total(self.balances())
    }

    /// Whether the declared access set covers what execution touches: the
    /// sender, the credited account and a sponsor that is charged.
    pub open spec fn access_covers(self, tx: TxView) -> bool {
        &&& tx.access.writes.contains(tx.sender)
        &&& tx.access.writes.contains(tx.kind.target())
        &&& self.base_fee > 0 ==> tx.access.writes.contains(payer(tx))
    }

    /// Whether the sender can spend and the payer can pay.
    pub open spec fn funding(self, tx: TxView) -> Result<(), TxError> {
        let have = self.balance(tx.sender);
        let need = spend(tx) + if payer(tx) == tx.sender {
            self.base_fee as int
        } else {
            0
        };
        if need > u64::MAX {
            Err(TxError::Overflow)
        } else if have < need {
            Err(TxError::InsufficientBalance { have, need: need as u64 })
        } else if payer(tx) != tx.sender && self.balance(payer(tx)) < self.base_fee {
            Err(
                TxError::InsufficientBalance {
                    have: self.balance(payer(tx)),
                    need: self.base_fee,
                },
            )
        } else {
            Ok(())
        }
    }

    /// Whether the credit fits. A transfer to oneself nets to zero.
    pub open spec fn credit_fits(self, tx: TxView) -> bool {
        ||| tx.kind is Transfer && tx.kind.target() == tx.sender
        ||| self.balance(tx.kind.target()) + tx.kind.amount() <= u64::MAX
    }

    /// The verdict on a transaction. The checks stand in the order in which
    /// they are made: of several faults the first is reported.
    pub open spec fn verdict(self, tx: TxView) -> Result<(), TxError> {
        if !within_limits(tx) {
            Err(TxError::TransactionTooLarge)
        } else if tx.chain_id != self.chain_id {
            Err(TxError::WrongChain { expected: self.chain_id, got: tx.chain_id })
        } else if tx.max_fee < self.base_fee {
            Err(TxError::FeeTooLow { base_fee: self.base_fee, max_fee: tx.max_fee })
        } else if !self.accounts.contains_key(tx.sender) {
            Err(TxError::UnknownSender)
        } else if !self.access_covers(tx) {
            Err(TxError::AccessViolation)
        } else if self.accounts[tx.sender].nonce != tx.nonce {
            Err(TxError::BadNonce { expected: self.accounts[tx.sender].nonce, got: tx.nonce })
        } else {
            match governing_policy(self.accounts[tx.sender], tx) {
                None => Err(TxError::RevealMismatch),
                Some(policy) => if !satisfied(policy, tx.id()@, tx.signatures) {
                    Err(TxError::AuthFailed)
                } else if tx.kind is Mint && self.minter != Some(tx.sender) {
                    Err(TxError::UnauthorizedIssuance)
                } else if self.funding(tx) is Err {
                    self.funding(tx)
                } else if !self.credit_fits(tx) {
                    Err(TxError::Overflow)
                } else {
                    Ok(())
                },
            }
        }
    }

    /// The accounts after the reveal of a first spend has been stored.
    pub open spec fn claimed(self, tx: TxView) -> Map<AccountId, AccountView> {
        match tx.auth_reveal {
            Some(r) => self.accounts.insert(
                tx.sender,
                AccountView { auth: r.policy, ..self.accounts[tx.sender] },
            ),
            None => self.accounts,
        }
    }

    /// The accounts after the fee has been burned, too.
    pub open spec fn charged(self, tx: TxView) -> Map<AccountId, AccountView> {
        if self.base_fee > 0 {
            debited(self.claimed(tx), payer(tx), self.base_fee)
        } else {
            self.claimed(tx)
        }
    }

    /// The accounts after a valid transaction has moved its funds, too.
    pub open spec fn moved(self, tx: TxView) -> Map<AccountId, AccountView> {
        match tx.kind {
            TransactionKind::Transfer { to, amount } => credited(
                debited(self.charged(tx), tx.sender, amount),
                to,
                amount,
            ),
            TransactionKind::Mint { to, amount } => credited(self.charged(tx), to, amount),
        }
    }

    /// Whether the transaction takes effect at all: it is valid, or fails
    /// only when it runs.
    pub open spec fn consumes(self, tx: TxView) -> bool {
        match self.verdict(tx) {
            Ok(_) => true,
            Err(e) => e.is_runtime(),
        }
    }

    /// The state after a transaction. An invalid one changes nothing; one that
    /// fails when it runs consumes the nonce and changes nothing else.
    pub open spec fn apply(self, tx: TxView) -> StateView {
        let accounts = if self.verdict(tx) is Ok {
            self.moved(tx)
        } else {
            self.accounts
        };
        if self.consumes(tx) {
            let a = accounts[tx.sender];
            StateView {
                accounts: accounts.insert(
                    tx.sender,
                    AccountView { nonce: (a.nonce + 1) as u64, ..a },
                ),
                ..self
            }
        } else {
            self
        }
    }

    /// The receipt of a transaction.
    pub open spec fn receipt(self, tx: TxView) -> Receipt {
        Receipt {
            tx_id: tx.id(),
            result: self.verdict(tx),
            fee_paid: if self.verdict(tx) is Ok {
                self.base_fee
            } else {
                0
            },
        }
    }

    /// The state after all transactions, in order.
    pub open spec fn apply_all(self, txs: Seq<TxView>) -> StateView
        decreases txs.len(),
    {
        if txs.len() == 0 {
            self
        } else {
            self.apply_all(txs.drop_last()).apply(txs.last())
        }
    }

    /// The receipts of all transactions, in order.
    pub open spec fn receipts(self, txs: Seq<TxView>) -> Seq<Receipt>
        decreases txs.len(),
    {
        if txs.len() == 0 {
            Seq::empty()
        } else {
            self.receipts(txs.drop_last()).push(
                self.apply_all(txs.drop_last()).receipt(txs.last()),
            )
        }
    }

    /// The nonce that an account is at; zero where there is no account.
    pub open spec fn nonce(self, id: AccountId) -> u64 {
        if self.accounts.contains_key(id) {
            self.accounts[id].nonce
        } else {
            0
        }
    }

    /// Whether a transaction finds a nonce that can still go up. Only the very
    /// last nonce of an account cannot.
    pub open spec fn nonce_left(self, tx: TxView) -> bool {
        tx.nonce < u64::MAX || self.nonce(tx.sender) < u64::MAX
    }

    /// Whether each of the transactions does when they are applied in order:
    /// every one before it takes a nonce up by one at most.
    pub open spec fn nonces_left(self, txs: Seq<TxView>) -> bool {
        forall|i: int|
            0 <= i < txs.len() ==> (#[trigger] txs[i]).nonce < u64::MAX || self.nonce(txs[i].sender)
                + i < u64::MAX
    }

    /// The entries of the state tree: every account id maps to the hash of the
    /// account's canonical encoding.
    pub open spec fn entries(self) -> Map<Key, hash::Hash> {
        Map::new(
            |k: Key| self.accounts.contains_key(AccountId(hash::Hash(k))),
            |k: Key| value_digest(self.accounts[AccountId(hash::Hash(k))]),
        )
    }

    /// The commitment to all accounts.
    pub open spec fn root(self) -> hash::Hash {
        smt::root_of(self.entries())
    }

    /// All that is hashed for the commitment, the accounts included.
    pub open spec fn root_inputs(self) -> Set<Seq<u8>> {
        smt::root_inputs(self.entries()).union(
            Set::new(
                |x: Seq<u8>|
                    exists|id: AccountId| #[trigger]
                        self.accounts.contains_key(id) && x == value_input(self.accounts[id]),
            ),
        )
    }
}

/// What is hashed for an account in the state tree.
pub open spec fn value_input(a: AccountView) -> Seq<u8> {
    hash::tagged_preimage(text::utf8("phi:account:state"@), seq![a.encoded()])
}

/// The hash that stands for an account in the state tree.
pub open spec fn value_digest(a: AccountView) -> hash::Hash {
    hash::tagged(text::utf8("phi:account:state"@), seq![a.encoded()])
}

/// What a claim about an account hashes to.
pub open spec fn claim_digest(a: Option<AccountView>) -> Option<hash::Hash> {
    match a {
        Some(a) => Some(value_digest(a)),
        None => None,
    }
}

/// All that is hashed to check a proof of a claim about an account.
pub open spec fn claim_inputs(
    id: AccountId,
    claim: Option<AccountView>,
    siblings: Seq<hash::Hash>,
) -> Set<Seq<u8>> {
    let path = smt::proof_inputs(id.0.0, claim_digest(claim), siblings);
    match claim {
        Some(a) => path.insert(value_input(a)),
        None => path,
    }
}

fn account_value_hash(a: &Account) -> (h: hash::Hash)
    ensures
        h == value_digest(a@),
{
    let encoded = a.encode();
    let parts: [&[u8]; 1] = [encoded.as_slice()];
    assert(hash::part_views(parts@) =~= seq![a@.encoded()]);
    hash::Hash::of_tagged("phi:account:state".as_bytes(), &parts)
}

/// The contents of a list of accounts.
pub open spec fn account_list(accounts: Seq<Account>) -> Seq<AccountView> {
    Seq::new(accounts.len(), |i: int| accounts[i]@)
}

/// A list of accounts with their keys.
pub open spec fn keyed_list(list: Seq<AccountView>) -> Seq<(Key, AccountView)> {
    Seq::new(list.len(), |i: int| (list[i].id.0.0, list[i]))
}

/// Whether `list` holds exactly the accounts, in ascending order of their ids.
pub open spec fn is_listing(
    list: Seq<AccountView>,
    accounts: Map<AccountId, AccountView>,
) -> bool {
    let m = bytemap::as_map(keyed_list(list));
    &&& bytemap::ascending(keyed_list(list))
    &&& forall|id: AccountId| #[trigger] accounts.contains_key(id) == m.contains_key(id.0.0)
    &&& forall|id: AccountId|
        accounts.contains_key(id) ==> #[trigger] accounts[id] == m[id.0.0]
}

/// The ledger state.
///
/// Beyond the account map, `State` carries the consensus parameters that make
/// the base ledger safe in isolation (not only behind the Cargo guard):
/// `chain_id` (rejects foreign-network transactions), `minter` (the sole
/// account permitted to create figs; `None` freezes issuance entirely) and
/// `base_fee` (burned by every transaction that succeeds).
#[derive(Debug)]
pub struct State {
    accounts: ByteMap<Account>,
    chain_id: u64,
    minter: Option<AccountId>,
    base_fee: u64,
}

/// The accounts that a key-value map holds.
spec fn account_views(m: Map<Key, Account>) -> Map<AccountId, AccountView> {
    Map::new(|id: AccountId| m.contains_key(id.0.0), |id: AccountId| m[id.0.0]@)
}

impl View for State {
    type V = StateView;

    closed spec fn view(&self) -> StateView {
        StateView {
            accounts: account_views(self.accounts@),
            chain_id: self.chain_id,
            minter: self.minter,
            base_fee: self.base_fee,
        }
    }
}

proof fn lemma_views_finite(m: Map<Key, Account>)
    requires
        m.dom().finite(),
    ensures
        account_views(m).dom().finite(),
{
    let f = |k: Key| AccountId(hash::Hash(k));
    m.dom().lemma_map_finite(f);
    assert forall|id: AccountId| #[trigger] account_views(m).dom().contains(id) implies m.dom().map(
        f,
    ).contains(id) by {
        assert(f(id.0.0) == id);
    }
    assert(account_views(m).dom().subset_of(m.dom().map(f)));
    vstd::set_lib::lemma_set_subset_finite(m.dom().map(f), account_views(m).dom());
}

impl Default for State {
    fn default() -> (s: State)
        ensures
            s@ == (StateView { accounts: Map::empty(), chain_id: 0, minter: None, base_fee: 0 }),
    {
        let s = State { accounts: ByteMap::new(), chain_id: 0, minter: None, base_fee: 0 };
        assert(s@.accounts =~= Map::<AccountId, AccountView>::empty());
        s
    }
}

impl State {
    #[verifier::type_invariant]
    spec fn well_formed(&self) -> bool {
        forall|k: Key| #[trigger]
            self.accounts@.contains_key(k) ==> self.accounts@[k].id == AccountId(hash::Hash(k))
    }

    /// An empty ledger: no accounts, network zero, issuance frozen, no fee.
    pub fn new() -> (s: State)
        ensures
            s@ == (StateView { accounts: Map::empty(), chain_id: 0, minter: None, base_fee: 0 }),
    {
        State::default()
    }

    /// This network's id. Transactions must carry a matching `chain_id`.
    pub fn chain_id(&self) -> (id: u64)
        ensures
            id == self@.chain_id,
    {
        self.chain_id
    }

    /// Set the network id (consensus parameter; set at genesis).
    pub fn set_chain_id(&mut self, chain_id: u64)
        ensures
            final(self)@ == (StateView { chain_id, ..old(self)@ }),
    {
        proof {
            use_type_invariant(&*self);
        }
        self.chain_id = chain_id;
    }

    /// What every successful transaction burns.
    pub fn base_fee(&self) -> (fee: u64)
        ensures
            fee == self@.base_fee,
    {
        self.base_fee
    }

    /// Set the base fee (consensus parameter).
    pub fn set_base_fee(&mut self, base_fee: u64)
        ensures
            final(self)@ == (StateView { base_fee, ..old(self)@ }),
    {
        proof {
            use_type_invariant(&*self);
        }
        self.base_fee = base_fee;
    }

    /// An empty state carrying the same consensus configuration (`chain_id`,
    /// `minter`, `base_fee`) but no accounts. The executor builds
    /// per-transaction sandboxes from this so validation inside a sandbox sees
    /// the same issuance authority and network id as the real ledger.
    pub fn empty_like(&self) -> (s: State)
        ensures
            s@ == self@.bare(),
    {
        let s = State {
            accounts: ByteMap::new(),
            chain_id: self.chain_id,
            minter: self.minter,
            base_fee: self.base_fee,
        };
        assert(s@.accounts =~= Map::<AccountId, AccountView>::empty());
        s
    }

    /// The account authorized to mint figs (`None` = issuance frozen).
    pub fn minter(&self) -> (m: Option<AccountId>)
        ensures
            m == self@.minter,
    {
        self.minter
    }

    /// Set (or clear) the issuance authority. The Cargo guard's per-block cap
    /// and supply audit layer on top of this base-ledger rule.
    pub fn set_minter(&mut self, minter: Option<AccountId>)
        ensures
            final(self)@ == (StateView { minter, ..old(self)@ }),
    {
        proof {
            use_type_invariant(&*self);
        }
        self.minter = minter;
    }

    /// Create an `Open`-auth account with an initial balance (genesis/test
    /// helper).
    pub fn genesis_account(&mut self, id: AccountId, balance: u64)
        ensures
            final(self)@ == (StateView {
                accounts: old(self)@.accounts.insert(
                    id,
                    AccountView { id, balance, nonce: 0, auth: PolicyView::Open },
                ),
                ..old(self)@
            }),
    {
        self.upsert_account(Account::new(id, balance));
    }

    /// Create a genesis account with an explicit auth policy.
    pub fn genesis_account_with_auth(&mut self, id: AccountId, balance: u64, auth: AuthPolicy)
        ensures
            final(self)@ == (StateView {
                accounts: old(self)@.accounts.insert(
                    id,
                    AccountView { id, balance, nonce: 0, auth: auth@ },
                ),
                ..old(self)@
            }),
    {
        self.upsert_account(Account::with_auth(id, balance, auth));
    }

    /// Insert or replace an account verbatim. Used by genesis construction and
    /// by the executor when merging sandbox writes; not a user-level
    /// operation.
    pub fn upsert_account(&mut self, account: Account)
        ensures
            final(self)@ == (StateView {
                accounts: old(self)@.accounts.insert(account.id, account@),
                ..old(self)@
            }),
    {
        proof {
            use_type_invariant(&*self);
        }
        let ghost before = self.accounts@;
        let ghost id = account.id;
        let ghost value = account;
        let mut accounts: ByteMap<Account> = ByteMap::new();
        std::mem::swap(&mut accounts, &mut self.accounts);
        accounts.insert(account.id.0.0, account);
        self.accounts = accounts;
        proof {
            assert forall|a: AccountId| a.0.0 == id.0.0 implies a == id by {}
            assert(account_views(before.insert(id.0.0, value)) =~= account_views(before).insert(
                id,
                value@,
            ));
        }
    }

    pub fn account(&self, id: &AccountId) -> (a: Option<&Account>)
        ensures
            match a {
                Some(a) => self@.accounts.contains_key(*id) && self@.accounts[*id] == a@ && a.id
                    == *id,
                None => !self@.accounts.contains_key(*id),
            },
    {
        proof {
            use_type_invariant(self);
        }
        self.accounts.get(&id.0.0)
    }

    pub fn balance(&self, id: &AccountId) -> (b: u64)
        ensures
            b == self@.balance(*id),
    {
        match self.account(id) {
            Some(a) => a.balance,
            None => 0,
        }
    }

    /// How many accounts the ledger holds.
    pub fn account_count(&self) -> (n: usize)
        ensures
            n == self@.accounts.dom().len(),
            self@.well_keyed(),
    {
        let n = self.accounts.len();
        proof {
            use_type_invariant(self);
            lemma_views_finite(self.accounts@);
            let f = |k: Key| AccountId(hash::Hash(k));
            assert(self@.accounts.dom() =~= self.accounts@.dom().map(f)) by {
                assert forall|id: AccountId| self@.accounts.dom().contains(id) implies #[trigger]
                    self.accounts@.dom().map(f).contains(id) by {
                    assert(f(id.0.0) == id);
                }
            }
            vstd::set_lib::lemma_map_size(self.accounts@.dom(), self@.accounts.dom(), f);
        }
        n
    }

    /// All accounts, in ascending order of their ids.
    pub fn accounts_in_order(&self) -> (list: Vec<Account>)
        ensures
            is_listing(account_list(list@), self@.accounts),
            self@.well_keyed(),
    {
        let count: usize = self.accounts.len();
        let ghost all = self.accounts.entries();
        let mut list: Vec<Account> = Vec::new();
        let mut i: usize = 0;
        while i < count
            invariant
                i <= count,
                count == all.len(),
                all == self.accounts.entries(),
                list@.len() == i,
                forall|j: int| 0 <= j < i ==> (#[trigger] list@[j])@ == all[j].1@,
            decreases count - i,
        {
            list.push(self.accounts.value_at(i).clone());
            i += 1;
        }
        proof {
            use_type_invariant(self);
            lemma_views_finite(self.accounts@);
            lemma_in_order(self.accounts@, all, account_list(list@));
        }
        list
    }

    /// The nonce that an account is at; zero where there is no account.
    pub fn nonce(&self, id: &AccountId) -> (n: u64)
        ensures
            n == self@.nonce(*id),
    {
        match self.account(id) {
            Some(a) => a.nonce,
            None => 0,
        }
    }

    /// Whether the transactions can be applied in order without a nonce
    /// running out.
    pub fn has_nonces_left(&self, txs: &[Transaction]) -> (ok: bool)
        ensures
            ok == self@.nonces_left(transaction::tx_views(txs@)),
    {
        let ghost views = transaction::tx_views(txs@);
        let mut i: usize = 0;
        while i < txs.len()
            invariant
                i <= txs@.len(),
                views == transaction::tx_views(txs@),
                forall|j: int|
                    0 <= j < i ==> (#[trigger] views[j]).nonce < u64::MAX || self@.nonce(
                        views[j].sender,
                    ) + j < u64::MAX,
            decreases txs@.len() - i,
        {
            assert(views[i as int] == txs@[i as int]@);
            if txs[i].nonce == u64::MAX && self.nonce(&txs[i].sender) as u128 + i as u128
                >= u64::MAX as u128 {
                return false;
            }
            i += 1;
        }
        true
    }

    /// Total supply across all accounts (conservation invariant checks). Even
    /// with extreme balances the sum leaves room for another 64-bit number.
    pub fn total_supply(&self) -> (sum: u128)
        ensures
            sum == self@.supply(),
            sum + u64::MAX <= u128::MAX,
            self@.well_keyed(),
    {
        let count: usize = self.accounts.len();
        let ghost entries = self.accounts.entries();
        let mut sum: u128 = 0;
        let mut i: usize = 0;
        proof {
            lemma_no_balances(entries.take(0));
        }
        while i < count
            invariant
                i <= count,
                count == entries.len(),
                entries == self.accounts.entries(),
                bytemap::ascending(entries),
                sum == sums::total(listed_balances(entries.take(i as int))),
                sum <= i * 0xffff_ffff_ffff_ffffu64,
                sum <= 0xffff_ffff_ffff_ffffu64 * 0xffff_ffff_ffff_ffffu64,
            decreases count - i,
        {
            let a = self.accounts.value_at(i);
            proof {
                lemma_listed_balances_push(entries, i as int);
                assert(i * 0xffff_ffff_ffff_ffffu64 + 0xffff_ffff_ffff_ffffu64 == (i + 1)
                    * 0xffff_ffff_ffff_ffffu64) by (nonlinear_arith);
                assert((i + 1) * 0xffff_ffff_ffff_ffffu64 <= 0xffff_ffff_ffff_ffffu64
                    * 0xffff_ffff_ffff_ffffu64) by (nonlinear_arith)
                    requires
                        i + 1 <= 0xffff_ffff_ffff_ffff,
                ;
            }
            sum = sum + a.balance as u128;
            i += 1;
        }
        proof {
            assert(entries.take(count as int) =~= entries);
            lemma_listed_balances(entries);
            assert(listed_balances(entries) =~= self@.balances());
            use_type_invariant(self);
            lemma_views_finite(self.accounts@);
        }
        sum
    }

    /// The commitment to the full state: every account id maps to the hash of
    /// its canonical encoding (balance, nonce, *and* auth policy).
    pub fn root(&self) -> (h: hash::Hash)
        ensures
            h == self@.root(),
    {
        smt::root(&self.smt_entries())
    }

    fn smt_entries(&self) -> (entries: ByteMap<hash::Hash>)
        ensures
            entries@ == self@.entries(),
    {
        let count: usize = self.accounts.len();
        let ghost all = self.accounts.entries();
        let mut entries: ByteMap<hash::Hash> = ByteMap::new();
        let mut i: usize = 0;
        assert(entries@ =~= hashed(all.take(0)));
        while i < count
            invariant
                i <= count,
                count == all.len(),
                all == self.accounts.entries(),
                entries@ == hashed(all.take(i as int)),
            decreases count - i,
        {
            let h = account_value_hash(self.accounts.value_at(i));
            entries.insert(*self.accounts.key_at(i), h);
            proof {
                assert(all.take(i + 1).drop_last() =~= all.take(i as int));
            }
            i += 1;
        }
        proof {
            assert(all.take(count as int) =~= all);
            lemma_hashed(all);
            assert(entries@ =~= self@.entries());
        }
        entries
    }

    /// Membership path for `id` against the current root: an inclusion proof
    /// if the account exists, an exclusion proof otherwise.
    pub fn prove_account(&self, id: &AccountId) -> (proof: SmtProof)
        ensures
            proof@ == smt::path(self@.entries(), id.0.0, 0),
    {
        smt::prove(&self.smt_entries(), &id.0.0)
    }

    /// Verify a light-client claim about an account against a state root.
    /// `account == None` claims the account does not exist.
    pub fn verify_account_proof(
        state_root: &hash::Hash,
        id: &AccountId,
        account: Option<&Account>,
        proof: &SmtProof,
    ) -> (ok: bool)
        ensures
            ok == smt::proves(
                *state_root,
                id.0.0,
                match account {
                    Some(a) => Some(value_digest(a@)),
                    None => None,
                },
                proof@,
            ),
    {
        match account {
            Some(a) => {
                let value_hash = account_value_hash(a);
                smt::verify(state_root, &id.0.0, Some(&value_hash), proof)
            },
            None => smt::verify(state_root, &id.0.0, None, proof),
        }
    }

    /// Structural sanity bounds, enforced before any state lookup or signature
    /// work so a single malformed transaction cannot exhaust a validator's CPU
    /// or memory. A consensus rule: deterministic, no state dependence, so
    /// every node agrees.
    pub fn check_limits(tx: &Transaction) -> (r: Result<(), TxError>)
        ensures
            r is Ok == within_limits(tx@),
            r matches Err(e) ==> e == TxError::TransactionTooLarge,
    {
        if tx.access.reads.len() > limits::MAX_ACCESS_ENTRIES || tx.access.writes.len()
            > limits::MAX_ACCESS_ENTRIES - tx.access.reads.len() {
            return Err(TxError::TransactionTooLarge);
        }
        if tx.signatures.len() > limits::MAX_SIGNATURES {
            return Err(TxError::TransactionTooLarge);
        }
        if let Some(reveal_) = &tx.auth_reveal {
            if let AuthPolicy::Threshold { keys, .. } = &reveal_.policy {
                if keys.len() > limits::MAX_THRESHOLD_KEYS {
                    return Err(TxError::TransactionTooLarge);
                }
            }
        }
        Ok(())
    }

    /// Validate a transaction against current state without applying it.
    pub fn validate(&self, tx: &Transaction) -> (r: Result<(), TxError>)
        ensures
            r == self@.verdict(tx@),
    {
        // Cheapest, state-independent checks first.
        Self::check_limits(tx)?;
        if tx.chain_id != self.chain_id {
            return Err(TxError::WrongChain { expected: self.chain_id, got: tx.chain_id });
        }
        if tx.max_fee < self.base_fee {
            return Err(TxError::FeeTooLow { base_fee: self.base_fee, max_fee: tx.max_fee });
        }
        let sender: &Account = match self.account(&tx.sender) {
            Some(a) => a,
            None => return Err(TxError::UnknownSender),
        };
        // The declared access set must cover everything execution touches.
        // This is the invariant that makes scheduling by declared sets sound.
        let (target, amount): (AccountId, u64) = match &tx.kind {
            TransactionKind::Transfer { to, amount } => (*to, *amount),
            TransactionKind::Mint { to, amount } => (*to, *amount),
        };
        let payer_id: AccountId = match &tx.sponsor {
            Some(id) => *id,
            None => tx.sender,
        };
        if !account::contains(&tx.access.writes, &tx.sender) || !account::contains(
            &tx.access.writes,
            &target,
        ) {
            return Err(TxError::AccessViolation);
        }
        if self.base_fee > 0 && !account::contains(&tx.access.writes, &payer_id) {
            return Err(TxError::AccessViolation);
        }
        if sender.nonce != tx.nonce {
            return Err(TxError::BadNonce { expected: sender.nonce, got: tx.nonce });
        }
        self.verify_auth(sender, tx)?;
        let spent: u64 = match &tx.kind {
            TransactionKind::Transfer { amount, .. } => *amount,
            TransactionKind::Mint { .. } => {
                // Only the configured minter may create figs.
                match self.minter {
                    Some(m) => if m != tx.sender {
                        return Err(TxError::UnauthorizedIssuance);
                    },
                    None => return Err(TxError::UnauthorizedIssuance),
                }
                0
            },
        };
        let need: u64 = if payer_id == tx.sender {
            match spent.checked_add(self.base_fee) {
                Some(n) => n,
                None => return Err(TxError::Overflow),
            }
        } else {
            spent
        };
        if sender.balance < need {
            return Err(TxError::InsufficientBalance { have: sender.balance, need });
        }
        if payer_id != tx.sender {
            let have: u64 = self.balance(&payer_id);
            if have < self.base_fee {
                return Err(TxError::InsufficientBalance { have, need: self.base_fee });
            }
        }
        // Pre-check the credit so execution never partially applies. A
        // self-transfer nets to zero and cannot overflow.
        let self_transfer: bool = match &tx.kind {
            TransactionKind::Transfer { to, .. } => *to == tx.sender,
            TransactionKind::Mint { .. } => false,
        };
        if !self_transfer && self.balance(&target).checked_add(amount).is_none() {
            return Err(TxError::Overflow);
        }
        Ok(())
    }

    /// Check the transaction's signatures against the sender's auth policy
    /// (or, for unclaimed accounts, against the revealed policy the account id
    /// commits to).
    fn verify_auth(&self, sender: &Account, tx: &Transaction) -> (r: Result<(), TxError>)
        ensures
            r == match governing_policy(sender@, tx@) {
                None => Err::<(), TxError>(TxError::RevealMismatch),
                Some(policy) => if satisfied(policy, tx@.id()@, tx@.signatures) {
                    Ok(())
                } else {
                    Err(TxError::AuthFailed)
                },
            },
    {
        let policy: &AuthPolicy = match (&sender.auth, &tx.auth_reveal) {
            // First spend: the reveal must hash to the sender's id.
            (AuthPolicy::Unclaimed, Some(r)) => {
                if r.account_id() != sender.id {
                    return Err(TxError::RevealMismatch);
                }
                &r.policy
            },
            (AuthPolicy::Unclaimed, None) => return Err(TxError::RevealMismatch),
            // A reveal on an already-claimed account is malformed.
            (_, Some(_)) => return Err(TxError::RevealMismatch),
            (claimed, None) => claimed,
        };
        let message = tx.id();
        let ok: bool = match policy {
            AuthPolicy::Open => true,
            AuthPolicy::SingleKey(key) => has_signature(key, &message, &tx.signatures),
            AuthPolicy::Threshold { m, keys } => {
                let verified: usize = count_signers(keys, &message, &tx.signatures);
                *m >= 1 && verified >= *m as usize
            },
            // An account can never be claimed *as* unclaimed.
            AuthPolicy::Unclaimed => false,
        };
        if ok {
            Ok(())
        } else {
            Err(TxError::AuthFailed)
        }
    }

    /// Apply one transaction.
    ///
    /// Invalid transactions (bad nonce/auth/access) change nothing. In
    /// particular they do *not* consume the nonce, otherwise anyone could
    /// grief an account by spraying forged transactions that invalidate the
    /// owner's pending ones. Runtime failures consume the nonce (replay
    /// protection for an attempt that was genuinely authorized) but make no
    /// other state change.
    pub fn apply_tx(&mut self, tx: &Transaction) -> (r: Receipt)
        requires
            old(self)@.nonce_left(tx@),
        ensures
            final(self)@ == old(self)@.apply(tx@),
            r == old(self)@.receipt(tx@),
    {
        let result = self.validate(tx);
        let consume_nonce: bool = match &result {
            Ok(_) => true,
            Err(e) => e.consumes_nonce(),
        };
        let fee_paid: u64 = if result.is_ok() {
            self.base_fee
        } else {
            0
        };
        if result.is_ok() {
            self.execute(tx);
        }
        if consume_nonce {
            proof {
                lemma_execution_keeps_sender(old(self)@, tx@);
            }
            if let Some(a) = self.account(&tx.sender) {
                let mut bumped = a.clone();
                bumped.nonce = bumped.nonce + 1;
                self.upsert_account(bumped);
            }
        }
        assert(self@ =~= old(self)@.apply(tx@));
        Receipt { tx_id: tx.id(), result, fee_paid }
    }

    /// Takes `amount` out of an account.
    fn debit(&mut self, id: &AccountId, amount: u64)
        requires
            old(self)@.accounts.contains_key(*id),
            old(self)@.accounts[*id].balance >= amount,
        ensures
            final(self)@ == (StateView {
                accounts: debited(old(self)@.accounts, *id, amount),
                ..old(self)@
            }),
    {
        if let Some(a) = self.account(id) {
            let mut changed = a.clone();
            changed.balance = changed.balance - amount;
            self.upsert_account(changed);
        }
    }

    /// Adds `amount` to an account, creating it if need be.
    fn credit(&mut self, id: &AccountId, amount: u64)
        requires
            account_or_new(old(self)@.accounts, *id).balance + amount <= u64::MAX,
        ensures
            final(self)@ == (StateView {
                accounts: credited(old(self)@.accounts, *id, amount),
                ..old(self)@
            }),
    {
        let mut changed: Account = match self.account(id) {
            Some(a) => a.clone(),
            None => Account::with_auth(*id, 0, AuthPolicy::Unclaimed),
        };
        changed.balance = changed.balance + amount;
        self.upsert_account(changed);
    }

    /// Apply a fully validated transaction. Infallible: every failure mode was
    /// pre-checked in [`State::validate`].
    fn execute(&mut self, tx: &Transaction)
        requires
            old(self)@.verdict(tx@) is Ok,
        ensures
            final(self)@ == (StateView { accounts: old(self)@.moved(tx@), ..old(self)@ }),
    {
        let ghost start = self@;
        // First spend from an unclaimed account stores the revealed policy.
        if let Some(r) = &tx.auth_reveal {
            if let Some(a) = self.account(&tx.sender) {
                let mut changed = a.clone();
                changed.auth = r.policy.clone();
                self.upsert_account(changed);
            }
        }
        assert(self@ =~= (StateView { accounts: start.claimed(tx@), ..start }));
        let payer_id: AccountId = match &tx.sponsor {
            Some(id) => *id,
            None => tx.sender,
        };
        if self.base_fee > 0 {
            let fee: u64 = self.base_fee;
            self.debit(&payer_id, fee);
        }
        assert(self@ =~= (StateView { accounts: start.charged(tx@), ..start }));
        match &tx.kind {
            TransactionKind::Transfer { to, amount } => {
                self.debit(&tx.sender, *amount);
                self.credit(to, *amount);
            },
            TransactionKind::Mint { to, amount } => {
                self.credit(to, *amount);
            },
        }
    }

    /// Deterministic serial state transition for a whole block: the reference
    /// that the executor must match.
    pub fn apply_block(&mut self, block: &Block) -> (receipts: Vec<Receipt>)
        requires
            old(self)@.nonces_left(block@.transactions),
        ensures
            final(self)@ == old(self)@.apply_all(block@.transactions),
            receipts@ == old(self)@.receipts(block@.transactions),
    {
        let ghost start = self@;
        let ghost txs = block@.transactions;
        let mut receipts: Vec<Receipt> = Vec::new();
        let mut i: usize = 0;
        assert(start.receipts(txs.take(0)) =~= Seq::<Receipt>::empty());
        while i < block.transactions.len()
            invariant
                i <= txs.len(),
                txs == block@.transactions,
                txs.len() == block.transactions@.len(),
                start.nonces_left(txs),
                self@ == start.apply_all(txs.take(i as int)),
                receipts@ == start.receipts(txs.take(i as int)),
            decreases txs.len() - i,
        {
            assert(txs[i as int] == block.transactions@[i as int]@);
            proof {
                lemma_nonce_left(start, txs, i as int);
            }
            receipts.push(self.apply_tx(&block.transactions[i]));
            proof {
                assert(txs.take(i + 1).drop_last() =~= txs.take(i as int));
                assert(txs.take(i + 1).last() == txs[i as int]);
            }
            i += 1;
        }
        assert(txs.take(i as int) =~= txs);
        receipts
    }
}

/// Transactions take nonces up, by one each at most, and never down. Accounts
/// never go away, and the configuration stays.
pub proof fn lemma_nonces_grow(s: StateView, txs: Seq<TxView>, id: AccountId)
    requires
        s.nonces_left(txs),
    ensures
        s.nonce(id) <= s.apply_all(txs).nonce(id) <= s.nonce(id) + txs.len(),
        s.accounts.contains_key(id) ==> s.apply_all(txs).accounts.contains_key(id),
        s.apply_all(txs).bare() == s.bare(),
    decreases txs.len(),
{
    if txs.len() > 0 {
        let rest = txs.drop_last();
        assert forall|i: int| 0 <= i < rest.len() implies (#[trigger] rest[i]).nonce < u64::MAX
            || s.nonce(rest[i].sender) + i < u64::MAX by {
            assert(rest[i] == txs[i]);
        }
        lemma_nonces_grow(s, rest, id);
        lemma_nonces_grow(s, rest, txs.last().sender);
        assert(txs.last() == txs[txs.len() - 1]);
    }
}

/// Where the nonces last for all transactions, each one finds one left.
pub proof fn lemma_nonce_left(s: StateView, txs: Seq<TxView>, i: int)
    requires
        s.nonces_left(txs),
        0 <= i < txs.len(),
    ensures
        s.apply_all(txs.take(i)).nonce_left(txs[i]),
{
    let before = txs.take(i);
    assert forall|j: int| 0 <= j < before.len() implies (#[trigger] before[j]).nonce < u64::MAX
        || s.nonce(before[j].sender) + j < u64::MAX by {
        assert(before[j] == txs[j]);
    }
    lemma_nonces_grow(s, before, txs[i].sender);
}

impl Clone for State {
    fn clone(&self) -> (s: State)
        ensures
            s@ == self@,
    {
        let count: usize = self.accounts.len();
        let ghost all = self.accounts.entries();
        let mut s = self.empty_like();
        let mut i: usize = 0;
        assert(s@.accounts =~= listed(all.take(0)));
        while i < count
            invariant
                i <= count,
                count == all.len(),
                all == self.accounts.entries(),
                self.accounts@ == bytemap::as_map(all),
                s@.chain_id == self@.chain_id,
                s@.minter == self@.minter,
                s@.base_fee == self@.base_fee,
                s@.accounts == listed(all.take(i as int)),
            decreases count - i,
        {
            proof {
                use_type_invariant(self);
                assert(all.take(i + 1).drop_last() =~= all.take(i as int));
            }
            let a = self.accounts.value_at(i);
            s.upsert_account(a.clone());
            i += 1;
        }
        proof {
            assert(all.take(count as int) =~= all);
            lemma_listed(all);
            assert(s@ =~= self@);
        }
        s
    }
}

/// The accounts of a list of entries.
spec fn listed(entries: Seq<(Key, Account)>) -> Map<AccountId, AccountView>
    decreases entries.len(),
{
    if entries.len() == 0 {
        Map::empty()
    } else {
        listed(entries.drop_last()).insert(
            AccountId(hash::Hash(entries.last().0)),
            entries.last().1@,
        )
    }
}

proof fn lemma_listed(entries: Seq<(Key, Account)>)
    ensures
        listed(entries) == account_views(bytemap::as_map(entries)),
    decreases entries.len(),
{
    let m = bytemap::as_map(entries);
    if entries.len() > 0 {
        lemma_listed(entries.drop_last());
        let id = AccountId(hash::Hash(entries.last().0));
        assert forall|a: AccountId| a.0.0 == id.0.0 implies a == id by {}
    }
    assert(listed(entries) =~= account_views(m));
}

proof fn lemma_in_order(
    m: Map<Key, Account>,
    entries: Seq<(Key, Account)>,
    list: Seq<AccountView>,
)
    requires
        bytemap::ascending(entries),
        m == bytemap::as_map(entries),
        forall|k: Key| #[trigger] m.contains_key(k) ==> m[k].id == AccountId(hash::Hash(k)),
        list.len() == entries.len(),
        forall|i: int| 0 <= i < list.len() ==> #[trigger] list[i] == entries[i].1@,
    ensures
        is_listing(list, account_views(m)),
{
    bytemap::lemma_as_map(entries);
    let keyed = keyed_list(list);
    assert forall|i: int| 0 <= i < list.len() implies (#[trigger] list[i]).id == AccountId(
        hash::Hash(entries[i].0),
    ) by {
        bytemap::lemma_as_map_value(entries, i);
    }
    assert forall|i: int, j: int| 0 <= i < j < keyed.len() implies bytemap::less(
        #[trigger] keyed[i].0,
        #[trigger] keyed[j].0,
    ) by {
        assert(list[i].id == AccountId(hash::Hash(entries[i].0)));
        assert(list[j].id == AccountId(hash::Hash(entries[j].0)));
        assert(bytemap::less(entries[i].0, entries[j].0));
    }
    bytemap::lemma_as_map(keyed);
    assert forall|id: AccountId| #[trigger] account_views(m).contains_key(id)
        == bytemap::as_map(keyed).contains_key(id.0.0) by {
        if account_views(m).contains_key(id) {
            let i = choose|i: int| 0 <= i < entries.len() && #[trigger] entries[i].0 == id.0.0;
            assert(list[i].id == AccountId(hash::Hash(entries[i].0)));
            assert(keyed[i].0 == id.0.0);
        }
        if bytemap::as_map(keyed).contains_key(id.0.0) {
            let i = choose|i: int| 0 <= i < keyed.len() && #[trigger] keyed[i].0 == id.0.0;
            assert(list[i].id == AccountId(hash::Hash(entries[i].0)));
            assert(entries[i].0 == id.0.0);
        }
    }
    assert forall|id: AccountId| account_views(m).contains_key(id) implies #[trigger] account_views(
        m,
    )[id] == bytemap::as_map(keyed)[id.0.0] by {
        let i = choose|i: int| 0 <= i < entries.len() && #[trigger] entries[i].0 == id.0.0;
        assert(list[i].id == AccountId(hash::Hash(entries[i].0)));
        bytemap::lemma_as_map_value(entries, i);
        bytemap::lemma_as_map_value(keyed, i);
    }
}

/// The balances of a list of entries.
spec fn listed_balances(entries: Seq<(Key, Account)>) -> Map<AccountId, u64> {
    listed(entries).map_values(|a: AccountView| a.balance)
}

proof fn lemma_no_balances(entries: Seq<(Key, Account)>)
    requires
        entries.len() == 0,
    ensures
        sums::total(listed_balances(entries)) == 0,
{
    assert(listed_balances(entries) =~= Map::<AccountId, u64>::empty());
}

proof fn lemma_listed_balances(entries: Seq<(Key, Account)>)
    ensures
        listed_balances(entries) == account_views(bytemap::as_map(entries)).map_values(
            |a: AccountView| a.balance,
        ),
{
    lemma_listed(entries);
}

proof fn lemma_listed_balances_push(entries: Seq<(Key, Account)>, i: int)
    requires
        bytemap::ascending(entries),
        0 <= i < entries.len(),
    ensures
        sums::total(listed_balances(entries.take(i + 1))) == sums::total(
            listed_balances(entries.take(i)),
        ) + entries[i].1.balance,
{
    let before = entries.take(i);
    let after = entries.take(i + 1);
    let id = AccountId(hash::Hash(entries[i].0));
    let f = |a: AccountView| a.balance;
    assert(after.drop_last() =~= before);
    lemma_listed(before);
    bytemap::lemma_as_map(before);
    lemma_views_finite(bytemap::as_map(before));
    assert(!listed(before).contains_key(id)) by {
        if listed(before).contains_key(id) {
            let j = choose|j: int| 0 <= j < before.len() && #[trigger] before[j].0 == id.0.0;
            assert(bytemap::less(entries[j].0, entries[i].0));
            bytemap::lemma_less_irreflexive(entries[i].0);
        }
    }
    assert(listed_balances(after) =~= listed_balances(before).insert(id, entries[i].1.balance));
    assert(listed_balances(before).dom() =~= listed(before).dom());
    sums::lemma_total_insert(listed_balances(before), id, entries[i].1.balance);
}

/// The tree entries of a list of entries.
spec fn hashed(entries: Seq<(Key, Account)>) -> Map<Key, hash::Hash>
    decreases entries.len(),
{
    if entries.len() == 0 {
        Map::empty()
    } else {
        hashed(entries.drop_last()).insert(entries.last().0, value_digest(entries.last().1@))
    }
}

proof fn lemma_hashed(entries: Seq<(Key, Account)>)
    ensures
        hashed(entries) == Map::new(
            |k: Key| bytemap::as_map(entries).contains_key(k),
            |k: Key| value_digest(bytemap::as_map(entries)[k]@),
        ),
    decreases entries.len(),
{
    if entries.len() > 0 {
        lemma_hashed(entries.drop_last());
    }
    assert(hashed(entries) =~= Map::new(
        |k: Key| bytemap::as_map(entries).contains_key(k),
        |k: Key| value_digest(bytemap::as_map(entries)[k]@),
    ));
}

/// Whether one of the signatures is `key`'s.
fn has_signature(key: &PublicKey, message: &hash::Hash, signatures: &Vec<Signature>) -> (found:
    bool)
    ensures
        found == signed_by(*key, message@, signatures@),
{
    let mut i: usize = 0;
    while i < signatures.len()
        invariant
            i <= signatures@.len(),
            forall|j: int|
                0 <= j < i ==> !crypto::verifies(*key, message@, #[trigger] signatures@[j]),
        decreases signatures@.len() - i,
    {
        if key.verify(message.0.as_slice(), &signatures[i]) {
            assert(crypto::verifies(*key, message@, signatures@[i as int]));
            return true;
        }
        i += 1;
    }
    false
}

/// How many distinct keys signed: a key listed twice in the policy must not
/// let one signer count twice.
fn count_signers(keys: &Vec<PublicKey>, message: &hash::Hash, signatures: &Vec<Signature>) -> (n:
    usize)
    ensures
        n == signers(keys@, message@, signatures@).len(),
        n <= keys@.len(),
{
    let mut n: usize = 0;
    let mut i: usize = 0;
    let ghost f = |key: PublicKey| signed_by(key, message@, signatures@);
    proof {
        assert(keys@.take(0).to_set() =~= Set::<PublicKey>::empty());
        assert(keys@.take(0).to_set().filter(f) =~= Set::<PublicKey>::empty());
    }
    while i < keys.len()
        invariant
            i <= keys@.len(),
            n <= i,
            f == (|key: PublicKey| signed_by(key, message@, signatures@)),
            keys@.take(i as int).to_set().finite(),
            n == keys@.take(i as int).to_set().filter(f).len(),
        decreases keys@.len() - i,
    {
        let ghost before = keys@.take(i as int);
        let ghost after = keys@.take(i + 1);
        let key: PublicKey = keys[i];
        proof {
            assert(after =~= before.push(key));
            assert(after.to_set() =~= before.to_set().insert(key)) by {
                assert forall|k: PublicKey| before.contains(k) implies #[trigger] after.contains(
                    k,
                ) by {
                    let j = choose|j: int| 0 <= j < before.len() && before[j] == k;
                    assert(after[j] == k);
                }
                assert(after[i as int] == key);
            }
            before.to_set().lemma_len_filter(f);
        }
        if listed_before(keys, i) {
            assert(after.to_set() =~= before.to_set());
        } else if has_signature(&key, message, signatures) {
            assert(!before.to_set().contains(key));
            assert(after.to_set().filter(f) =~= before.to_set().filter(f).insert(key));
            n += 1;
        } else {
            assert(after.to_set().filter(f) =~= before.to_set().filter(f));
        }
        i += 1;
    }
    assert(keys@.take(i as int) =~= keys@);
    n
}

/// Whether the `i`-th key already stands before.
fn listed_before(keys: &Vec<PublicKey>, i: usize) -> (found: bool)
    requires
        i < keys@.len(),
    ensures
        found == keys@.take(i as int).contains(keys@[i as int]),
{
    let mut j: usize = 0;
    while j < i
        invariant
            j <= i < keys@.len(),
            forall|k: int| 0 <= k < j ==> keys@[k] != keys@[i as int],
        decreases i - j,
    {
        if keys[j] == keys[i] {
            assert(keys@.take(i as int)[j as int] == keys@[i as int]);
            return true;
        }
        j += 1;
    }
    false
}

/// Executing a transaction neither removes the sender nor changes its nonce.
proof fn lemma_execution_keeps_sender(s: StateView, tx: TxView)
    requires
        s.consumes(tx),
    ensures
        s.accounts.contains_key(tx.sender),
        s.verdict(tx) is Ok ==> s.moved(tx).contains_key(tx.sender) && s.moved(
            tx,
        )[tx.sender].nonce == s.accounts[tx.sender].nonce,
{
}

} // verus!
