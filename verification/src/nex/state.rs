//! The ledger state machine: account store and deterministic state transition.

use vstd::prelude::*;

use crate::bytemap;
use crate::bytemap::{ByteMap, Key};
use crate::bytes;
use crate::hash;
use crate::nex::account;
use crate::nex::account::{Account, AccountId, AccountView};
use crate::nex::block::Block;
use crate::nex::transaction;
use crate::nex::transaction::{Transaction, TransactionKind, TxView};
use crate::sums;
use crate::text;

verus! {

/// Why a transaction failed the state transition.
#[derive(Clone, Copy, Debug, PartialEq, Eq)]
pub enum TxError {
    UnknownSender,
    BadNonce { expected: u64, got: u64 },
    InsufficientBalance { have: u64, need: u64 },
    Overflow,
}

/// Per-transaction outcome included in execution receipts.
#[derive(Clone, Copy, Debug, PartialEq, Eq)]
pub struct Receipt {
    pub tx_id: hash::Hash,
    pub result: Result<(), TxError>,
}

/// The contents of a [`State`]: the accounts, by the bytes of their ids.
#[verifier::ext_equal]
pub struct StateView {
    pub accounts: Map<Key, AccountView>,
}

/// The key under which an account is stored.
pub open spec fn key_of(id: AccountId) -> Key {
    id.0.0
}

/// A balance taken down.
pub open spec fn debited(
    accounts: Map<Key, AccountView>,
    id: AccountId,
    amount: u64,
) -> Map<Key, AccountView> {
    let a = accounts[key_of(id)];
    accounts.insert(key_of(id), AccountView { balance: (a.balance - amount) as u64, ..a })
}

/// The account at `id`, or the one that a credit would create.
pub open spec fn account_or_new(accounts: Map<Key, AccountView>, id: AccountId) -> AccountView {
    if accounts.contains_key(key_of(id)) {
        accounts[key_of(id)]
    } else {
        AccountView::fresh(id, 0)
    }
}

/// A balance brought up, the account being created if need be.
pub open spec fn credited(
    accounts: Map<Key, AccountView>,
    id: AccountId,
    amount: u64,
) -> Map<Key, AccountView> {
    let a = account_or_new(accounts, id);
    accounts.insert(key_of(id), AccountView { balance: (a.balance + amount) as u64, ..a })
}

/// The encodings of a list of accounts, one after the other.
pub open spec fn encodings(list: Seq<(Key, AccountView)>) -> Seq<u8>
    decreases list.len(),
{
    if list.len() == 0 {
        Seq::empty()
    } else {
        encodings(list.drop_last()) + list.last().1.encoded()
    }
}

/// Whether `list` holds exactly the accounts, in ascending order of their keys.
pub open spec fn is_listing(
    list: Seq<(Key, AccountView)>,
    accounts: Map<Key, AccountView>,
) -> bool {
    bytemap::ascending(list) && bytemap::as_map(list) == accounts
}

impl StateView {
    pub open spec fn knows(self, id: AccountId) -> bool {
        self.accounts.contains_key(key_of(id))
    }

    pub open spec fn account(self, id: AccountId) -> AccountView {
        self.accounts[key_of(id)]
    }

    pub open spec fn balance(self, id: AccountId) -> u64 {
        if self.knows(id) {
            self.account(id).balance
        } else {
            0
        }
    }

    /// The nonce that an account is at; zero where there is no account.
    pub open spec fn nonce(self, id: AccountId) -> u64 {
        if self.knows(id) {
            self.account(id).nonce
        } else {
            0
        }
    }

    /// Whether a transaction finds a nonce that can still go up. Only the very
    /// last nonce of an account cannot.
    pub open spec fn nonce_left(self, tx: TxView) -> bool {
        tx.nonce < u64::MAX || self.nonce(tx.sender) < u64::MAX
    }

    /// Whether each of the transactions does when they are applied in order:
    /// every one before it takes a nonce up by one at most.
    pub open spec fn nonces_left(self, txs: Seq<TxView>) -> bool {
        forall|i: int|
            0 <= i < txs.len() ==> (#[trigger] txs[i]).nonce < u64::MAX || self.nonce(txs[i].sender)
                + i < u64::MAX
    }

    /// Every account is stored under its own id, and there are finitely many.
    pub open spec fn well_keyed(self) -> bool {
        &&& self.accounts.dom().finite()
        &&& forall|k: Key| #[trigger]
            self.accounts.contains_key(k) ==> key_of(self.accounts[k].id) == k
    }

    /// The sum of all balances.
    pub open spec fn supply(self) -> int {
        sums::total(self.accounts.map_values(|a: AccountView| a.balance))
    }

    /// The accounts in ascending order of their keys.
    pub open spec fn listing(self) -> Seq<(Key, AccountView)> {
        choose|list: Seq<(Key, AccountView)>| is_listing(list, self.accounts)
    }

    /// What is hashed for the commitment to all accounts.
    pub open spec fn root_input(self) -> Seq<u8> {
        text::utf8("nex:state"@) + encodings(self.listing())
    }

    /// The commitment to all accounts.
    pub open spec fn root(self) -> hash::Hash {
        hash::Hash(hash::blake3_digest(self.root_input()))
    }

    /// Whether a transaction may run. The checks stand in the order in which
    /// they are made.
    pub open spec fn verdict(self, tx: TxView) -> Result<(), TxError> {
        if !self.knows(tx.sender) {
            Err(TxError::UnknownSender)
        } else if self.account(tx.sender).nonce != tx.nonce {
            Err(TxError::BadNonce { expected: self.account(tx.sender).nonce, got: tx.nonce })
        } else if tx.kind is Transfer && self.account(tx.sender).balance < tx.kind.amount() {
            Err(
                TxError::InsufficientBalance {
                    have: self.account(tx.sender).balance,
                    need: tx.kind.amount(),
                },
            )
        } else {
            Ok(())
        }
    }

    /// Whether the credit fits. A transfer to oneself nets to zero.
    pub open spec fn credit_fits(self, tx: TxView) -> bool {
        ||| tx.kind is Transfer && tx.kind.target() == tx.sender
        ||| self.balance(tx.kind.target()) + tx.kind.amount() <= u64::MAX
    }

    /// What becomes of a transaction.
    pub open spec fn outcome(self, tx: TxView) -> Result<(), TxError> {
        if self.verdict(tx) is Err {
            self.verdict(tx)
        } else if !self.credit_fits(tx) {
            Err(TxError::Overflow)
        } else {
            Ok(())
        }
    }

    /// The accounts after a valid transaction has moved its funds.
    pub open spec fn moved(self, tx: TxView) -> Map<Key, AccountView> {
        match tx.kind {
            TransactionKind::Transfer { to, amount } => credited(
                debited(self.accounts, tx.sender, amount),
                to,
                amount,
            ),
            TransactionKind::Mint { to, amount } => credited(self.accounts, to, amount),
        }
    }

    /// Whether the transaction uses up the sender's nonce.
    pub open spec fn consumes(self, tx: TxView) -> bool {
        self.knows(tx.sender) && self.account(tx.sender).nonce == tx.nonce
    }

    /// The state after a transaction. A failed one consumes the nonce, if it
    /// is the sender's next one, and changes nothing else.
    pub open spec fn apply(self, tx: TxView) -> StateView {
        let accounts = if self.outcome(tx) is Ok {
            self.moved(tx)
        } else {
            self.accounts
        };
        if self.consumes(tx) {
            let a = accounts[key_of(tx.sender)];
            StateView {
                accounts: accounts.insert(
                    key_of(tx.sender),
                    AccountView { nonce: (a.nonce + 1) as u64, ..a },
                ),
            }
        } else {
            self
        }
    }

    /// The receipt of a transaction.
    pub open spec fn receipt(self, tx: TxView) -> Receipt {
        Receipt { tx_id: tx.id(), result: self.outcome(tx) }
    }

    /// The state after all transactions, in order.
    pub open spec fn apply_all(self, txs: Seq<TxView>) -> StateView
        decreases txs.len(),
    {
        if txs.len() == 0 {
            self
        } else {
            self.apply_all(txs.drop_last()).apply(txs.last())
        }
    }

    /// The receipts of all transactions, in order.
    pub open spec fn receipts(self, txs: Seq<TxView>) -> Seq<Receipt>
        decreases txs.len(),
    {
        if txs.len() == 0 {
            Seq::empty()
        } else {
            self.receipts(txs.drop_last()).push(
                self.apply_all(txs.drop_last()).receipt(txs.last()),
            )
        }
    }
}

/// The ledger state.
#[derive(Debug)]
pub struct State {
    accounts: ByteMap<Account>,
}

/// The contents of a list of entries.
spec fn entry_views(entries: Seq<(Key, Account)>) -> Seq<(Key, AccountView)> {
    Seq::new(entries.len(), |i: int| (entries[i].0, entries[i].1@))
}

/// The contents of a map of accounts.
spec fn map_views(m: Map<Key, Account>) -> Map<Key, AccountView> {
    m.map_values(|a: Account| a@)
}

proof fn lemma_entry_views(entries: Seq<(Key, Account)>)
    ensures
        bytemap::as_map(entry_views(entries)) == map_views(bytemap::as_map(entries)),
        bytemap::ascending(entries) ==> bytemap::ascending(entry_views(entries)),
    decreases entries.len(),
{
    let views = entry_views(entries);
    if entries.len() > 0 {
        lemma_entry_views(entries.drop_last());
        assert(views.drop_last() =~= entry_views(entries.drop_last()));
    }
    assert(bytemap::as_map(views) =~= map_views(bytemap::as_map(entries)));
    if bytemap::ascending(entries) {
        assert forall|i: int, j: int| 0 <= i < j < views.len() implies bytemap::less(
            #[trigger] views[i].0,
            #[trigger] views[j].0,
        ) by {
            assert(bytemap::less(entries[i].0, entries[j].0));
        }
    }
}

/// There is one listing of the accounts.
proof fn lemma_listing(s: StateView, list: Seq<(Key, AccountView)>)
    requires
        is_listing(list, s.accounts),
    ensures
        s.listing() == list,
{
    bytemap::lemma_ascending_unique(s.listing(), list);
}

impl View for State {
    type V = StateView;

    closed spec fn view(&self) -> StateView {
        StateView { accounts: map_views(self.accounts@) }
    }
}

impl Default for State {
    fn default() -> (s: State)
        ensures
            s@ == (StateView { accounts: Map::empty() }),
    {
        let s = State { accounts: ByteMap::new() };
        assert(s@.accounts =~= Map::<Key, AccountView>::empty());
        s
    }
}

impl State {
    #[verifier::type_invariant]
    spec fn well_formed(&self) -> bool {
        forall|k: Key| #[trigger]
            self.accounts@.contains_key(k) ==> key_of(self.accounts@[k].id) == k
    }

    pub fn new() -> (s: State)
        ensures
            s@ == (StateView { accounts: Map::empty() }),
    {
        State::default()
    }

    /// Insert or replace an account.
    fn put(&mut self, account: Account)
        ensures
            final(self)@ == (StateView {
                accounts: old(self)@.accounts.insert(key_of(account.id), account@),
            }),
    {
        proof {
            use_type_invariant(&*self);
        }
        let ghost before = self.accounts@;
        let ghost value = account;
        let mut accounts: ByteMap<Account> = ByteMap::new();
        std::mem::swap(&mut accounts, &mut self.accounts);
        accounts.insert(account.id.0.0, account);
        self.accounts = accounts;
        assert(map_views(before.insert(key_of(value.id), value)) =~= map_views(before).insert(
            key_of(value.id),
            value@,
        ));
    }

    /// Create an account with an initial balance (genesis helper).
    pub fn genesis_account(&mut self, id: AccountId, balance: u64)
        ensures
            final(self)@ == (StateView {
                accounts: old(self)@.accounts.insert(
                    key_of(id),
                    AccountView::fresh(id, balance),
                ),
            }),
    {
        self.put(Account::new(id, balance));
    }

    pub fn account(&self, id: &AccountId) -> (a: Option<&Account>)
        ensures
            match a {
                Some(a) => self@.knows(*id) && self@.account(*id) == a@ && a.id == *id,
                None => !self@.knows(*id),
            },
    {
        proof {
            use_type_invariant(self);
        }
        self.accounts.get(&id.0.0)
    }

    pub fn balance(&self, id: &AccountId) -> (b: u64)
        ensures
            b == self@.balance(*id),
    {
        match self.account(id) {
            Some(a) => a.balance,
            None => 0,
        }
    }

    /// Total supply across all accounts (conservation invariant checks), which
    /// must fit 64 bits.
    pub fn total_supply(&self) -> (sum: u64)
        requires
            self@.supply() <= u64::MAX,
        ensures
            sum == self@.supply(),
    {
        self.checked_supply().unwrap()
    }

    /// Total supply across all accounts, if it fits 64 bits.
    pub fn checked_supply(&self) -> (sum: Option<u64>)
        ensures
            match sum {
                Some(s) => s == self@.supply(),
                None => self@.supply() > u64::MAX,
            },
    {
        let count: usize = self.accounts.len();
        let ghost entries = self.accounts.entries();
        let ghost list = entry_views(entries);
        let mut sum: u64 = 0;
        let mut i: usize = 0;
        proof {
            lemma_entry_views(entries);
            lemma_prefix_balances(list, 0);
            assert(list.take(count as int) =~= list);
        }
        while i < count
            invariant
                i <= count,
                count == entries.len(),
                entries == self.accounts.entries(),
                list == entry_views(entries),
                bytemap::ascending(list),
                sum == list_balance(list, i as int),
                list_balance(list, count as int) == self@.supply(),
            decreases count - i,
        {
            let a = self.accounts.value_at(i);
            proof {
                lemma_list_balance_step(list, i as int);
                lemma_list_balance_monotone(list, i + 1, count as int);
            }
            if a.balance > u64::MAX - sum {
                return None;
            }
            sum = sum + a.balance;
            i += 1;
        }
        Some(sum)
    }

    /// Commitment to the full state: the accounts are taken in the order of
    /// their ids, so this is deterministic across nodes.
    pub fn root(&self) -> (h: hash::Hash)
        ensures
            h == self@.root(),
    {
        let count: usize = self.accounts.len();
        let ghost entries = self.accounts.entries();
        let ghost list = entry_views(entries);
        let mut input: Vec<u8> = Vec::new();
        bytes::push_bytes(&mut input, "nex:state".as_bytes());
        let mut i: usize = 0;
        assert(input@ =~= text::utf8("nex:state"@) + encodings(list.take(0)));
        while i < count
            invariant
                i <= count,
                count == entries.len(),
                entries == self.accounts.entries(),
                list == entry_views(entries),
                input@ == text::utf8("nex:state"@) + encodings(list.take(i as int)),
            decreases count - i,
        {
            let encoded = self.accounts.value_at(i).encode();
            let ghost before = input@;
            bytes::push_bytes(&mut input, encoded.as_slice());
            proof {
                assert(list.take(i + 1).drop_last() =~= list.take(i as int));
                assert(input@ =~= text::utf8("nex:state"@) + encodings(list.take(i + 1)));
            }
            i += 1;
        }
        proof {
            assert(list.take(count as int) =~= list);
            lemma_entry_views(entries);
            lemma_listing(self@, list);
        }
        hash::Hash::of(input.as_slice())
    }

    /// Validate a transaction against current state without applying it.
    pub fn validate(&self, tx: &Transaction) -> (r: Result<(), TxError>)
        ensures
            r == self@.verdict(tx@),
    {
        let sender: &Account = match self.account(&tx.sender) {
            Some(a) => a,
            None => return Err(TxError::UnknownSender),
        };
        if sender.nonce != tx.nonce {
            return Err(TxError::BadNonce { expected: sender.nonce, got: tx.nonce });
        }
        match &tx.kind {
            TransactionKind::Transfer { amount, .. } => {
                if sender.balance < *amount {
                    return Err(
                        TxError::InsufficientBalance { have: sender.balance, need: *amount },
                    );
                }
            },
            TransactionKind::Mint { .. } => {},
        }
        Ok(())
    }

    /// The nonce that an account is at; zero where there is no account.
    pub fn nonce(&self, id: &AccountId) -> (n: u64)
        ensures
            n == self@.nonce(*id),
    {
        match self.account(id) {
            Some(a) => a.nonce,
            None => 0,
        }
    }

    /// Whether the transactions can be applied in order without a nonce
    /// running out.
    pub fn has_nonces_left(&self, txs: &[Transaction]) -> (ok: bool)
        ensures
            ok == self@.nonces_left(transaction::tx_views(txs@)),
    {
        let ghost views = transaction::tx_views(txs@);
        let mut i: usize = 0;
        while i < txs.len()
            invariant
                i <= txs@.len(),
                views == transaction::tx_views(txs@),
                forall|j: int|
                    0 <= j < i ==> (#[trigger] views[j]).nonce < u64::MAX || self@.nonce(
                        views[j].sender,
                    ) + j < u64::MAX,
            decreases txs@.len() - i,
        {
            assert(views[i as int] == txs@[i as int]@);
            if txs[i].nonce == u64::MAX && self.nonce(&txs[i].sender) as u128 + i as u128
                >= u64::MAX as u128 {
                return false;
            }
            i += 1;
        }
        true
    }

    /// Apply one transaction. Failed transactions consume the nonce (replay
    /// protection) but make no other state change.
    pub fn apply_tx(&mut self, tx: &Transaction) -> (r: Receipt)
        requires
            old(self)@.nonce_left(tx@),
        ensures
            final(self)@ == old(self)@.apply(tx@),
            r == old(self)@.receipt(tx@),
    {
        let ghost start = self@;
        let mut result = self.validate(tx);
        if result.is_ok() {
            result = self.execute(tx);
        }
        // Bump the nonce on any attempt by a known sender so replays are
        // rejected.
        if let Some(a) = self.account(&tx.sender) {
            if a.nonce == tx.nonce {
                let mut bumped = a.clone();
                bumped.nonce = bumped.nonce + 1;
                self.put(bumped);
            }
        }
        assert(self@ =~= start.apply(tx@));
        Receipt { tx_id: tx.id(), result }
    }

    /// Adds `amount` to an account, creating it if need be.
    fn credit(&mut self, id: &AccountId, amount: u64)
        requires
            account_or_new(old(self)@.accounts, *id).balance + amount <= u64::MAX,
        ensures
            final(self)@ == (StateView { accounts: credited(old(self)@.accounts, *id, amount) }),
    {
        let mut changed: Account = match self.account(id) {
            Some(a) => a.clone(),
            None => Account::new(*id, 0),
        };
        changed.balance = changed.balance + amount;
        self.put(changed);
    }

    /// Move the funds of a validated transaction. The credit is checked before
    /// anything is touched, so a failure leaves no trace.
    fn execute(&mut self, tx: &Transaction) -> (r: Result<(), TxError>)
        requires
            old(self)@.verdict(tx@) is Ok,
        ensures
            r == old(self)@.outcome(tx@),
            final(self)@ == if r is Ok {
                (StateView { accounts: old(self)@.moved(tx@) })
            } else {
                old(self)@
            },
    {
        match &tx.kind {
            TransactionKind::Transfer { to, amount } => {
                if *to != tx.sender && self.balance(to).checked_add(*amount).is_none() {
                    return Err(TxError::Overflow);
                }
                if let Some(a) = self.account(&tx.sender) {
                    let mut changed = a.clone();
                    changed.balance = changed.balance - *amount;
                    self.put(changed);
                }
                self.credit(to, *amount);
            },
            TransactionKind::Mint { to, amount } => {
                if self.balance(to).checked_add(*amount).is_none() {
                    return Err(TxError::Overflow);
                }
                self.credit(to, *amount);
            },
        }
        Ok(())
    }

    /// Deterministic serial state transition for a whole block.
    pub fn apply_block(&mut self, block: &Block) -> (receipts: Vec<Receipt>)
        requires
            old(self)@.nonces_left(block@.transactions),
        ensures
            final(self)@ == old(self)@.apply_all(block@.transactions),
            receipts@ == old(self)@.receipts(block@.transactions),
    {
        let ghost start = self@;
        let ghost txs = block@.transactions;
        let mut receipts: Vec<Receipt> = Vec::new();
        let mut i: usize = 0;
        assert(start.receipts(txs.take(0)) =~= Seq::<Receipt>::empty());
        while i < block.transactions.len()
            invariant
                i <= txs.len(),
                txs == block@.transactions,
                txs.len() == block.transactions@.len(),
                self@ == start.apply_all(txs.take(i as int)),
                receipts@ == start.receipts(txs.take(i as int)),
                start.nonces_left(txs),
            decreases txs.len() - i,
        {
            assert(txs[i as int] == block.transactions@[i as int]@);
            proof {
                lemma_nonce_left(start, txs, i as int);
            }
            receipts.push(self.apply_tx(&block.transactions[i]));
            proof {
                assert(txs.take(i + 1).drop_last() =~= txs.take(i as int));
                assert(txs.take(i + 1).last() == txs[i as int]);
            }
            i += 1;
        }
        assert(txs.take(i as int) =~= txs);
        receipts
    }
}

impl Clone for State {
    fn clone(&self) -> (s: State)
        ensures
            s@ == self@,
    {
        let count: usize = self.accounts.len();
        let ghost entries = self.accounts.entries();
        let ghost list = entry_views(entries);
        let mut s = State::new();
        let mut i: usize = 0;
        assert(s@.accounts =~= bytemap::as_map(list.take(0)));
        while i < count
            invariant
                i <= count,
                count == entries.len(),
                entries == self.accounts.entries(),
                self.accounts@ == bytemap::as_map(entries),
                list == entry_views(entries),
                s@.accounts == bytemap::as_map(list.take(i as int)),
            decreases count - i,
        {
            proof {
                use_type_invariant(self);
                assert(list.take(i + 1).drop_last() =~= list.take(i as int));
            }
            let a = self.accounts.value_at(i);
            s.put(a.clone());
            i += 1;
        }
        proof {
            assert(list.take(count as int) =~= list);
            lemma_entry_views(entries);
            assert(s@ =~= self@);
        }
        s
    }
}

/// The balances of the first `i` listed accounts, added up.
spec fn list_balance(list: Seq<(Key, AccountView)>, i: int) -> int {
    sums::total(
        bytemap::as_map(list.take(i)).map_values(|a: AccountView| a.balance),
    )
}

proof fn lemma_prefix_balances(list: Seq<(Key, AccountView)>, i: int)
    requires
        i == 0,
    ensures
        list_balance(list, i) == 0,
{
    assert(bytemap::as_map(list.take(0)).map_values(|a: AccountView| a.balance)
        =~= Map::<Key, u64>::empty());
}

proof fn lemma_list_balance_step(list: Seq<(Key, AccountView)>, i: int)
    requires
        bytemap::ascending(list),
        0 <= i < list.len(),
    ensures
        list_balance(list, i + 1) == list_balance(list, i) + list[i].1.balance,
{
    let f = |a: AccountView| a.balance;
    let before = list.take(i);
    let after = list.take(i + 1);
    assert(after.drop_last() =~= before);
    bytemap::lemma_as_map(before);
    let m = bytemap::as_map(before);
    assert(!m.contains_key(list[i].0)) by {
        if m.contains_key(list[i].0) {
            let j = choose|j: int| 0 <= j < before.len() && #[trigger] before[j].0 == list[i].0;
            assert(bytemap::less(list[j].0, list[i].0));
            bytemap::lemma_less_irreflexive(list[i].0);
        }
    }
    assert(bytemap::as_map(after).map_values(f) =~= m.map_values(f).insert(
        list[i].0,
        list[i].1.balance,
    ));
    assert(m.map_values(f).dom() =~= m.dom());
    sums::lemma_total_insert(m.map_values(f), list[i].0, list[i].1.balance);
}

proof fn lemma_list_balance_monotone(list: Seq<(Key, AccountView)>, i: int, j: int)
    requires
        bytemap::ascending(list),
        0 <= i <= j <= list.len(),
    ensures
        list_balance(list, i) <= list_balance(list, j),
    decreases j - i,
{
    if i < j {
        lemma_list_balance_step(list, i);
        lemma_list_balance_monotone(list, i + 1, j);
    }
}

/// Writing one balance changes the supply by what the balance changes.
proof fn lemma_write_total(accounts: Map<Key, AccountView>, k: Key, a: AccountView)
    requires
        accounts.dom().finite(),
    ensures
        ({
            let f = |a: AccountView| a.balance;
            sums::total(accounts.insert(k, a).map_values(f)) == sums::total(accounts.map_values(f))
                - (if accounts.contains_key(k) {
                accounts[k].balance as int
            } else {
                0
            }) + a.balance
        }),
        accounts.insert(k, a).dom().finite(),
{
    let f = |a: AccountView| a.balance;
    assert(accounts.insert(k, a).map_values(f) =~= accounts.map_values(f).insert(k, a.balance));
    assert(accounts.map_values(f).dom() =~= accounts.dom());
    sums::lemma_total_insert(accounts.map_values(f), k, a.balance);
}

/// What a transaction adds to the total supply.
pub open spec fn minted(s: StateView, tx: TxView) -> int {
    if tx.kind is Mint && s.outcome(tx) is Ok {
        tx.kind.amount() as int
    } else {
        0
    }
}

/// A transaction changes the total supply by what it mints: transfers,
/// self-transfers and every kind of failure conserve it.
pub proof fn law_supply_is_accounted_for(s: StateView, tx: TxView)
    requires
        s.well_keyed(),
    ensures
        s.apply(tx).well_keyed(),
        s.apply(tx).supply() == s.supply() + minted(s, tx),
{
    let k = key_of(tx.sender);
    let accounts = if s.outcome(tx) is Ok {
        s.moved(tx)
    } else {
        s.accounts
    };
    if s.outcome(tx) is Ok {
        let to = tx.kind.target();
        let amount = tx.kind.amount();
        let before = if tx.kind is Transfer {
            let a = s.account(tx.sender);
            lemma_write_total(
                s.accounts,
                k,
                AccountView { balance: (a.balance - amount) as u64, ..a },
            );
            debited(s.accounts, tx.sender, amount)
        } else {
            s.accounts
        };
        let b = account_or_new(before, to);
        lemma_write_total(
            before,
            key_of(to),
            AccountView { balance: (b.balance + amount) as u64, ..b },
        );
    }
    if s.consumes(tx) {
        let a = accounts[k];
        lemma_write_total(accounts, k, AccountView { nonce: (a.nonce + 1) as u64, ..a });
    }
}

/// Failed transactions consume the nonce, if at all, and leave no other trace.
pub proof fn law_failures_leave_no_trace(s: StateView, tx: TxView)
    requires
        s.outcome(tx) is Err,
    ensures
        s.apply(tx) == if s.consumes(tx) {
            StateView {
                accounts: s.accounts.insert(
                    key_of(tx.sender),
                    AccountView {
                        nonce: (s.account(tx.sender).nonce + 1) as u64,
                        ..s.account(tx.sender)
                    },
                ),
            }
        } else {
            s
        },
{
}

/// Transactions take nonces up, by one each at most, and never down. Accounts
/// never go away.
proof fn lemma_nonces_grow(s: StateView, txs: Seq<TxView>, id: AccountId)
    requires
        s.nonces_left(txs),
    ensures
        s.nonce(id) <= s.apply_all(txs).nonce(id) <= s.nonce(id) + txs.len(),
        s.knows(id) ==> s.apply_all(txs).knows(id),
    decreases txs.len(),
{
    if txs.len() > 0 {
        let rest = txs.drop_last();
        assert forall|i: int| 0 <= i < rest.len() implies (#[trigger] rest[i]).nonce < u64::MAX
            || s.nonce(rest[i].sender) + i < u64::MAX by {
            assert(rest[i] == txs[i]);
        }
        lemma_nonces_grow(s, rest, id);
        lemma_nonces_grow(s, rest, txs.last().sender);
        assert(txs.last() == txs[txs.len() - 1]);
    }
}

/// Where the nonces last for all transactions, each one finds one left.
proof fn lemma_nonce_left(s: StateView, txs: Seq<TxView>, i: int)
    requires
        s.nonces_left(txs),
        0 <= i < txs.len(),
    ensures
        s.apply_all(txs.take(i)).nonce_left(txs[i]),
{
    let before = txs.take(i);
    assert forall|j: int| 0 <= j < before.len() implies (#[trigger] before[j]).nonce < u64::MAX
        || s.nonce(before[j].sender) + j < u64::MAX by {
        assert(before[j] == txs[j]);
    }
    lemma_nonces_grow(s, before, txs[i].sender);
}

/// A transaction that has used its nonce is refused ever after: whatever
/// transactions follow, it fails with a bad nonce.
pub proof fn law_no_replay(s: StateView, tx: TxView, txs: Seq<TxView>)
    requires
        s.consumes(tx),
        tx.nonce < u64::MAX,
        s.apply(tx).nonces_left(txs),
    ensures
        ({
            let later = s.apply(tx).apply_all(txs);
            later.knows(tx.sender) && later.verdict(tx) == Err::<(), TxError>(
                TxError::BadNonce { expected: later.account(tx.sender).nonce, got: tx.nonce },
            )
        }),
{
    lemma_nonces_grow(s.apply(tx), txs, tx.sender);
}

proof fn lemma_encodings_len(list: Seq<(Key, AccountView)>)
    ensures
        encodings(list).len() == 48 * list.len(),
    decreases list.len(),
{
    if list.len() > 0 {
        lemma_encodings_len(list.drop_last());
        account::law_account_encoding_injective(list.last().1, list.last().1);
    }
}

proof fn lemma_encodings_injective(a: Seq<(Key, AccountView)>, b: Seq<(Key, AccountView)>)
    requires
        encodings(a) == encodings(b),
    ensures
        a.len() == b.len(),
        forall|i: int|
            0 <= i < a.len() ==> (#[trigger] a[i]).1.id == b[i].1.id && a[i].1.balance
                == b[i].1.balance && a[i].1.nonce == b[i].1.nonce,
    decreases a.len(),
{
    lemma_encodings_len(a);
    lemma_encodings_len(b);
    if a.len() > 0 {
        let (x, y) = (a.last().1, b.last().1);
        account::law_account_encoding_injective(x, y);
        account::law_account_encoding_injective(y, x);
        lemma_encodings_len(a.drop_last());
        lemma_encodings_len(b.drop_last());
        bytes::lemma_concat_cancel(
            encodings(a.drop_last()),
            x.encoded(),
            encodings(b.drop_last()),
            y.encoded(),
        );
        lemma_encodings_injective(a.drop_last(), b.drop_last());
        assert forall|i: int| 0 <= i < a.len() implies (#[trigger] a[i]).1.id == b[i].1.id
            && a[i].1.balance == b[i].1.balance && a[i].1.nonce == b[i].1.nonce by {
            if i < a.len() - 1 {
                assert(a[i] == a.drop_last()[i]);
                assert(b[i] == b.drop_last()[i]);
            }
        }
    }
}

/// Whether two states hold the same accounts, auth policies apart.
pub open spec fn same_ledger(a: StateView, b: StateView) -> bool {
    &&& a.accounts.dom() == b.accounts.dom()
    &&& forall|k: Key| #[trigger]
        a.accounts.contains_key(k) ==> a.accounts[k].id == b.accounts[k].id
            && a.accounts[k].balance == b.accounts[k].balance && a.accounts[k].nonce
            == b.accounts[k].nonce
}

/// A state root commits to the ids, balances and nonces of all accounts, unless
/// the hash inputs collide.
pub proof fn law_root_binds_accounts(a: StateView, b: StateView)
    requires
        a.well_keyed(),
        b.well_keyed(),
        a.root() == b.root(),
    ensures
        same_ledger(a, b) || hash::collide(a.root_input(), b.root_input()),
{
    let listed_a = bytemap::lemma_has_listing(a.accounts);
    let listed_b = bytemap::lemma_has_listing(b.accounts);
    lemma_listing(a, listed_a);
    lemma_listing(b, listed_b);
    let tag = text::utf8("nex:state"@);
    let (x, y) = (tag + encodings(listed_a), tag + encodings(listed_b));
    assert(hash::blake3_digest(x) == hash::blake3_digest(y));
    if x == y {
        bytes::lemma_concat_cancel(tag, encodings(listed_a), tag, encodings(listed_b));
        lemma_encodings_injective(listed_a, listed_b);
        bytemap::lemma_as_map(listed_a);
        bytemap::lemma_as_map(listed_b);
        assert forall|i: int| 0 <= i < listed_a.len() implies (#[trigger] listed_a[i]).0
            == listed_b[i].0 by {
            bytemap::lemma_as_map_value(listed_a, i);
            bytemap::lemma_as_map_value(listed_b, i);
        }
        assert forall|k: Key| #[trigger] a.accounts.contains_key(k) implies b.accounts.contains_key(
            k,
        ) && a.accounts[k].id == b.accounts[k].id && a.accounts[k].balance
            == b.accounts[k].balance && a.accounts[k].nonce == b.accounts[k].nonce by {
            let i = choose|i: int| 0 <= i < listed_a.len() && #[trigger] listed_a[i].0 == k;
            bytemap::lemma_as_map_value(listed_a, i);
            bytemap::lemma_as_map_value(listed_b, i);
        }
        assert forall|k: Key| #[trigger] b.accounts.contains_key(k) implies a.accounts.contains_key(
            k,
        ) by {
            let i = choose|i: int| 0 <= i < listed_b.len() && #[trigger] listed_b[i].0 == k;
            assert(listed_a[i].0 == listed_b[i].0);
        }
        assert(a.accounts.dom() =~= b.accounts.dom());
    }
}

/// Validation asks for a sender that exists, its next nonce, and, of a transfer,
/// that the sender holds the amount; a refusal names the first of these that
/// fails, with the figures. Whether there is room for the credit shows when the
/// transaction runs.
pub proof fn law_validity(s: StateView, tx: TxView)
    ensures
        ({
            let known = s.accounts.contains_key(tx.sender.0.0);
            let a = s.accounts[tx.sender.0.0];
            let covered = tx.kind matches TransactionKind::Transfer { amount, .. } ==> amount
                <= a.balance;
            let room = match tx.kind {
                TransactionKind::Transfer { to, amount } => to == tx.sender
                    || !s.accounts.contains_key(to.0.0) || s.accounts[to.0.0].balance + amount
                    <= u64::MAX,
                TransactionKind::Mint { to, amount } => !s.accounts.contains_key(to.0.0)
                    || s.accounts[to.0.0].balance + amount <= u64::MAX,
            };
            &&& match s.verdict(tx) {
                Ok(_) => known && tx.nonce == a.nonce && covered,
                Err(TxError::UnknownSender) => !known,
                Err(TxError::BadNonce { expected, got }) => {
                    &&& known && tx.nonce != a.nonce
                    &&& expected == a.nonce && got == tx.nonce
                },
                Err(TxError::InsufficientBalance { have, need }) => {
                    &&& known && tx.nonce == a.nonce && !covered
                    &&& have == a.balance
                    &&& tx.kind matches TransactionKind::Transfer { amount, .. } && need == amount
                },
                Err(_) => false,
            }
            &&& s.outcome(tx) is Ok <==> s.verdict(tx) is Ok && room
            &&& s.verdict(tx) is Ok && !room ==> s.outcome(tx) == Err::<(), TxError>(
                TxError::Overflow,
            )
            &&& s.verdict(tx) is Err ==> s.outcome(tx) == s.verdict(tx)
            &&& s.receipt(tx).tx_id == tx.id() && s.receipt(tx).result == s.outcome(tx)
        }),
{
}

/// What a successful transaction does to every account: a transfer takes from
/// the sender what it gives to the target, a mint gives without taking, the
/// sender's nonce goes up by one, and nobody else notices.
pub proof fn law_successful_transactions_move_exactly(s: StateView, tx: TxView, id: AccountId)
    requires
        s.outcome(tx) is Ok,
        tx.nonce < u64::MAX,
    ensures
        ({
            let after = s.apply(tx);
            let k = id.0.0;
            let (to, amount, spent) = match tx.kind {
                TransactionKind::Transfer { to, amount } => (to, amount as int, amount as int),
                TransactionKind::Mint { to, amount } => (to, amount as int, 0int),
            };
            let had = if s.accounts.contains_key(k) {
                s.accounts[k].balance as int
            } else {
                0
            };
            &&& after.accounts.contains_key(k) <==> s.accounts.contains_key(k) || id == to
            &&& after.accounts.contains_key(k) ==> {
                let b = after.accounts[k];
                &&& b.balance == had - (if id == tx.sender {
                    spent
                } else {
                    0
                }) + (if id == to {
                    amount
                } else {
                    0
                })
                &&& s.accounts.contains_key(k) ==> {
                    &&& b.id == s.accounts[k].id && b.auth == s.accounts[k].auth
                    &&& b.nonce == s.accounts[k].nonce + (if id == tx.sender {
                        1int
                    } else {
                        0
                    })
                }
                &&& !s.accounts.contains_key(k) ==> b.id == id && b.nonce == 0 && b.auth is Open
            }
        }),
{
    let (to, amount) = match tx.kind {
        TransactionKind::Transfer { to, amount } => (to, amount),
        TransactionKind::Mint { to, amount } => (to, amount),
    };
    if id.0.0 == to.0.0 {
        assert(id == to);
    }
    if id.0.0 == tx.sender.0.0 {
        assert(id == tx.sender);
    }
    if to.0.0 == tx.sender.0.0 {
        assert(to == tx.sender);
    }
}

/// A transaction that fails uses up its sender's nonce if it was the next one,
/// and changes nothing else.
pub proof fn law_failed_transactions_cost_a_nonce(s: StateView, tx: TxView, k: Key)
    requires
        s.outcome(tx) is Err,
        tx.nonce < u64::MAX,
    ensures
        ({
            let after = s.apply(tx);
            let counted = s.accounts.contains_key(tx.sender.0.0) && s.accounts[tx.sender.0.0].nonce
                == tx.nonce;
            &&& after.accounts.contains_key(k) == s.accounts.contains_key(k)
            &&& s.accounts.contains_key(k) ==> {
                let a = s.accounts[k];
                let b = after.accounts[k];
                &&& b.id == a.id && b.balance == a.balance && b.auth == a.auth
                &&& b.nonce == a.nonce + (if counted && k == tx.sender.0.0 {
                    1int
                } else {
                    0
                })
            }
        }),
{
}

/// Transactions take effect one after the other, each with a receipt of its own.
pub proof fn law_blocks_run_in_order(s: StateView, txs: Seq<TxView>, tx: TxView)
    ensures
        s.apply_all(Seq::empty()) == s,
        s.receipts(Seq::empty()).len() == 0,
        s.apply_all(txs.push(tx)) == s.apply_all(txs).apply(tx),
        s.receipts(txs.push(tx)) == s.receipts(txs).push(s.apply_all(txs).receipt(tx)),
{
    assert(txs.push(tx).drop_last() =~= txs);
}

/// The supply is the sum of all balances, and a balance is that of the account.
pub proof fn law_supply_adds_up_the_balances(s: StateView, id: AccountId, a: AccountView)
    requires
        s.accounts.dom().finite(),
        !s.accounts.contains_key(id.0.0),
    ensures
        (StateView { accounts: Map::empty() }).supply() == 0,
        (StateView { accounts: s.accounts.insert(id.0.0, a) }).supply() == s.supply() + a.balance,
        (StateView { accounts: s.accounts.insert(id.0.0, a) }).balance(id) == a.balance,
        (StateView { accounts: s.accounts.insert(id.0.0, a) }).nonce(id) == a.nonce,
        s.balance(id) == 0,
        s.nonce(id) == 0,
{
    let f = |a: AccountView| a.balance;
    let t = s.accounts.insert(id.0.0, a);
    assert(Map::<Key, AccountView>::empty().map_values(f) =~= Map::<Key, u64>::empty());
    assert(t.map_values(f) =~= s.accounts.map_values(f).insert(id.0.0, a.balance));
    assert(s.accounts.map_values(f).dom() =~= s.accounts.dom());
    sums::lemma_total_insert(s.accounts.map_values(f), id.0.0, a.balance);
}

} // verus!
