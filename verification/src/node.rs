//! A persistent, single-node devnet: a chain you can run, fund accounts on,
//! move value across, and that survives restarts.
//!
//! It is a single sequencer (no networking, no multi-validator consensus, no
//! fork choice) over signed transactions with account-abstraction auth,
//! deterministic state transition, block production with committed roots, and
//! a canonical byte form of the whole chain state.
//!
//! Accounts are addressed by human labels: a label maps to an Ed25519 key and
//! a single-key account id. A built-in `treasury` account holds the initial
//! supply and is the issuance authority; `fund` moves figs from it to a user
//! account (creating that account, which is then claimed on its first spend).

use vstd::prelude::*;

use crate::account;
use crate::account::{AccountId, AccountView, AuthPolicy, PolicyView};
use crate::block;
use crate::block::{Block, BlockHeader};
use crate::bytes;
use crate::crypto;
use crate::crypto::Keypair;
use crate::hash;
use crate::ledger_laws;
use crate::merkle;
use crate::receipt;
use crate::receipt::{Receipt, TxError};
use crate::snapshot;
use crate::state;
use crate::state::{State, StateView};
use crate::transaction;
use crate::transaction::{RevealView, Transaction, TransactionKind, TxView};

verus! {

/// The operator/treasury label: pre-funded at genesis and set as the issuance
/// authority.
pub const TREASURY: &'static str = "treasury";

/// Version of the chain file format.
const NODE_VERSION: u8 = 1;

/// Errors surfaced to the command line.
#[derive(Debug)]
pub enum NodeError {
    /// A transaction was rejected by the state machine.
    Rejected(TxError),
    /// I/O while loading/saving the chain file.
    Io(String),
    /// The chain file is missing or malformed.
    BadChainFile(String),
    /// A user-facing usage problem (e.g. spending from an unknown account).
    Usage(String),
}

impl NodeError {
    /// What the user is told.
    pub open spec fn text(self) -> Seq<char> {
        match self {
            NodeError::Rejected(e) => "transaction rejected: "@ + e.text(),
            NodeError::Io(e) => "io error: "@ + e@,
            NodeError::BadChainFile(e) => "bad chain file: "@ + e@,
            NodeError::Usage(e) => e@,
        }
    }

    /// The message for the user.
    pub fn message(&self) -> (s: String)
        ensures
            s@ == self.text(),
    {
        match self {
            NodeError::Rejected(e) => {
                let text = e.describe();
                joined("transaction rejected: ", text.as_str())
            },
            NodeError::Io(e) => joined("io error: ", e.as_str()),
            NodeError::BadChainFile(e) => joined("bad chain file: ", e.as_str()),
            NodeError::Usage(e) => e.as_str().to_owned(),
        }
    }
}

fn joined(a: &str, b: &str) -> (s: String)
    ensures
        s@ == a@ + b@,
{
    let mut s = a.to_owned();
    s.append(b);
    s
}

/// A single-node chain: ledger state plus the head pointer.
#[derive(Debug)]
pub struct Node {
    pub state: State,
    pub height: u64,
    pub parent: hash::Hash,
}

/// The contents of a [`Node`].
#[verifier::ext_equal]
pub struct NodeView {
    pub state: StateView,
    pub height: u64,
    pub parent: hash::Hash,
}

impl View for Node {
    type V = NodeView;

    open spec fn view(&self) -> NodeView {
        NodeView { state: self.state@, height: self.height, parent: self.parent }
    }
}

/// The policy that the key of a label satisfies.
pub open spec fn label_policy(label: Seq<char>) -> PolicyView {
    PolicyView::SingleKey(crypto::public_key_of(crypto::label_seed(label)))
}

/// The account id of a label.
pub open spec fn label_address(label: Seq<char>) -> AccountId {
    account::auth_id(label_policy(label), 0)
}

/// The four bytes that a chain file starts with: `PHIN`.
pub open spec fn magic() -> Seq<u8> {
    seq![0x50u8, 0x48u8, 0x49u8, 0x4eu8]
}

/// The fixed part of a chain file: magic, version, height and parent.
pub open spec fn head_bytes(height: u64, parent: hash::Hash) -> Seq<u8> {
    magic() + seq![1u8] + bytes::le64(height) + parent@
}

/// Whether `data` is the byte form of the node.
pub open spec fn is_node_bytes(n: NodeView, data: Seq<u8>) -> bool {
    exists|snap: Seq<u8>|
        #[trigger] snapshot::is_snapshot(n.state, snap) && data == head_bytes(n.height, n.parent)
            + snap
}

impl NodeView {
    /// Whether there is another block height, and another nonce for the account
    /// behind a label.
    pub open spec fn can_spend(self, label: Seq<char>) -> bool {
        self.height < u64::MAX && self.state.nonce(label_address(label)) < u64::MAX
    }

    /// A fresh chain: the treasury holds the initial supply and is the
    /// issuance authority.
    pub open spec fn is_genesis(self, chain_id: u64, initial_supply: u64) -> bool {
        &&& self.state == (StateView {
            accounts: Map::empty().insert(
                label_address(TREASURY@),
                AccountView {
                    id: label_address(TREASURY@),
                    balance: initial_supply,
                    nonce: 0,
                    auth: label_policy(TREASURY@),
                },
            ),
            chain_id,
            minter: Some(label_address(TREASURY@)),
            base_fee: 0,
        })
        &&& self.height == 0
        &&& self.parent@ == Seq::new(32, |i: int| 0u8)
    }

    /// The transfer that the owner of `from` would sign, before the signature.
    /// The first spend from a received account reveals its policy.
    pub open spec fn unsigned(self, from: Seq<char>, to: AccountId, amount: u64) -> TxView {
        let a = self.state.accounts[label_address(from)];
        TxView {
            chain_id: self.state.chain_id,
            auth_reveal: if a.auth is Unclaimed {
                Some(RevealView { policy: label_policy(from), salt: 0 })
            } else {
                None
            },
            ..TxView::plain(
                label_address(from),
                a.nonce,
                TransactionKind::Transfer { to, amount },
            )
        }
    }

    /// The signed transfer.
    pub open spec fn transfer_tx(self, from: Seq<char>, to: AccountId, amount: u64) -> TxView {
        let tx = self.unsigned(from, to, amount);
        TxView {
            signatures: seq![crypto::signature_of(crypto::label_seed(from), tx.id()@)],
            ..tx
        }
    }

    /// Whether the signature of the transfer does not start with the identity
    /// point, which verification refuses.
    pub open spec fn plainly_signed(self, from: Seq<char>, to: AccountId, amount: u64) -> bool {
        self.transfer_tx(from, to, amount).signatures[0]@.take(32) != crypto::identity_point()
    }

    /// Whether the account of a label exists and its key can spend from it: it
    /// is unclaimed, or claimed by that key.
    pub open spec fn owns(self, label: Seq<char>) -> bool {
        let a = self.state.accounts[label_address(label)];
        &&& self.state.accounts.contains_key(label_address(label))
        &&& a.auth is Unclaimed || a.auth == label_policy(label)
    }

    /// Whether the owner of `from` can move `amount` figs to `to`: the account
    /// is theirs, transactions are free, and both balances allow it.
    pub open spec fn affords(self, from: Seq<char>, to: AccountId, amount: u64) -> bool {
        let id = label_address(from);
        &&& self.owns(from)
        &&& self.state.base_fee == 0
        &&& amount <= self.state.balance(id)
        &&& to == id || self.state.balance(to) + amount <= u64::MAX
    }

    /// The header of the block that holds just this transaction.
    pub open spec fn next_header(self, tx: TxView, timestamp_ms: u64) -> BlockHeader {
        BlockHeader {
            chain_id: self.state.chain_id,
            height: (self.height + 1) as u64,
            parent: self.parent,
            tx_root: block::tx_root_of(seq![tx]),
            state_root: self.state.apply(tx).root(),
            receipts_root: receipt::receipts_root_of(seq![self.state.receipt(tx)]),
            proposer: 0,
            timestamp_ms,
        }
    }

    /// The chain after a block with just this transaction.
    pub open spec fn advanced(self, tx: TxView, timestamp_ms: u64) -> NodeView {
        NodeView {
            state: self.state.apply(tx),
            height: (self.height + 1) as u64,
            parent: self.next_header(tx, timestamp_ms).digest(),
        }
    }

    /// Whether `r` and `after` are what a transfer gives: a usage error if the
    /// sender does not exist, the ledger's verdict if it refuses the
    /// transaction, and otherwise a new block. Without a new block nothing
    /// changes.
    pub open spec fn transfers(
        self,
        from: Seq<char>,
        to: AccountId,
        amount: u64,
        timestamp_ms: u64,
        r: Result<Receipt, NodeError>,
        after: NodeView,
    ) -> bool {
        let tx = self.transfer_tx(from, to, amount);
        if !self.state.accounts.contains_key(label_address(from)) {
            &&& r matches Err(NodeError::Usage(text))
            &&& text@ == "account '"@ + from + "' does not exist yet — fund it first"@
            &&& after == self
        } else {
            match self.state.verdict(tx) {
                Err(e) => r == Err::<Receipt, NodeError>(NodeError::Rejected(e)) && after == self,
                Ok(_) => r == Ok::<Receipt, NodeError>(self.state.receipt(tx)) && after
                    == self.advanced(tx, timestamp_ms),
            }
        }
    }
}

/// A transfer that is afforded, and whose signature satisfies the policy of
/// its label, is valid.
proof fn lemma_affordable_is_valid(n: NodeView, from: Seq<char>, to: AccountId, amount: u64)
    requires
        n.state.accounts[label_address(from)].id == label_address(from),
    ensures
        ({
            let tx = n.transfer_tx(from, to, amount);
            n.affords(from, to, amount) && state::satisfied(
                label_policy(from),
                tx.id()@,
                tx.signatures,
            ) ==> n.state.verdict(tx) is Ok
        }),
{
    let tx = n.transfer_tx(from, to, amount);
    assert(tx.access.writes[0] == tx.sender);
    assert(tx.access.writes[1] == to);
}

/// The treasury of a fresh chain affords every transfer within the initial
/// supply.
pub proof fn law_genesis_affords_its_supply(
    n: NodeView,
    chain_id: u64,
    initial_supply: u64,
    to: AccountId,
    amount: u64,
)
    requires
        n.is_genesis(chain_id, initial_supply),
    ensures
        n.affords(TREASURY@, to, amount) <==> amount <= initial_supply,
{
}

/// Who is sent figs for the first time owns them: the new account holds the
/// amount and can spend it.
pub proof fn law_funded_accounts_can_spend(
    n: NodeView,
    from: Seq<char>,
    label: Seq<char>,
    amount: u64,
    timestamp_ms: u64,
    to: AccountId,
    spent: u64,
)
    requires
        n.affords(from, label_address(label), amount),
        n.state.verdict(n.transfer_tx(from, label_address(label), amount)) is Ok,
        !n.state.accounts.contains_key(label_address(label)),
    ensures
        ({
            let after = n.advanced(
                n.transfer_tx(from, label_address(label), amount),
                timestamp_ms,
            );
            &&& after.state.balance(label_address(label)) == amount
            &&& after.affords(label, to, spent) <==> spent <= amount && (to == label_address(label)
                || after.state.balance(to) + spent <= u64::MAX)
        }),
{
}

/// A transfer takes no account away from its owner, neither from the sender
/// nor from anyone at another address.
pub proof fn law_transfers_keep_ownership(
    n: NodeView,
    from: Seq<char>,
    to: AccountId,
    amount: u64,
    timestamp_ms: u64,
    other: Seq<char>,
)
    requires
        n.owns(from),
        n.state.verdict(n.transfer_tx(from, to, amount)) is Ok,
    ensures
        ({
            let after = n.advanced(n.transfer_tx(from, to, amount), timestamp_ms);
            &&& after.owns(from)
            &&& n.owns(other) && label_address(other) != label_address(from) ==> after.owns(other)
        }),
{
}

impl Node {
    /// The key for a label (deterministic; a real wallet would use a
    /// keystore).
    pub fn keypair(label: &str) -> (kp: Keypair)
        ensures
            kp@ == crypto::label_seed(label@),
    {
        Keypair::from_label(label)
    }

    /// The single-key account id for a label.
    pub fn address(label: &str) -> (id: AccountId)
        ensures
            id == label_address(label@),
    {
        AccountId::from_auth(&AuthPolicy::SingleKey(Self::keypair(label).public()), 0)
    }

    /// Create a fresh chain: `treasury` is funded with `initial_supply` and
    /// set as the issuance authority.
    pub fn init(chain_id: u64, initial_supply: u64) -> (n: Node)
        ensures
            n@.is_genesis(chain_id, initial_supply),
    {
        let mut state = State::new();
        state.set_chain_id(chain_id);
        let treasury = Self::address(TREASURY);
        state.set_minter(Some(treasury));
        state.genesis_account_with_auth(
            treasury,
            initial_supply,
            AuthPolicy::SingleKey(Self::keypair(TREASURY).public()),
        );
        Node { state, height: 0, parent: hash::Hash::zero() }
    }

    pub fn chain_id(&self) -> (id: u64)
        ensures
            id == self@.state.chain_id,
    {
        self.state.chain_id()
    }

    pub fn balance(&self, label: &str) -> (b: u64)
        ensures
            b == self@.state.balance(label_address(label@)),
    {
        self.state.balance(&Self::address(label))
    }

    pub fn state_root(&self) -> (h: hash::Hash)
        ensures
            h == self@.state.root(),
    {
        self.state.root()
    }

    pub fn total_supply(&self) -> (sum: u128)
        ensures
            sum == self@.state.supply(),
    {
        self.state.total_supply()
    }

    pub fn account_count(&self) -> (n: usize)
        ensures
            n == self@.state.accounts.dom().len(),
    {
        self.state.account_count()
    }

    /// Whether there is another block height, and another nonce for the account
    /// behind a label.
    pub fn can_spend(&self, label: &str) -> (ok: bool)
        ensures
            ok == self@.can_spend(label@),
    {
        self.height < u64::MAX && self.state.nonce(&Self::address(label)) < u64::MAX
    }

    /// Move `amount` figs from the treasury to `label`'s account.
    pub fn fund(&mut self, label: &str, amount: u64, timestamp_ms: u64) -> (r: Result<
        Receipt,
        NodeError,
    >)
        requires
            old(self)@.can_spend(TREASURY@),
        ensures
            old(self)@.transfers(
                TREASURY@,
                label_address(label@),
                amount,
                timestamp_ms,
                r,
                final(self)@,
            ),
            old(self)@.affords(TREASURY@, label_address(label@), amount)
                && old(self)@.plainly_signed(TREASURY@, label_address(label@), amount)
                ==> r is Ok,
    {
        let to = Self::address(label);
        match self.build_transfer(TREASURY, &to, amount) {
            Ok(tx) => {
                proof {
                    lemma_affordable_is_valid(self@, TREASURY@, to, amount);
                }
                self.submit(tx, timestamp_ms)
            },
            Err(e) => Err(e),
        }
    }

    /// Move `amount` figs from `from` to `to` (both labels).
    pub fn transfer(&mut self, from: &str, to: &str, amount: u64, timestamp_ms: u64) -> (r: Result<
        Receipt,
        NodeError,
    >)
        requires
            old(self)@.can_spend(from@),
        ensures
            old(self)@.transfers(
                from@,
                label_address(to@),
                amount,
                timestamp_ms,
                r,
                final(self)@,
            ),
            old(self)@.affords(from@, label_address(to@), amount)
                && old(self)@.plainly_signed(from@, label_address(to@), amount) ==> r is Ok,
    {
        let to_id = Self::address(to);
        match self.build_transfer(from, &to_id, amount) {
            Ok(tx) => {
                proof {
                    lemma_affordable_is_valid(self@, from@, to_id, amount);
                }
                self.submit(tx, timestamp_ms)
            },
            Err(e) => Err(e),
        }
    }

    /// Build a signed transfer from `from_label` to `to`, attaching the
    /// first-spend auth reveal if the sender account has not yet been claimed.
    /// Its signature satisfies the policy of the label.
    fn build_transfer(&self, from_label: &str, to: &AccountId, amount: u64) -> (r: Result<
        Transaction,
        NodeError,
    >)
        ensures
            match r {
                Ok(tx) => {
                    &&& self@.state.accounts.contains_key(label_address(from_label@))
                    &&& self@.state.accounts[label_address(from_label@)].id == label_address(
                        from_label@,
                    )
                    &&& tx@ == self@.transfer_tx(from_label@, *to, amount)
                    &&& self@.plainly_signed(from_label@, *to, amount) ==> state::satisfied(
                        label_policy(from_label@),
                        tx@.id()@,
                        tx@.signatures,
                    )
                },
                Err(e) => {
                    &&& !self@.state.accounts.contains_key(label_address(from_label@))
                    &&& e matches NodeError::Usage(text)
                    &&& text@ == "account '"@ + from_label@
                        + "' does not exist yet — fund it first"@
                },
            },
    {
        let from = Self::address(from_label);
        match self.state.account(&from) {
            None => {
                let mut text = String::new();
                text.append("account '");
                text.append(from_label);
                text.append("' does not exist yet — fund it first");
                assert(text@ =~= "account '"@ + from_label@
                    + "' does not exist yet — fund it first"@);
                Err(NodeError::Usage(text))
            },
            Some(account) => {
                let kp = Self::keypair(from_label);
                let mut tx = Transaction::transfer(from, account.nonce, *to, amount).with_chain_id(
                    self.chain_id(),
                );
                // First spend from a received (Unclaimed) account: reveal the
                // policy the account id commits to so the ledger can verify
                // and claim it.
                let unclaimed: bool = match &account.auth {
                    AuthPolicy::Unclaimed => true,
                    _ => false,
                };
                if unclaimed {
                    tx = tx.with_reveal(AuthPolicy::SingleKey(kp.public()), 0);
                }
                assert(tx@ =~= self@.unsigned(from_label@, *to, amount));
                let signed = tx.signed(&kp);
                proof {
                    let v = self@.transfer_tx(from_label@, *to, amount);
                    assert(signed@ =~= v);
                    assert(v.id_parts() =~= self@.unsigned(from_label@, *to, amount).id_parts());
                    assert(v.signatures[0] == crypto::signature_of(
                        crypto::label_seed(from_label@),
                        v.id()@,
                    ));
                }
                Ok(signed)
            },
        }
    }

    /// Validate, then produce a one-transaction block and apply it. Invalid
    /// transactions are reported without advancing the chain.
    fn submit(&mut self, tx: Transaction, timestamp_ms: u64) -> (r: Result<Receipt, NodeError>)
        requires
            old(self)@.state.nonce_left(tx@),
            old(self)@.height < u64::MAX,
        ensures
            match old(self)@.state.verdict(tx@) {
                Err(e) => r == Err::<Receipt, NodeError>(NodeError::Rejected(e)) && final(self)@
                    == old(self)@,
                Ok(_) => r == Ok::<Receipt, NodeError>(old(self)@.state.receipt(tx@))
                    && final(self)@ == old(self)@.advanced(tx@, timestamp_ms),
            },
    {
        let ghost start = self@;
        let ghost v = tx@;
        if let Err(e) = self.state.validate(&tx) {
            return Err(NodeError::Rejected(e));
        }
        let mut txs: Vec<Transaction> = Vec::new();
        txs.push(tx);
        assert(transaction::tx_views(txs@) =~= seq![v]);
        let tx_root = Block::compute_tx_root(txs.as_slice());
        let r = self.state.apply_tx(&txs[0]);
        let mut receipts: Vec<Receipt> = Vec::new();
        receipts.push(r);
        assert(receipts@ =~= seq![start.state.receipt(v)]);
        let header = BlockHeader {
            chain_id: self.chain_id(),
            height: self.height + 1,
            parent: self.parent,
            tx_root,
            state_root: self.state.root(),
            receipts_root: receipt::receipts_root(receipts.as_slice()),
            proposer: 0,
            timestamp_ms,
        };
        assert(header == start.next_header(v, timestamp_ms));
        self.height = self.height + 1;
        self.parent = header.hash();
        Ok(r)
    }

    /// Serialize the node (head pointer + ledger snapshot) to bytes.
    pub fn to_bytes(&self) -> (out: Vec<u8>)
        ensures
            is_node_bytes(self@, out@),
    {
        let mut out: Vec<u8> = Vec::new();
        out.push(0x50);
        out.push(0x48);
        out.push(0x49);
        out.push(0x4e);
        out.push(NODE_VERSION);
        bytes::push_u64(&mut out, self.height);
        bytes::push_bytes(&mut out, self.parent.0.as_slice());
        assert(out@ =~= head_bytes(self.height, self.parent));
        let snap = self.state.snapshot();
        bytes::push_bytes(&mut out, snap.as_slice());
        assert(snapshot::is_snapshot(self@.state, snap@));
        out
    }

    /// Reconstruct a node from [`Node::to_bytes`].
    pub fn from_bytes(data: &[u8]) -> (r: Result<Node, NodeError>)
        ensures
            match r {
                Ok(n) => is_node_bytes(n@, data@),
                Err(e) => e matches NodeError::BadChainFile(text) && text@ == (if data@.len() < 45 {
                    "too short"@
                } else if data@.take(4) != magic() {
                    "wrong magic"@
                } else if data@[4] != 1 {
                    "unsupported version"@
                } else {
                    "corrupt state snapshot"@
                }),
            },
            r is Err ==> forall|n: NodeView| !is_node_bytes(n, data@),
    {
        broadcast use bytes::lemma_le_bytes_len;

        proof {
            assert forall|n: NodeView| #[trigger] is_node_bytes(n, data@) implies data@.len() >= 45
                && data@.take(4) == magic() && data@[4] == 1 && snapshot::is_snapshot(
                n.state,
                data@.skip(45),
            ) by {
                let snap = choose|snap: Seq<u8>|
                    #[trigger] snapshot::is_snapshot(n.state, snap) && data@ == head_bytes(
                        n.height,
                        n.parent,
                    ) + snap;
                assert(head_bytes(n.height, n.parent).len() == 45);
                assert(data@.take(4) =~= magic());
                assert(data@.skip(45) =~= snap);
            }
        }
        if data.len() < 45 {
            return Err(NodeError::BadChainFile("too short".to_owned()));
        }
        if data[0] != 0x50 || data[1] != 0x48 || data[2] != 0x49 || data[3] != 0x4e {
            assert(data@.take(4)[0] == data@[0] && data@.take(4)[1] == data@[1] && data@.take(4)[2]
                == data@[2] && data@.take(4)[3] == data@[3]);
            return Err(NodeError::BadChainFile("wrong magic".to_owned()));
        }
        assert(data@.take(4) =~= magic());
        if data[4] != NODE_VERSION {
            return Err(NodeError::BadChainFile("unsupported version".to_owned()));
        }
        let height: u64 = bytes::read_u64(data, 5);
        let parent = hash::Hash(bytes::read_32(data, 13));
        let rest = vstd::slice::slice_subrange(data, 45, data.len());
        assert(rest@ =~= data@.skip(45));
        match State::from_snapshot(rest) {
            Some(state) => {
                let n = Node { state, height, parent };
                proof {
                    assert(data@ =~= head_bytes(height, parent) + data@.skip(45));
                    assert(snapshot::is_snapshot(n@.state, data@.skip(45)));
                }
                Ok(n)
            },
            None => Err(NodeError::BadChainFile("corrupt state snapshot".to_owned())),
        }
    }
}

/// What the user is told where a chain file is already in place.
pub open spec fn exists_text(place: Seq<char>) -> Seq<char> {
    "chain already exists at "@ + place + "; remove it to re-init"@
}

/// A fresh chain for a chain file at `place`, unless there already is one:
/// an existing chain is never clobbered.
pub fn init_chain(exists: bool, place: &str, chain_id: u64, initial_supply: u64) -> (r: Result<
    Node,
    NodeError,
>)
    ensures
        match r {
            Ok(n) => !exists && n@.is_genesis(chain_id, initial_supply),
            Err(e) => exists && e is Usage && e.text() == exists_text(place@),
        },
{
    if exists {
        let mut text = "chain already exists at ".to_owned();
        text.append(place);
        text.append("; remove it to re-init");
        assert(text@ =~= exists_text(place@));
        return Err(NodeError::Usage(text));
    }
    Ok(Node::init(chain_id, initial_supply))
}

/// The error for a failed file operation.
pub fn io_err(cause: String) -> (e: NodeError)
    ensures
        e == NodeError::Io(cause),
{
    NodeError::Io(cause)
}

/// A chain survives a restart: bytes are the form of at most one chain, so what
/// is read back is what was written.
pub proof fn law_restart_restores_the_chain(a: NodeView, b: NodeView, data: Seq<u8>)
    requires
        is_node_bytes(a, data),
        is_node_bytes(b, data),
    ensures
        a == b,
{
    broadcast use bytes::lemma_le_bytes_len;

    let x = choose|snap: Seq<u8>|
        #[trigger] snapshot::is_snapshot(a.state, snap) && data == head_bytes(a.height, a.parent)
            + snap;
    let y = choose|snap: Seq<u8>|
        #[trigger] snapshot::is_snapshot(b.state, snap) && data == head_bytes(b.height, b.parent)
            + snap;
    let ha = head_bytes(a.height, a.parent);
    let hb = head_bytes(b.height, b.parent);
    bytes::lemma_concat_cancel(ha, x, hb, y);
    let pa = magic() + seq![1u8] + bytes::le64(a.height);
    let pb = magic() + seq![1u8] + bytes::le64(b.height);
    bytes::lemma_concat_cancel(pa, a.parent@, pb, b.parent@);
    bytes::lemma_concat_cancel(
        magic() + seq![1u8],
        bytes::le64(a.height),
        magic() + seq![1u8],
        bytes::le64(b.height),
    );
    bytes::lemma_le64_injective(a.height, b.height);
    hash::lemma_hash_ext(a.parent, b.parent);
    snapshot::law_snapshot_restores(a.state, b.state, x);
}

/// A label stands for one key, and its address is the account of that key alone.
pub proof fn law_labels_stand_for_keys(label: Seq<char>)
    ensures
        label_address(label) == account::auth_id(
            PolicyView::SingleKey(crypto::public_key_of(crypto::label_seed(label))),
            0,
        ),
        label_policy(label) == PolicyView::SingleKey(
            crypto::public_key_of(crypto::label_seed(label)),
        ),
{
}

/// A fresh chain has one account, the treasury's, with the whole supply and the
/// right to issue; transactions are free, and there is no block yet.
pub proof fn law_genesis_is_the_treasury(
    n: NodeView,
    chain_id: u64,
    initial_supply: u64,
    id: AccountId,
)
    requires
        n.is_genesis(chain_id, initial_supply),
    ensures
        n.state.accounts.contains_key(id) <==> id == label_address(TREASURY@),
        n.state.accounts[label_address(TREASURY@)].balance == initial_supply,
        n.state.accounts[label_address(TREASURY@)].nonce == 0,
        n.state.accounts[label_address(TREASURY@)].auth == label_policy(TREASURY@),
        n.state.minter == Some(label_address(TREASURY@)),
        n.state.chain_id == chain_id,
        n.state.base_fee == 0,
        n.height == 0,
        n.parent@ == Seq::new(32, |i: int| 0u8),
{
}

/// The transfer that a node signs for a label is that label's, at its next nonce,
/// of the amount to the recipient, on this network. It reveals the label's policy
/// if the account has not been claimed, and is signed with the label's key.
pub proof fn law_nodes_sign_what_was_asked(
    n: NodeView,
    from: Seq<char>,
    to: AccountId,
    amount: u64,
)
    ensures
        ({
            let tx = n.transfer_tx(from, to, amount);
            let a = n.state.accounts[label_address(from)];
            &&& tx.sender == label_address(from)
            &&& tx.nonce == a.nonce
            &&& tx.chain_id == n.state.chain_id
            &&& tx.kind matches TransactionKind::Transfer { to: t, amount: m } && t == to && m
                == amount
            &&& tx.sponsor is None
            &&& a.auth is Unclaimed ==> tx.auth_reveal == Some(
                RevealView { policy: label_policy(from), salt: 0 },
            )
            &&& !(a.auth is Unclaimed) ==> tx.auth_reveal is None
            &&& tx.signatures.len() == 1
            &&& tx.signatures[0] == crypto::signature_of(crypto::label_seed(from), tx.id()@)
        }),
{
    let tx = n.transfer_tx(from, to, amount);
    transaction::law_id_ignores_signatures(n.unsigned(from, to, amount), tx.signatures);
}

/// The next block is the one after the head, holds just the transaction, and
/// commits to it, to its receipt and to the state after it.
pub proof fn law_blocks_follow_the_head(n: NodeView, tx: TxView, timestamp_ms: u64)
    requires
        n.height < u64::MAX,
    ensures
        ({
            let header = n.next_header(tx, timestamp_ms);
            let after = n.advanced(tx, timestamp_ms);
            &&& header.height == n.height + 1
            &&& header.parent == n.parent
            &&& header.chain_id == n.state.chain_id
            &&& header.tx_root == merkle::root_of(seq![tx.id()])
            &&& header.receipts_root == merkle::root_of(seq![n.state.receipt(tx).digest()])
            &&& header.state_root == after.state.root()
            &&& header.proposer == 0
            &&& header.timestamp_ms == timestamp_ms
            &&& after.state == n.state.apply(tx)
            &&& after.height == n.height + 1
            &&& after.parent == header.digest()
        }),
{
    assert(block::tx_ids(seq![tx]) =~= seq![tx.id()]);
    assert(receipt::receipt_digests(seq![n.state.receipt(tx)]) =~= seq![
        n.state.receipt(tx).digest(),
    ]);
}

/// What a transfer on the node does: either it is refused with a reason and
/// nothing has changed, or there is one more block, the sender has the amount
/// less, the recipient has it more, and nobody else's balance has changed.
pub proof fn law_node_transfers_move_the_amount(
    n: NodeView,
    from: Seq<char>,
    to: AccountId,
    amount: u64,
    timestamp_ms: u64,
    r: Result<Receipt, NodeError>,
    after: NodeView,
    id: AccountId,
)
    requires
        n.can_spend(from),
        n.transfers(from, to, amount, timestamp_ms, r, after),
    ensures
        r is Err ==> after == n,
        !n.state.accounts.contains_key(label_address(from)) ==> r matches Err(
            NodeError::Usage(_),
        ),
        n.state.accounts.contains_key(label_address(from)) ==> match r {
            Ok(receipt) => {
                let sender = label_address(from);
                &&& receipt.result is Ok
                &&& receipt.tx_id == n.transfer_tx(from, to, amount).id()
                &&& after.height == n.height + 1
                &&& to != sender ==> after.state.balance(to) == n.state.balance(to) + amount
                &&& to != sender ==> after.state.balance(sender) == n.state.balance(sender) - amount
                &&& to == sender ==> after.state.balance(sender) == n.state.balance(sender)
                &&& id != to && id != sender ==> after.state.balance(id) == n.state.balance(id)
                &&& after.state.nonce(sender) == n.state.nonce(sender) + 1
                &&& after.state.chain_id == n.state.chain_id
            },
            Err(NodeError::Rejected(e)) => n.state.verdict(n.transfer_tx(from, to, amount))
                == Err::<(), TxError>(e),
            Err(_) => false,
        },
{
    if r is Ok {
        let tx = n.transfer_tx(from, to, amount);
        let sender = label_address(from);
        ledger_laws::law_valid_transactions_are_in_order(n.state, tx);
        ledger_laws::law_valid_transactions_move_exactly(n.state, tx, to);
        ledger_laws::law_valid_transactions_move_exactly(n.state, tx, sender);
        ledger_laws::law_valid_transactions_move_exactly(n.state, tx, id);
    }
}

/// A label can spend as long as there is another height and another nonce for
/// it.
pub proof fn law_counters_leave_room(n: NodeView, label: Seq<char>)
    ensures
        n.can_spend(label) <==> n.height < u64::MAX && !(n.state.accounts.contains_key(
            label_address(label),
        ) && n.state.accounts[label_address(label)].nonce == u64::MAX),
{
}

/// A chain file starts with `PHIN` and the version, then the height and the hash
/// of the head, and the rest is the ledger.
pub proof fn law_chain_files_have_a_head(n: NodeView, data: Seq<u8>)
    requires
        is_node_bytes(n, data),
    ensures
        data.len() >= 45,
        data[0] == 0x50 && data[1] == 0x48 && data[2] == 0x49 && data[3] == 0x4e,
        data[4] == 1,
        bytes::le_value(data.subrange(5, 13)) == n.height,
        data.subrange(13, 45) == n.parent.0@,
        snapshot::is_snapshot(n.state, data.skip(45)),
{
    broadcast use bytes::lemma_le_bytes_len;

    let snap = choose|snap: Seq<u8>|
        #[trigger] snapshot::is_snapshot(n.state, snap) && data == head_bytes(n.height, n.parent)
            + snap;
    let head = head_bytes(n.height, n.parent);
    assert(head.len() == 45);
    bytes::law_numbers_are_little_endian(n.height, 0);
    assert(data.subrange(5, 13) =~= bytes::le64(n.height));
    assert(data.subrange(13, 45) =~= n.parent@);
    assert(data.skip(45) =~= snap);
}

/// What the user is told of an error.
pub proof fn law_errors_are_told(e: NodeError)
    ensures
        match e {
            NodeError::Rejected(x) => e.text() == "transaction rejected: "@ + x.text(),
            NodeError::Io(x) => e.text() == "io error: "@ + x@,
            NodeError::BadChainFile(x) => e.text() == "bad chain file: "@ + x@,
            NodeError::Usage(x) => e.text() == x@,
        },
{
}

/// Whoever spends from an account that is not there is told so by its name.
pub proof fn law_missing_accounts_are_named(
    n: NodeView,
    from: Seq<char>,
    to: AccountId,
    amount: u64,
    timestamp_ms: u64,
    r: Result<Receipt, NodeError>,
    after: NodeView,
)
    requires
        n.transfers(from, to, amount, timestamp_ms, r, after),
        !n.state.accounts.contains_key(label_address(from)),
    ensures
        r matches Err(NodeError::Usage(text)) && text@ == "account '"@ + from
            + "' does not exist yet — fund it first"@,
{
}

} // verus!
