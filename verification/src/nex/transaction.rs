//! Transaction format with declared access sets.

use vstd::prelude::*;

use crate::bytes;
use crate::hash;
use crate::nex::account;
use crate::nex::account::AccountId;
use crate::text;

verus! {

/// The state a transaction declares it will touch. The scheduler uses this to
/// run non-conflicting transactions in parallel.
#[derive(Debug, PartialEq, Eq)]
pub struct AccessSet {
    pub reads: Vec<AccountId>,
    pub writes: Vec<AccountId>,
}

/// The contents of an [`AccessSet`].
#[verifier::ext_equal]
pub struct AccessView {
    pub reads: Seq<AccountId>,
    pub writes: Seq<AccountId>,
}

impl View for AccessSet {
    type V = AccessView;

    open spec fn view(&self) -> AccessView {
        AccessView { reads: self.reads@, writes: self.writes@ }
    }
}

impl Clone for AccessSet {
    fn clone(&self) -> (a: AccessSet)
        ensures
            a@ == self@,
    {
        let reads = self.reads.clone();
        let writes = self.writes.clone();
        assert(reads@ =~= self.reads@);
        assert(writes@ =~= self.writes@);
        AccessSet { reads, writes }
    }
}

impl Default for AccessSet {
    fn default() -> (a: AccessSet)
        ensures
            a@ == (AccessView { reads: Seq::empty(), writes: Seq::empty() }),
    {
        AccessSet { reads: Vec::new(), writes: Vec::new() }
    }
}

/// Whether two id lists share an account.
pub open spec fn overlap(a: Seq<AccountId>, b: Seq<AccountId>) -> bool {
    exists|id: AccountId| #[trigger] a.contains(id) && #[trigger] b.contains(id)
}

impl AccessView {
    /// Whether neither set writes what the other one touches.
    pub open spec fn disjoint(self, other: AccessView) -> bool {
        &&& !overlap(self.writes, other.writes)
        &&& !overlap(self.writes, other.reads)
        &&& !overlap(self.reads, other.writes)
    }
}

fn lists_overlap(a: &Vec<AccountId>, b: &Vec<AccountId>) -> (found: bool)
    ensures
        found == overlap(a@, b@),
{
    let mut i: usize = 0;
    while i < a.len()
        invariant
            i <= a@.len(),
            forall|j: int| 0 <= j < i ==> !b@.contains(#[trigger] a@[j]),
        decreases a@.len() - i,
    {
        let mut j: usize = 0;
        while j < b.len()
            invariant
                i < a@.len(),
                j <= b@.len(),
                forall|k: int| 0 <= k < j ==> b@[k] != a@[i as int],
            decreases b@.len() - j,
        {
            if b[j] == a[i] {
                assert(a@.contains(a@[i as int]));
                assert(b@.contains(b@[j as int]));
                return true;
            }
            j += 1;
        }
        i += 1;
    }
    false
}

impl AccessSet {
    /// True if two access sets can safely execute in parallel (no write-write
    /// or read-write overlap).
    pub fn disjoint_from(&self, other: &AccessSet) -> (ok: bool)
        ensures
            ok == self@.disjoint(other@),
    {
        !lists_overlap(&self.writes, &other.writes) && !lists_overlap(&self.writes, &other.reads)
            && !lists_overlap(&self.reads, &other.writes)
    }
}

/// Disjointness of access sets is symmetric.
pub proof fn law_disjoint_is_symmetric(a: AccessView, b: AccessView)
    ensures
        a.disjoint(b) == b.disjoint(a),
{
}

#[derive(Clone, Copy, Debug, PartialEq, Eq)]
pub enum TransactionKind {
    /// Move `amount` from `sender` to `to`.
    Transfer { to: AccountId, amount: u64 },
    /// Create `to` with `amount` minted (genesis/faucet; simulation only).
    Mint { to: AccountId, amount: u64 },
}

impl TransactionKind {
    /// The credited account.
    pub open spec fn target(self) -> AccountId {
        match self {
            TransactionKind::Transfer { to, .. } => to,
            TransactionKind::Mint { to, .. } => to,
        }
    }

    pub open spec fn amount(self) -> u64 {
        match self {
            TransactionKind::Transfer { amount, .. } => amount,
            TransactionKind::Mint { amount, .. } => amount,
        }
    }

    /// The word that names the kind in a transaction id.
    pub open spec fn word(self) -> Seq<char> {
        match self {
            TransactionKind::Transfer { .. } => "transfer"@,
            TransactionKind::Mint { .. } => "mint"@,
        }
    }
}

/// A NexChain transaction.
///
/// Fees: only the free lane is modelled (fee = 0). `max_fee` is carried so the
/// standard-lane fee market can be added without changing the format.
#[derive(Debug, PartialEq, Eq)]
pub struct Transaction {
    pub sender: AccountId,
    pub nonce: u64,
    pub kind: TransactionKind,
    pub access: AccessSet,
    pub max_fee: u64,
    /// Optional sponsor paying fees on the sender's behalf (native fee
    /// sponsorship; unused while fees are zero).
    pub sponsor: Option<AccountId>,
}

/// The contents of a [`Transaction`].
#[verifier::ext_equal]
pub struct TxView {
    pub sender: AccountId,
    pub nonce: u64,
    pub kind: TransactionKind,
    pub access: AccessView,
    pub max_fee: u64,
    pub sponsor: Option<AccountId>,
}

impl View for Transaction {
    type V = TxView;

    open spec fn view(&self) -> TxView {
        TxView {
            sender: self.sender,
            nonce: self.nonce,
            kind: self.kind,
            access: self.access@,
            max_fee: self.max_fee,
            sponsor: self.sponsor,
        }
    }
}

/// The contents of a list of transactions.
pub open spec fn tx_views(txs: Seq<Transaction>) -> Seq<TxView> {
    Seq::new(txs.len(), |i: int| txs[i]@)
}

impl Clone for Transaction {
    fn clone(&self) -> (t: Transaction)
        ensures
            t@ == self@,
    {
        Transaction {
            sender: self.sender,
            nonce: self.nonce,
            kind: self.kind,
            access: self.access.clone(),
            max_fee: self.max_fee,
            sponsor: self.sponsor,
        }
    }
}

impl TxView {
    /// A plain transaction: the writes are the sender and the target.
    pub open spec fn plain(sender: AccountId, nonce: u64, kind: TransactionKind) -> TxView {
        TxView {
            sender,
            nonce,
            kind,
            access: AccessView { reads: Seq::empty(), writes: seq![sender, kind.target()] },
            max_fee: 0,
            sponsor: None,
        }
    }

    /// The hashed fields, in order.
    pub open spec fn id_parts(self) -> Seq<Seq<u8>> {
        seq![
            self.sender@,
            bytes::le64(self.nonce),
            text::utf8(self.kind.word()),
            self.kind.target()@,
            bytes::le64(self.kind.amount()),
        ]
    }

    /// What is hashed for the canonical transaction id.
    pub open spec fn id_input(self) -> Seq<u8> {
        hash::tagged_preimage(text::utf8("nex:tx"@), self.id_parts())
    }

    /// The canonical transaction id.
    pub open spec fn id(self) -> hash::Hash {
        hash::tagged(text::utf8("nex:tx"@), self.id_parts())
    }
}

impl Transaction {
    pub fn transfer(sender: AccountId, nonce: u64, to: AccountId, amount: u64) -> (t: Transaction)
        ensures
            t@ == TxView::plain(sender, nonce, TransactionKind::Transfer { to, amount }),
    {
        let writes = vec![sender, to];
        assert(writes@ =~= seq![sender, to]);
        Transaction {
            sender,
            nonce,
            kind: TransactionKind::Transfer { to, amount },
            access: AccessSet { reads: Vec::new(), writes },
            max_fee: 0,
            sponsor: None,
        }
    }

    pub fn mint(sender: AccountId, nonce: u64, to: AccountId, amount: u64) -> (t: Transaction)
        ensures
            t@ == TxView::plain(sender, nonce, TransactionKind::Mint { to, amount }),
    {
        let writes = vec![sender, to];
        assert(writes@ =~= seq![sender, to]);
        Transaction {
            sender,
            nonce,
            kind: TransactionKind::Mint { to, amount },
            access: AccessSet { reads: Vec::new(), writes },
            max_fee: 0,
            sponsor: None,
        }
    }

    /// Canonical transaction id.
    pub fn id(&self) -> (h: hash::Hash)
        ensures
            h == self@.id(),
    {
        let (word, to, amount): (&str, AccountId, u64) = match &self.kind {
            TransactionKind::Transfer { to, amount } => ("transfer", *to, *amount),
            TransactionKind::Mint { to, amount } => ("mint", *to, *amount),
        };
        let nonce = bytes::u64_bytes(self.nonce);
        let amount_bytes = bytes::u64_bytes(amount);
        let parts: [&[u8]; 5] = [
            self.sender.0.0.as_slice(),
            nonce.as_slice(),
            word.as_bytes(),
            to.0.0.as_slice(),
            amount_bytes.as_slice(),
        ];
        assert(hash::part_views(parts@) =~= self@.id_parts());
        hash::Hash::of_tagged("nex:tx".as_bytes(), &parts)
    }
}

/// A transaction id commits to the sender, the nonce, the kind, the target and
/// the amount, unless the hash inputs collide.
pub proof fn law_id_binds_payload(a: TxView, b: TxView)
    requires
        a.id() == b.id(),
    ensures
        hash::collide(a.id_input(), b.id_input()) || (a.sender == b.sender && a.nonce == b.nonce
            && a.kind == b.kind),
{
    broadcast use bytes::lemma_le_bytes_len;

    let tag = text::utf8("nex:tx"@);
    reveal_strlit("nex:tx");
    reveal_strlit("transfer");
    reveal_strlit("mint");
    text::lemma_utf8_len("nex:tx"@);
    text::lemma_utf8_len("transfer"@);
    text::lemma_utf8_len("mint"@);
    let (p, q) = (a.id_parts(), b.id_parts());
    hash::law_tagged_binds(tag, p, tag, q);
    if !hash::collide(a.id_input(), b.id_input()) {
        assert(p[0] == q[0] && p[1] == q[1] && p[2] == q[2] && p[3] == q[3] && p[4] == q[4]);
        account::lemma_id_ext(a.sender, b.sender);
        bytes::lemma_le64_injective(a.nonce, b.nonce);
        text::lemma_utf8_injective(a.kind.word(), b.kind.word());
        assert("transfer"@.len() != "mint"@.len());
        account::lemma_id_ext(a.kind.target(), b.kind.target());
        bytes::lemma_le64_injective(a.kind.amount(), b.kind.amount());
    }
}

/// Two access sets are disjoint exactly if nobody writes what the other one
/// reads or writes.
pub proof fn law_disjoint_sets_share_no_write(a: AccessView, b: AccessView)
    ensures
        a.disjoint(b) <==> {
            &&& forall|id: AccountId| #[trigger]
                a.writes.contains(id) ==> !b.reads.contains(id) && !b.writes.contains(id)
            &&& forall|id: AccountId| #[trigger] b.writes.contains(id) ==> !a.reads.contains(id)
        },
{
}

/// A plain transaction is its sender's, at its nonce, of its kind; it writes the
/// sender and the target, and offers no fee.
pub proof fn law_plain_transactions(sender: AccountId, nonce: u64, kind: TransactionKind)
    ensures
        ({
            let tx = TxView::plain(sender, nonce, kind);
            &&& tx.sender == sender && tx.nonce == nonce && tx.kind == kind
            &&& tx.access.reads.len() == 0
            &&& tx.access.writes.contains(sender)
            &&& kind matches TransactionKind::Transfer { to, .. } ==> tx.access.writes.contains(to)
            &&& kind matches TransactionKind::Mint { to, .. } ==> tx.access.writes.contains(to)
            &&& forall|i: int|
                0 <= i < tx.access.writes.len() ==> #[trigger] tx.access.writes[i] == sender || (
                match kind {
                    TransactionKind::Transfer { to, .. } => tx.access.writes[i] == to,
                    TransactionKind::Mint { to, .. } => tx.access.writes[i] == to,
                })
            &&& tx.max_fee == 0 && tx.sponsor is None
        }),
{
    let tx = TxView::plain(sender, nonce, kind);
    assert(tx.access.writes[0] == sender);
    assert(tx.access.writes[1] == kind.target());
}

} // verus!
