//! Transaction format with declared access sets, signatures, and first-spend
//! account claiming.

use vstd::prelude::*;

use crate::account;
use crate::account::{AccountId, AuthPolicy, PolicyView};
use crate::bytes;
use crate::crypto;
use crate::crypto::{Keypair, Signature};
use crate::hash;
use crate::text;

verus! {

/// The state a transaction declares it will touch. The scheduler uses this to
/// run non-conflicting transactions in parallel. Execution rejects any
/// transaction that would touch state outside its declaration, which is what
/// makes parallel scheduling by declared sets sound.
#[derive(Debug, PartialEq, Eq)]
pub struct AccessSet {
    pub reads: Vec<AccountId>,
    pub writes: Vec<AccountId>,
}

/// The contents of an [`AccessSet`].
#[verifier::ext_equal]
pub struct AccessView {
    pub reads: Seq<AccountId>,
    pub writes: Seq<AccountId>,
}

impl View for AccessSet {
    type V = AccessView;

    open spec fn view(&self) -> AccessView {
        AccessView { reads: self.reads@, writes: self.writes@ }
    }
}

impl Clone for AccessSet {
    fn clone(&self) -> (a: AccessSet)
        ensures
            a@ == self@,
    {
        let reads = self.reads.clone();
        let writes = self.writes.clone();
        assert(reads@ =~= self.reads@);
        assert(writes@ =~= self.writes@);
        AccessSet { reads, writes }
    }
}

impl Default for AccessSet {
    fn default() -> (a: AccessSet)
        ensures
            a@ == (AccessView { reads: Seq::empty(), writes: Seq::empty() }),
    {
        AccessSet { reads: Vec::new(), writes: Vec::new() }
    }
}

/// Whether two id lists share an account.
pub open spec fn overlap(a: Seq<AccountId>, b: Seq<AccountId>) -> bool {
    exists|id: AccountId| #[trigger] a.contains(id) && #[trigger] b.contains(id)
}

/// Ids, one after the other.
pub open spec fn id_bytes(ids: Seq<AccountId>) -> Seq<u8>
    decreases ids.len(),
{
    if ids.len() == 0 {
        Seq::empty()
    } else {
        ids[0]@ + id_bytes(ids.drop_first())
    }
}

impl AccessView {
    /// Whether the two sets can safely execute in parallel: neither writes
    /// what the other reads or writes.
    pub open spec fn disjoint(self, other: AccessView) -> bool {
        &&& !overlap(self.writes, other.writes)
        &&& !overlap(self.writes, other.reads)
        &&& !overlap(self.reads, other.writes)
    }

    /// The canonical encoding: counts, and the ids in the declared order.
    pub open spec fn encoded(self) -> Seq<u8> {
        account::count_bytes(self.reads.len()) + id_bytes(self.reads) + account::count_bytes(
            self.writes.len(),
        ) + id_bytes(self.writes)
    }

    /// Whether the set declares `id` in either list.
    pub open spec fn declares(self, id: AccountId) -> bool {
        self.reads.contains(id) || self.writes.contains(id)
    }
}

fn lists_overlap(a: &Vec<AccountId>, b: &Vec<AccountId>) -> (found: bool)
    ensures
        found == overlap(a@, b@),
{
    let mut i: usize = 0;
    while i < a.len()
        invariant
            i <= a@.len(),
            forall|j: int| 0 <= j < i ==> !b@.contains(#[trigger] a@[j]),
        decreases a@.len() - i,
    {
        if account::contains(b, &a[i]) {
            assert(a@.contains(a@[i as int]));
            return true;
        }
        i += 1;
    }
    false
}

fn push_ids(out: &mut Vec<u8>, ids: &Vec<AccountId>)
    ensures
        final(out)@ == old(out)@ + id_bytes(ids@),
{
    let ghost start = out@;
    let mut i: usize = 0;
    assert(ids@.skip(0) =~= ids@);
    while i < ids.len()
        invariant
            i <= ids@.len(),
            out@ + id_bytes(ids@.skip(i as int)) == start + id_bytes(ids@),
        decreases ids@.len() - i,
    {
        let ghost before = out@;
        bytes::push_bytes(out, ids[i].0.0.as_slice());
        proof {
            let rest = ids@.skip(i as int);
            assert(rest.drop_first() =~= ids@.skip(i + 1));
            assert(out@ + id_bytes(ids@.skip(i + 1)) =~= before + id_bytes(rest));
        }
        i += 1;
    }
    assert(out@ + id_bytes(ids@.skip(i as int)) =~= out@);
}

impl AccessSet {
    /// True if two access sets can safely execute in parallel (no write-write
    /// or read-write overlap).
    pub fn disjoint_from(&self, other: &AccessSet) -> (ok: bool)
        ensures
            ok == self@.disjoint(other@),
    {
        !lists_overlap(&self.writes, &other.writes) && !lists_overlap(&self.writes, &other.reads)
            && !lists_overlap(&self.reads, &other.writes)
    }

    /// Canonical encoding for hashing.
    fn encode(&self) -> (out: Vec<u8>)
        ensures
            out@ == self@.encoded(),
    {
        let mut out: Vec<u8> = Vec::new();
        account::push_count(&mut out, self.reads.len());
        push_ids(&mut out, &self.reads);
        account::push_count(&mut out, self.writes.len());
        push_ids(&mut out, &self.writes);
        assert(out@ =~= self@.encoded());
        out
    }
}

#[derive(Clone, Copy, Debug, PartialEq, Eq)]
pub enum TransactionKind {
    /// Move `amount` from `sender` to `to`.
    Transfer { to: AccountId, amount: u64 },
    /// Create `amount` and credit it to `to` (issuance).
    Mint { to: AccountId, amount: u64 },
}

impl TransactionKind {
    /// The credited account.
    pub open spec fn target(self) -> AccountId {
        match self {
            TransactionKind::Transfer { to, .. } => to,
            TransactionKind::Mint { to, .. } => to,
        }
    }

    pub open spec fn amount(self) -> u64 {
        match self {
            TransactionKind::Transfer { amount, .. } => amount,
            TransactionKind::Mint { amount, .. } => amount,
        }
    }

    pub open spec fn encoded(self) -> Seq<u8> {
        seq![
            match self {
                TransactionKind::Transfer { .. } => 0u8,
                TransactionKind::Mint { .. } => 1u8,
            },
        ] + self.target()@ + bytes::le64(self.amount())
    }

    fn encode(&self) -> (out: Vec<u8>)
        ensures
            out@ == self.encoded(),
    {
        let (tag, to, amount): (u8, AccountId, u64) = match self {
            TransactionKind::Transfer { to, amount } => (0, *to, *amount),
            TransactionKind::Mint { to, amount } => (1, *to, *amount),
        };
        let mut out: Vec<u8> = Vec::new();
        out.push(tag);
        bytes::push_bytes(&mut out, to.0.0.as_slice());
        bytes::push_u64(&mut out, amount);
        assert(out@ =~= self.encoded());
        out
    }
}

/// The auth policy revealed when spending from an `Unclaimed` account: the
/// state machine checks that `AccountId::from_auth(policy, salt)` equals the
/// sender id, then verifies signatures against the revealed policy and stores
/// it on the account.
#[derive(Debug, PartialEq, Eq)]
pub struct AuthReveal {
    pub policy: AuthPolicy,
    pub salt: u64,
}

/// The contents of an [`AuthReveal`].
#[verifier::ext_equal]
pub struct RevealView {
    pub policy: PolicyView,
    pub salt: u64,
}

impl View for AuthReveal {
    type V = RevealView;

    open spec fn view(&self) -> RevealView {
        RevealView { policy: self.policy@, salt: self.salt }
    }
}

impl Clone for AuthReveal {
    fn clone(&self) -> (r: AuthReveal)
        ensures
            r@ == self@,
    {
        AuthReveal { policy: self.policy.clone(), salt: self.salt }
    }
}

impl RevealView {
    /// The account id that the revealed policy controls.
    pub open spec fn id(self) -> AccountId {
        account::auth_id(self.policy, self.salt)
    }

    pub open spec fn encoded(self) -> Seq<u8> {
        self.policy.encoded() + bytes::le64(self.salt)
    }
}

impl AuthReveal {
    pub fn account_id(&self) -> (id: AccountId)
        ensures
            id == self@.id(),
    {
        AccountId::from_auth(&self.policy, self.salt)
    }

    fn encode(&self) -> (out: Vec<u8>)
        ensures
            out@ == self@.encoded(),
    {
        let mut out = self.policy.encode();
        bytes::push_u64(&mut out, self.salt);
        out
    }
}

/// A Phi transaction.
#[derive(Debug, PartialEq, Eq)]
pub struct Transaction {
    pub sender: AccountId,
    pub nonce: u64,
    /// Network this transaction is valid on. Bound into [`Transaction::id`]
    /// (and therefore into the signed message), so a transaction signed for
    /// one Phi instance cannot be replayed onto another. The state machine
    /// rejects transactions whose `chain_id` does not match its own.
    pub chain_id: u64,
    pub kind: TransactionKind,
    pub access: AccessSet,
    /// The most the sender lets the network burn as fee.
    pub max_fee: u64,
    /// Optional sponsor paying fees on the sender's behalf (native fee
    /// sponsorship).
    pub sponsor: Option<AccountId>,
    /// First-spend reveal of the sender's auth policy (see [`AuthReveal`]).
    pub auth_reveal: Option<AuthReveal>,
    /// Signatures over `id()` satisfying the sender's auth policy. Not part of
    /// the id itself: the id is the message being signed, and a different
    /// signature over the same payload must not change the transaction's
    /// identity.
    pub signatures: Vec<Signature>,
}

/// The contents of a [`Transaction`].
#[verifier::ext_equal]
pub struct TxView {
    pub sender: AccountId,
    pub nonce: u64,
    pub chain_id: u64,
    pub kind: TransactionKind,
    pub access: AccessView,
    pub max_fee: u64,
    pub sponsor: Option<AccountId>,
    pub auth_reveal: Option<RevealView>,
    pub signatures: Seq<Signature>,
}

/// What an optional reveal holds.
pub open spec fn reveal_view(r: Option<AuthReveal>) -> Option<RevealView> {
    match r {
        Some(r) => Some(r@),
        None => None,
    }
}

impl View for Transaction {
    type V = TxView;

    open spec fn view(&self) -> TxView {
        TxView {
            sender: self.sender,
            nonce: self.nonce,
            chain_id: self.chain_id,
            kind: self.kind,
            access: self.access@,
            max_fee: self.max_fee,
            sponsor: self.sponsor,
            auth_reveal: reveal_view(self.auth_reveal),
            signatures: self.signatures@,
        }
    }
}

/// The contents of a list of transactions.
pub open spec fn tx_views(txs: Seq<Transaction>) -> Seq<TxView> {
    Seq::new(txs.len(), |i: int| txs[i]@)
}

impl Clone for Transaction {
    fn clone(&self) -> (t: Transaction)
        ensures
            t@ == self@,
    {
        let auth_reveal = match &self.auth_reveal {
            Some(r) => Some(r.clone()),
            None => None,
        };
        let signatures = self.signatures.clone();
        assert(signatures@ =~= self.signatures@);
        Transaction {
            sender: self.sender,
            nonce: self.nonce,
            chain_id: self.chain_id,
            kind: self.kind,
            access: self.access.clone(),
            max_fee: self.max_fee,
            sponsor: self.sponsor,
            auth_reveal,
            signatures,
        }
    }
}

/// A marker byte, followed by the sponsor's id if there is one.
pub open spec fn sponsor_bytes(sponsor: Option<AccountId>) -> Seq<u8> {
    match sponsor {
        None => seq![0u8],
        Some(id) => seq![1u8] + id@,
    }
}

/// A marker byte, followed by the reveal if there is one.
pub open spec fn reveal_bytes(reveal: Option<RevealView>) -> Seq<u8> {
    match reveal {
        None => seq![0u8],
        Some(r) => seq![1u8] + r.encoded(),
    }
}

impl TxView {
    /// A plain transaction: the writes are the sender and the target, and
    /// nothing optional is set.
    pub open spec fn plain(sender: AccountId, nonce: u64, kind: TransactionKind) -> TxView {
        TxView {
            sender,
            nonce,
            chain_id: 0,
            kind,
            access: AccessView { reads: Seq::empty(), writes: seq![sender, kind.target()] },
            max_fee: 0,
            sponsor: None,
            auth_reveal: None,
            signatures: Seq::empty(),
        }
    }

    /// The hashed fields, in order: all but the signatures.
    pub open spec fn id_parts(self) -> Seq<Seq<u8>> {
        seq![
            bytes::le64(self.chain_id),
            self.sender@,
            bytes::le64(self.nonce),
            self.kind.encoded(),
            self.access.encoded(),
            bytes::le64(self.max_fee),
            sponsor_bytes(self.sponsor),
            reveal_bytes(self.auth_reveal),
        ]
    }

    /// What is hashed for the canonical transaction id.
    pub open spec fn id_input(self) -> Seq<u8> {
        hash::tagged_preimage(text::utf8("phi:tx"@), self.id_parts())
    }

    /// The canonical transaction id.
    pub open spec fn id(self) -> hash::Hash {
        hash::tagged(text::utf8("phi:tx"@), self.id_parts())
    }

    /// The transaction without its signatures.
    pub open spec fn payload(self) -> TxView {
        TxView { signatures: Seq::empty(), ..self }
    }

    /// Whether every variable-length field frames in 32 bits.
    pub open spec fn frames(self) -> bool {
        &&& self.access.encoded().len() < 0x1_0000_0000
        &&& reveal_bytes(self.auth_reveal).len() < 0x1_0000_0000
    }
}

impl Transaction {
    pub fn transfer(sender: AccountId, nonce: u64, to: AccountId, amount: u64) -> (t: Transaction)
        ensures
            t@ == TxView::plain(sender, nonce, TransactionKind::Transfer { to, amount }),
    {
        Self::build(sender, nonce, TransactionKind::Transfer { to, amount })
    }

    pub fn mint(sender: AccountId, nonce: u64, to: AccountId, amount: u64) -> (t: Transaction)
        ensures
            t@ == TxView::plain(sender, nonce, TransactionKind::Mint { to, amount }),
    {
        Self::build(sender, nonce, TransactionKind::Mint { to, amount })
    }

    fn build(sender: AccountId, nonce: u64, kind: TransactionKind) -> (t: Transaction)
        ensures
            t@ == TxView::plain(sender, nonce, kind),
    {
        let to: AccountId = match &kind {
            TransactionKind::Transfer { to, .. } | TransactionKind::Mint { to, .. } => *to,
        };
        let writes = vec![sender, to];
        assert(writes@ =~= seq![sender, kind.target()]);
        Transaction {
            sender,
            nonce,
            chain_id: 0,
            kind,
            access: AccessSet { reads: Vec::new(), writes },
            max_fee: 0,
            sponsor: None,
            auth_reveal: None,
            signatures: Vec::new(),
        }
    }

    /// Bind this transaction to a specific network (builder; call before
    /// signing: `chain_id` is covered by the id).
    pub fn with_chain_id(self, chain_id: u64) -> (t: Transaction)
        ensures
            t@ == (TxView { chain_id, ..self@ }),
    {
        let mut t = self;
        t.chain_id = chain_id;
        t
    }

    /// Offer to burn up to `max_fee` (builder; call before signing).
    pub fn with_max_fee(self, max_fee: u64) -> (t: Transaction)
        ensures
            t@ == (TxView { max_fee, ..self@ }),
    {
        let mut t = self;
        t.max_fee = max_fee;
        t
    }

    /// Let `sponsor` pay the fee (builder; call before signing). The sponsor
    /// is debited, so it joins the declared writes.
    pub fn with_sponsor(self, sponsor: AccountId) -> (t: Transaction)
        ensures
            t@ == (TxView {
                sponsor: Some(sponsor),
                access: AccessView {
                    reads: self@.access.reads,
                    writes: if self@.access.writes.contains(sponsor) {
                        self@.access.writes
                    } else {
                        self@.access.writes.push(sponsor)
                    },
                },
                ..self@
            }),
    {
        let mut t = self;
        t.sponsor = Some(sponsor);
        if !account::contains(&t.access.writes, &sponsor) {
            t.access.writes.push(sponsor);
        }
        t
    }

    /// Attach the first-spend auth reveal (builder; call before signing: the
    /// reveal is covered by the id).
    pub fn with_reveal(self, policy: AuthPolicy, salt: u64) -> (t: Transaction)
        ensures
            t@ == (TxView {
                auth_reveal: Some(RevealView { policy: policy@, salt }),
                ..self@
            }),
    {
        let mut t = self;
        t.auth_reveal = Some(AuthReveal { policy, salt });
        t
    }

    /// Append a signature over the transaction id (builder). Sign last:
    /// changing any other field changes the id and invalidates signatures. The
    /// signature verifies under the keypair's public key, unless its first
    /// half encodes the identity point.
    pub fn signed(self, keypair: &Keypair) -> (t: Transaction)
        ensures
            t@ == (TxView {
                signatures: self@.signatures.push(
                    crypto::signature_of(keypair@, self@.id()@),
                ),
                ..self@
            }),
            crypto::signature_of(keypair@, self@.id()@)@.take(32) != crypto::identity_point()
                ==> crypto::verifies(
                crypto::public_key_of(keypair@),
                self@.id()@,
                crypto::signature_of(keypair@, self@.id()@),
            ),
    {
        let mut t = self;
        let id = t.id();
        t.signatures.push(keypair.sign(id.0.as_slice()));
        t
    }

    /// Canonical transaction id: a domain-separated hash over every field
    /// except the signatures. This is both the dedup/Merkle identity and the
    /// message that auth-policy signatures cover.
    pub fn id(&self) -> (h: hash::Hash)
        ensures
            h == self@.id(),
    {
        let mut sponsor: Vec<u8> = Vec::new();
        match &self.sponsor {
            None => sponsor.push(0),
            Some(id) => {
                sponsor.push(1);
                bytes::push_bytes(&mut sponsor, id.0.0.as_slice());
            },
        }
        assert(sponsor@ =~= sponsor_bytes(self@.sponsor));
        let mut revealed: Vec<u8> = Vec::new();
        match &self.auth_reveal {
            None => revealed.push(0),
            Some(r) => {
                revealed.push(1);
                let encoded = r.encode();
                bytes::push_bytes(&mut revealed, encoded.as_slice());
            },
        }
        assert(revealed@ =~= reveal_bytes(self@.auth_reveal));
        let chain_id = bytes::u64_bytes(self.chain_id);
        let nonce = bytes::u64_bytes(self.nonce);
        let kind = self.kind.encode();
        let access = self.access.encode();
        let max_fee = bytes::u64_bytes(self.max_fee);
        let parts: [&[u8]; 8] = [
            chain_id.as_slice(),
            self.sender.0.0.as_slice(),
            nonce.as_slice(),
            kind.as_slice(),
            access.as_slice(),
            max_fee.as_slice(),
            sponsor.as_slice(),
            revealed.as_slice(),
        ];
        assert(hash::part_views(parts@) =~= self@.id_parts());
        hash::Hash::of_tagged("phi:tx".as_bytes(), &parts)
    }
}

pub proof fn lemma_id_bytes_len(ids: Seq<AccountId>)
    ensures
        id_bytes(ids).len() == 32 * ids.len(),
    decreases ids.len(),
{
    if ids.len() > 0 {
        lemma_id_bytes_len(ids.drop_first());
        assert(ids[0]@.len() == 32);
    }
}

proof fn lemma_id_bytes_injective(a: Seq<AccountId>, b: Seq<AccountId>)
    requires
        id_bytes(a) == id_bytes(b),
    ensures
        a == b,
    decreases a.len(),
{
    lemma_id_bytes_len(a);
    lemma_id_bytes_len(b);
    if a.len() == 0 {
        assert(a =~= b);
    } else {
        bytes::lemma_concat_cancel(a[0]@, id_bytes(a.drop_first()), b[0]@, id_bytes(b.drop_first()));
        account::lemma_id_ext(a[0], b[0]);
        lemma_id_bytes_injective(a.drop_first(), b.drop_first());
        assert(a =~= seq![a[0]] + a.drop_first());
        assert(b =~= seq![b[0]] + b.drop_first());
    }
}

proof fn lemma_access_injective(a: AccessView, b: AccessView)
    requires
        a.encoded() == b.encoded(),
        a.encoded().len() < 0x1_0000_0000,
    ensures
        a == b,
{
    broadcast use bytes::lemma_le_bytes_len;

    lemma_id_bytes_len(a.reads);
    lemma_id_bytes_len(b.reads);
    lemma_id_bytes_len(a.writes);
    lemma_id_bytes_len(b.writes);
    let ca = account::count_bytes(a.reads.len());
    let cb = account::count_bytes(b.reads.len());
    let ta = account::count_bytes(a.writes.len()) + id_bytes(a.writes);
    let tb = account::count_bytes(b.writes.len()) + id_bytes(b.writes);
    assert(a.encoded() =~= ca + (id_bytes(a.reads) + ta));
    assert(b.encoded() =~= cb + (id_bytes(b.reads) + tb));
    bytes::lemma_concat_cancel(ca, id_bytes(a.reads) + ta, cb, id_bytes(b.reads) + tb);
    bytes::lemma_le32_injective(a.reads.len() as u32, b.reads.len() as u32);
    bytes::lemma_concat_cancel(id_bytes(a.reads), ta, id_bytes(b.reads), tb);
    bytes::lemma_concat_cancel(
        account::count_bytes(a.writes.len()),
        id_bytes(a.writes),
        account::count_bytes(b.writes.len()),
        id_bytes(b.writes),
    );
    lemma_id_bytes_injective(a.reads, b.reads);
    lemma_id_bytes_injective(a.writes, b.writes);
}

proof fn lemma_kind_injective(a: TransactionKind, b: TransactionKind)
    requires
        a.encoded() == b.encoded(),
    ensures
        a == b,
{
    broadcast use bytes::lemma_le_bytes_len;

    let ta = seq![a.encoded()[0]];
    let tb = seq![b.encoded()[0]];
    assert(a.encoded() =~= ta + a.target()@ + bytes::le64(a.amount()));
    assert(b.encoded() =~= tb + b.target()@ + bytes::le64(b.amount()));
    bytes::lemma_concat_cancel(
        ta + a.target()@,
        bytes::le64(a.amount()),
        tb + b.target()@,
        bytes::le64(b.amount()),
    );
    bytes::lemma_concat_cancel(ta, a.target()@, tb, b.target()@);
    account::lemma_id_ext(a.target(), b.target());
    bytes::lemma_le64_injective(a.amount(), b.amount());
    assert(a is Mint == b is Mint);
}

pub proof fn lemma_sponsor_injective(a: Option<AccountId>, b: Option<AccountId>)
    requires
        sponsor_bytes(a) == sponsor_bytes(b),
    ensures
        a == b,
{
    assert(sponsor_bytes(a)[0] == if a is Some { 1u8 } else { 0u8 });
    assert(sponsor_bytes(b)[0] == if b is Some { 1u8 } else { 0u8 });
    if let (Some(x), Some(y)) = (a, b) {
        bytes::lemma_concat_cancel(seq![1u8], x@, seq![1u8], y@);
        account::lemma_id_ext(x, y);
    }
}

proof fn lemma_reveal_injective(a: Option<RevealView>, b: Option<RevealView>)
    requires
        reveal_bytes(a) == reveal_bytes(b),
    ensures
        a == b,
{
    broadcast use bytes::lemma_le_bytes_len;

    assert(reveal_bytes(a)[0] == if a is Some { 1u8 } else { 0u8 });
    assert(reveal_bytes(b)[0] == if b is Some { 1u8 } else { 0u8 });
    if let (Some(x), Some(y)) = (a, b) {
        bytes::lemma_concat_cancel(seq![1u8], x.encoded(), seq![1u8], y.encoded());
        bytes::lemma_concat_cancel(
            x.policy.encoded(),
            bytes::le64(x.salt),
            y.policy.encoded(),
            bytes::le64(y.salt),
        );
        bytes::lemma_le64_injective(x.salt, y.salt);
        account::law_policy_encoding_injective(x.policy, y.policy);
    }
}

/// A transaction id covers every field but the signatures: two transactions
/// share an id only if their payloads are the same, unless the hash inputs
/// collide.
pub proof fn law_id_binds_payload(a: TxView, b: TxView)
    requires
        a.frames(),
        b.frames(),
        a.id() == b.id(),
    ensures
        a.payload() == b.payload() || hash::collide(a.id_input(), b.id_input()),
{
    broadcast use bytes::lemma_le_bytes_len;

    let tag = text::utf8("phi:tx"@);
    reveal_strlit("phi:tx");
    text::lemma_utf8_len("phi:tx"@);
    let p = a.id_parts();
    let q = b.id_parts();
    assert(hash::frames_fit(tag, p));
    assert(hash::frames_fit(tag, q));
    hash::law_tagged_binds(tag, p, tag, q);
    if !hash::collide(a.id_input(), b.id_input()) {
        assert(p[0] == q[0] && p[1] == q[1] && p[2] == q[2] && p[3] == q[3]);
        assert(p[4] == q[4] && p[5] == q[5] && p[6] == q[6] && p[7] == q[7]);
        bytes::lemma_le64_injective(a.chain_id, b.chain_id);
        account::lemma_id_ext(a.sender, b.sender);
        bytes::lemma_le64_injective(a.nonce, b.nonce);
        lemma_kind_injective(a.kind, b.kind);
        lemma_access_injective(a.access, b.access);
        bytes::lemma_le64_injective(a.max_fee, b.max_fee);
        lemma_sponsor_injective(a.sponsor, b.sponsor);
        lemma_reveal_injective(a.auth_reveal, b.auth_reveal);
    }
}

/// Signatures are no part of a transaction's identity.
pub proof fn law_id_ignores_signatures(t: TxView, signatures: Seq<Signature>)
    ensures
        (TxView { signatures, ..t }).id() == t.id(),
{
}

/// Disjointness of access sets is symmetric.
pub proof fn law_disjoint_is_symmetric(a: AccessView, b: AccessView)
    ensures
        a.disjoint(b) == b.disjoint(a),
{
    assert(overlap(a.writes, b.writes) == overlap(b.writes, a.writes));
    assert(overlap(a.writes, b.reads) == overlap(b.reads, a.writes));
    assert(overlap(a.reads, b.writes) == overlap(b.writes, a.reads));
}

/// A plain transaction is its sender's, at its nonce, of its kind; it writes the
/// sender and the target and nothing else, offers no fee, has no sponsor and no
/// reveal, and is not signed yet.
pub proof fn law_plain_transactions(sender: AccountId, nonce: u64, kind: TransactionKind)
    ensures
        ({
            let tx = TxView::plain(sender, nonce, kind);
            &&& tx.sender == sender && tx.nonce == nonce && tx.kind == kind
            &&& tx.chain_id == 0 && tx.max_fee == 0
            &&& tx.sponsor is None && tx.auth_reveal is None && tx.signatures.len() == 0
            &&& tx.access.reads.len() == 0
            &&& tx.access.writes.contains(sender)
            &&& kind matches TransactionKind::Transfer { to, .. } ==> tx.access.writes.contains(to)
            &&& kind matches TransactionKind::Mint { to, .. } ==> tx.access.writes.contains(to)
            &&& forall|i: int|
                0 <= i < tx.access.writes.len() ==> #[trigger] tx.access.writes[i] == sender || (
                match kind {
                    TransactionKind::Transfer { to, .. } => tx.access.writes[i] == to,
                    TransactionKind::Mint { to, .. } => tx.access.writes[i] == to,
                })
        }),
{
    let tx = TxView::plain(sender, nonce, kind);
    assert(tx.access.writes[0] == sender);
    assert(tx.access.writes[1] == kind.target());
}

/// A reveal stands for the account that its policy and salt give.
pub proof fn law_reveals_name_their_account(r: RevealView)
    ensures
        r.id() == account::auth_id(r.policy, r.salt),
{
}

} // verus!
