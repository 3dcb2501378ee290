//! Accounts with native account abstraction.

use vstd::prelude::*;
use vstd::std_specs::cmp::PartialEqSpecImpl;

use crate::bytes;
use crate::hash;
use crate::text;

verus! {

/// Account identifier: hash of the account's initial auth policy and creation
/// nonce.
#[derive(Clone, Copy, Eq, Hash, PartialOrd, Ord, Debug)]
pub struct AccountId(pub hash::Hash);

impl View for AccountId {
    type V = Seq<u8>;

    open spec fn view(&self) -> Seq<u8> {
        self.0@
    }
}

impl PartialEqSpecImpl for AccountId {
    open spec fn obeys_eq_spec() -> bool {
        true
    }

    open spec fn eq_spec(&self, other: &AccountId) -> bool {
        *self == *other
    }
}

impl PartialEq for AccountId {
    fn eq(&self, other: &AccountId) -> (same: bool) {
        self.0 == other.0
    }
}

/// An account id is its bytes.
pub proof fn lemma_id_ext(a: AccountId, b: AccountId)
    ensures
        (a@ == b@) == (a == b),
{
    hash::lemma_hash_ext(a.0, b.0);
}

/// The id derived from a label.
pub open spec fn label_id(label: Seq<char>) -> AccountId {
    AccountId(hash::tagged(text::utf8("nex:account"@), seq![text::utf8(label)]))
}

impl AccountId {
    /// Derive a deterministic account id from a human label (test/simulation
    /// helper; real accounts derive from auth policy and nonce).
    pub fn from_label(label: &str) -> (id: AccountId)
        ensures
            id == label_id(label@),
    {
        let parts: [&[u8]; 1] = [label.as_bytes()];
        assert(hash::part_views(parts@) =~= seq![text::utf8(label@)]);
        AccountId(hash::Hash::of_tagged("nex:account".as_bytes(), &parts))
    }
}

/// How a transaction from this account is authorized.
///
/// In the full protocol every account is a contract; these variants are the
/// built-in policies of the default account module. The simulation uses `Open`
/// (no signature verification).
#[derive(Debug, PartialEq, Eq)]
pub enum AuthPolicy {
    /// No verification (simulation only).
    Open,
    /// Single public key (placeholder bytes).
    SingleKey(Vec<u8>),
    /// M-of-N threshold of keys, enabling social recovery.
    Threshold { m: u8, keys: Vec<Vec<u8>> },
}

/// The contents of an [`AuthPolicy`].
#[verifier::ext_equal]
pub enum PolicyView {
    Open,
    SingleKey(Seq<u8>),
    Threshold { m: u8, keys: Seq<Seq<u8>> },
}

/// The contents of a list of keys.
pub open spec fn key_views(keys: Seq<Vec<u8>>) -> Seq<Seq<u8>> {
    Seq::new(keys.len(), |i: int| keys[i]@)
}

impl View for AuthPolicy {
    type V = PolicyView;

    open spec fn view(&self) -> PolicyView {
        match self {
            AuthPolicy::Open => PolicyView::Open,
            AuthPolicy::SingleKey(key) => PolicyView::SingleKey(key@),
            AuthPolicy::Threshold { m, keys } => PolicyView::Threshold {
                m: *m,
                keys: key_views(keys@),
            },
        }
    }
}

fn clone_bytes(data: &Vec<u8>) -> (copy: Vec<u8>)
    ensures
        copy@ == data@,
{
    let copy = data.clone();
    assert(copy@ =~= data@);
    copy
}

impl Clone for AuthPolicy {
    fn clone(&self) -> (p: AuthPolicy)
        ensures
            p@ == self@,
    {
        match self {
            AuthPolicy::Open => AuthPolicy::Open,
            AuthPolicy::SingleKey(key) => AuthPolicy::SingleKey(clone_bytes(key)),
            AuthPolicy::Threshold { m, keys } => {
                let mut copy: Vec<Vec<u8>> = Vec::new();
                let mut i: usize = 0;
                while i < keys.len()
                    invariant
                        i <= keys@.len(),
                        copy@.len() == i,
                        forall|j: int| 0 <= j < i ==> (#[trigger] copy@[j])@ == keys@[j]@,
                    decreases keys@.len() - i,
                {
                    copy.push(clone_bytes(&keys[i]));
                    i += 1;
                }
                assert(key_views(copy@) =~= key_views(keys@));
                AuthPolicy::Threshold { m: *m, keys: copy }
            },
        }
    }
}

/// Protocol-level account state.
#[derive(Debug, PartialEq, Eq)]
pub struct Account {
    pub id: AccountId,
    pub balance: u64,
    /// Strictly increasing per-account sequence number (replay protection).
    pub nonce: u64,
    pub auth: AuthPolicy,
}

/// The contents of an [`Account`].
#[verifier::ext_equal]
pub struct AccountView {
    pub id: AccountId,
    pub balance: u64,
    pub nonce: u64,
    pub auth: PolicyView,
}

impl View for Account {
    type V = AccountView;

    open spec fn view(&self) -> AccountView {
        AccountView { id: self.id, balance: self.balance, nonce: self.nonce, auth: self.auth@ }
    }
}

impl Clone for Account {
    fn clone(&self) -> (a: Account)
        ensures
            a@ == self@,
    {
        Account {
            id: self.id,
            balance: self.balance,
            nonce: self.nonce,
            auth: self.auth.clone(),
        }
    }
}

impl AccountView {
    /// A fresh account without access control.
    pub open spec fn fresh(id: AccountId, balance: u64) -> AccountView {
        AccountView { id, balance, nonce: 0, auth: PolicyView::Open }
    }

    /// The canonical encoding: id, balance and nonce.
    pub open spec fn encoded(self) -> Seq<u8> {
        self.id@ + bytes::le64(self.balance) + bytes::le64(self.nonce)
    }
}

impl Account {
    pub fn new(id: AccountId, balance: u64) -> (a: Account)
        ensures
            a@ == AccountView::fresh(id, balance),
    {
        Account { id, balance, nonce: 0, auth: AuthPolicy::Open }
    }

    /// Canonical byte encoding committed to by the state root.
    pub fn encode(&self) -> (out: Vec<u8>)
        ensures
            out@ == self@.encoded(),
    {
        let mut out: Vec<u8> = Vec::new();
        bytes::push_bytes(&mut out, self.id.0.0.as_slice());
        bytes::push_u64(&mut out, self.balance);
        bytes::push_u64(&mut out, self.nonce);
        assert(out@ =~= self@.encoded());
        out
    }
}

/// The encoding takes 48 bytes and stands for one id, balance and nonce.
pub proof fn law_account_encoding_injective(a: AccountView, b: AccountView)
    ensures
        a.encoded().len() == 48,
        a.encoded() == b.encoded() ==> a.id == b.id && a.balance == b.balance && a.nonce == b.nonce,
{
    broadcast use bytes::lemma_le_bytes_len;

    assert(a.id@.len() == 32);
    assert(b.id@.len() == 32);
    if a.encoded() == b.encoded() {
        let (x, y) = (a.id@ + bytes::le64(a.balance), b.id@ + bytes::le64(b.balance));
        bytes::lemma_concat_cancel(x, bytes::le64(a.nonce), y, bytes::le64(b.nonce));
        bytes::lemma_concat_cancel(a.id@, bytes::le64(a.balance), b.id@, bytes::le64(b.balance));
        lemma_id_ext(a.id, b.id);
        bytes::lemma_le64_injective(a.balance, b.balance);
        bytes::lemma_le64_injective(a.nonce, b.nonce);
    }
}

/// A fresh account holds its balance, has made no transaction, and is open to
/// all.
pub proof fn law_fresh_accounts(id: AccountId, balance: u64)
    ensures
        AccountView::fresh(id, balance).id == id,
        AccountView::fresh(id, balance).balance == balance,
        AccountView::fresh(id, balance).nonce == 0,
        AccountView::fresh(id, balance).auth is Open,
{
}

/// Different labels have different ids, unless the hash inputs collide.
pub proof fn law_labels_have_their_own_ids(a: Seq<char>, b: Seq<char>)
    requires
        label_id(a) == label_id(b),
    ensures
        a == b || hash::collide(
            hash::tagged_preimage(text::utf8("nex:account"@), seq![text::utf8(a)]),
            hash::tagged_preimage(text::utf8("nex:account"@), seq![text::utf8(b)]),
        ),
{
    hash::law_lone_part_binds(text::utf8("nex:account"@), text::utf8(a), text::utf8(b));
    if text::utf8(a) == text::utf8(b) {
        text::lemma_utf8_injective(a, b);
    }
}

} // verus!
