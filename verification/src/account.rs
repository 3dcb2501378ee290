//! Accounts with native account abstraction.
//!
//! Every account is a smart account: its id commits to the controlling
//! [`AuthPolicy`]. An account created by receiving funds is `Unclaimed` until
//! the owner reveals the matching policy on first spend.

use vstd::prelude::*;
use vstd::std_specs::cmp::PartialEqSpecImpl;

use crate::bytes;
use crate::crypto;
use crate::crypto::PublicKey;
use crate::hash;
use crate::text;

verus! {

/// Account identifier: hash of the account's initial auth policy and a salt.
#[derive(Clone, Copy, Eq, Hash, PartialOrd, Ord, Debug)]
pub struct AccountId(pub hash::Hash);

impl View for AccountId {
    type V = Seq<u8>;

    open spec fn view(&self) -> Seq<u8> {
        self.0@
    }
}

impl PartialEqSpecImpl for AccountId {
    open spec fn obeys_eq_spec() -> bool {
        true
    }

    open spec fn eq_spec(&self, other: &AccountId) -> bool {
        *self == *other
    }
}

impl PartialEq for AccountId {
    fn eq(&self, other: &AccountId) -> (same: bool) {
        self.0 == other.0
    }
}

/// An account id is its bytes.
pub proof fn lemma_id_ext(a: AccountId, b: AccountId)
    ensures
        (a@ == b@) == (a == b),
{
    hash::lemma_hash_ext(a.0, b.0);
}

/// Whether `id` is among `ids`.
pub fn contains(ids: &Vec<AccountId>, id: &AccountId) -> (found: bool)
    ensures
        found == ids@.contains(*id),
{
    let mut i: usize = 0;
    while i < ids.len()
        invariant
            i <= ids@.len(),
            forall|j: int| 0 <= j < i ==> ids@[j] != *id,
        decreases ids@.len() - i,
    {
        if ids[i] == *id {
            assert(ids@[i as int] == *id);
            return true;
        }
        i += 1;
    }
    false
}

/// How a transaction from an account is authorized.
#[derive(Debug, PartialEq, Eq)]
pub enum AuthPolicy {
    /// No verification (simulation only).
    Open,
    /// A single public key.
    SingleKey(PublicKey),
    /// M-of-N threshold of keys, enabling social recovery.
    Threshold { m: u8, keys: Vec<PublicKey> },
    /// Created by receiving funds; the controlling policy is still to be
    /// revealed.
    Unclaimed,
}

/// The contents of an [`AuthPolicy`].
#[verifier::ext_equal]
pub enum PolicyView {
    Open,
    SingleKey(PublicKey),
    Threshold { m: u8, keys: Seq<PublicKey> },
    Unclaimed,
}

impl View for AuthPolicy {
    type V = PolicyView;

    open spec fn view(&self) -> PolicyView {
        match self {
            AuthPolicy::Open => PolicyView::Open,
            AuthPolicy::SingleKey(key) => PolicyView::SingleKey(*key),
            AuthPolicy::Threshold { m, keys } => PolicyView::Threshold { m: *m, keys: keys@ },
            AuthPolicy::Unclaimed => PolicyView::Unclaimed,
        }
    }
}

impl Clone for AuthPolicy {
    fn clone(&self) -> (p: AuthPolicy)
        ensures
            p@ == self@,
    {
        match self {
            AuthPolicy::Open => AuthPolicy::Open,
            AuthPolicy::SingleKey(key) => AuthPolicy::SingleKey(*key),
            AuthPolicy::Threshold { m, keys } => {
                let copy = keys.clone();
                assert(copy@ =~= keys@);
                AuthPolicy::Threshold { m: *m, keys: copy }
            },
            AuthPolicy::Unclaimed => AuthPolicy::Unclaimed,
        }
    }
}

/// Keys, one after the other.
pub open spec fn key_bytes(keys: Seq<PublicKey>) -> Seq<u8>
    decreases keys.len(),
{
    if keys.len() == 0 {
        Seq::empty()
    } else {
        keys[0]@ + key_bytes(keys.drop_first())
    }
}

/// The low 32 bits of a count, as they are encoded.
pub open spec fn count_bytes(n: nat) -> Seq<u8> {
    bytes::le_bytes(n % 0x1_0000_0000, 4)
}

impl PolicyView {
    /// The canonical encoding: a variant byte, then the fields.
    pub open spec fn encoded(self) -> Seq<u8> {
        match self {
            PolicyView::Open => seq![0u8],
            PolicyView::SingleKey(key) => seq![1u8] + key@,
            PolicyView::Threshold { m, keys } => seq![2u8, m] + count_bytes(keys.len())
                + key_bytes(keys),
            PolicyView::Unclaimed => seq![3u8],
        }
    }
}

/// Appends a count as its low 32 bits.
pub fn push_count(out: &mut Vec<u8>, n: usize)
    ensures
        final(out)@ == old(out)@ + count_bytes(n as nat),
{
    bytes::push_u32(out, (n as u64 % 0x1_0000_0000) as u32);
}

pub fn push_keys(out: &mut Vec<u8>, keys: &Vec<PublicKey>)
    ensures
        final(out)@ == old(out)@ + key_bytes(keys@),
{
    let ghost start = out@;
    let mut i: usize = 0;
    assert(keys@.skip(0) =~= keys@);
    while i < keys.len()
        invariant
            i <= keys@.len(),
            out@ + key_bytes(keys@.skip(i as int)) == start + key_bytes(keys@),
        decreases keys@.len() - i,
    {
        let ghost before = out@;
        bytes::push_bytes(out, keys[i].0.as_slice());
        proof {
            let rest = keys@.skip(i as int);
            assert(rest.drop_first() =~= keys@.skip(i + 1));
            assert(out@ + key_bytes(keys@.skip(i + 1)) =~= before + key_bytes(rest));
        }
        i += 1;
    }
    assert(out@ + key_bytes(keys@.skip(i as int)) =~= out@);
}

impl AuthPolicy {
    /// Canonical byte encoding, hashed into account ids and account states.
    pub fn encode(&self) -> (out: Vec<u8>)
        ensures
            out@ == self@.encoded(),
    {
        let mut out: Vec<u8> = Vec::new();
        match self {
            AuthPolicy::Open => out.push(0),
            AuthPolicy::SingleKey(key) => {
                out.push(1);
                bytes::push_bytes(&mut out, key.0.as_slice());
            },
            AuthPolicy::Threshold { m, keys } => {
                out.push(2);
                out.push(*m);
                push_count(&mut out, keys.len());
                push_keys(&mut out, keys);
            },
            AuthPolicy::Unclaimed => out.push(3),
        }
        assert(out@ =~= self@.encoded());
        out
    }
}

/// The id of the test account with this label.
pub open spec fn label_id(label: Seq<char>) -> AccountId {
    AccountId(hash::tagged(text::utf8("phi:account"@), seq![text::utf8(label)]))
}

/// What is hashed for the id of the account that `policy` controls.
pub open spec fn auth_input(policy: PolicyView, salt: u64) -> Seq<u8> {
    hash::tagged_preimage(
        text::utf8("phi:account:auth"@),
        seq![policy.encoded(), bytes::le64(salt)],
    )
}

/// The id of the account that `policy` controls.
pub open spec fn auth_id(policy: PolicyView, salt: u64) -> AccountId {
    AccountId(
        hash::tagged(text::utf8("phi:account:auth"@), seq![policy.encoded(), bytes::le64(salt)]),
    )
}

impl AccountId {
    /// Derive a deterministic account id from a human label (test/simulation
    /// helper; real accounts derive from auth policy and salt).
    pub fn from_label(label: &str) -> (id: AccountId)
        ensures
            id == label_id(label@),
    {
        let parts: [&[u8]; 1] = [label.as_bytes()];
        assert(hash::part_views(parts@) =~= seq![text::utf8(label@)]);
        AccountId(hash::Hash::of_tagged("phi:account".as_bytes(), &parts))
    }

    /// The id that commits to `policy`.
    pub fn from_auth(policy: &AuthPolicy, salt: u64) -> (id: AccountId)
        ensures
            id == auth_id(policy@, salt),
    {
        let encoded = policy.encode();
        let salt_bytes = bytes::u64_bytes(salt);
        let parts: [&[u8]; 2] = [encoded.as_slice(), salt_bytes.as_slice()];
        assert(hash::part_views(parts@) =~= seq![policy@.encoded(), bytes::le64(salt)]);
        AccountId(hash::Hash::of_tagged("phi:account:auth".as_bytes(), &parts))
    }
}

/// Protocol-level account state.
#[derive(Debug, PartialEq, Eq)]
pub struct Account {
    pub id: AccountId,
    pub balance: u64,
    /// Strictly increasing per-account sequence number (replay protection).
    pub nonce: u64,
    pub auth: AuthPolicy,
}

/// The contents of an [`Account`].
#[verifier::ext_equal]
pub struct AccountView {
    pub id: AccountId,
    pub balance: u64,
    pub nonce: u64,
    pub auth: PolicyView,
}

impl View for Account {
    type V = AccountView;

    open spec fn view(&self) -> AccountView {
        AccountView { id: self.id, balance: self.balance, nonce: self.nonce, auth: self.auth@ }
    }
}

impl Clone for Account {
    fn clone(&self) -> (a: Account)
        ensures
            a@ == self@,
    {
        Account {
            id: self.id,
            balance: self.balance,
            nonce: self.nonce,
            auth: self.auth.clone(),
        }
    }
}

impl AccountView {
    /// The canonical encoding: id, balance, nonce and auth policy.
    pub open spec fn encoded(self) -> Seq<u8> {
        self.id@ + bytes::le64(self.balance) + bytes::le64(self.nonce) + self.auth.encoded()
    }
}

impl Account {
    /// An account without access control.
    pub fn new(id: AccountId, balance: u64) -> (a: Account)
        ensures
            a@ == (AccountView { id, balance, nonce: 0, auth: PolicyView::Open }),
    {
        Account { id, balance, nonce: 0, auth: AuthPolicy::Open }
    }

    /// An account under an explicit policy.
    pub fn with_auth(id: AccountId, balance: u64, auth: AuthPolicy) -> (a: Account)
        ensures
            a@ == (AccountView { id, balance, nonce: 0, auth: auth@ }),
    {
        Account { id, balance, nonce: 0, auth }
    }

    /// Canonical byte encoding committed to by the state root.
    pub fn encode(&self) -> (out: Vec<u8>)
        ensures
            out@ == self@.encoded(),
    {
        let mut out: Vec<u8> = Vec::new();
        bytes::push_bytes(&mut out, self.id.0.0.as_slice());
        bytes::push_u64(&mut out, self.balance);
        bytes::push_u64(&mut out, self.nonce);
        let auth = self.auth.encode();
        bytes::push_bytes(&mut out, auth.as_slice());
        assert(out@ =~= self@.encoded());
        out
    }
}

pub proof fn lemma_key_bytes_injective(a: Seq<PublicKey>, b: Seq<PublicKey>)
    requires
        key_bytes(a) == key_bytes(b),
    ensures
        a == b,
    decreases a.len(),
{
    lemma_key_bytes_len(a);
    lemma_key_bytes_len(b);
    if a.len() == 0 {
        assert(a =~= b);
    } else {
        bytes::lemma_concat_cancel(
            a[0]@,
            key_bytes(a.drop_first()),
            b[0]@,
            key_bytes(b.drop_first()),
        );
        crypto::lemma_key_ext(a[0], b[0]);
        lemma_key_bytes_injective(a.drop_first(), b.drop_first());
        assert(a =~= seq![a[0]] + a.drop_first());
        assert(b =~= seq![b[0]] + b.drop_first());
    }
}

proof fn lemma_variant_byte(p: PolicyView)
    ensures
        p.encoded().len() >= 1,
        p.encoded()[0] == match p {
            PolicyView::Open => 0u8,
            PolicyView::SingleKey(_) => 1u8,
            PolicyView::Threshold { .. } => 2u8,
            PolicyView::Unclaimed => 3u8,
        },
{
    if let PolicyView::Threshold { m, keys } = p {
        assert(p.encoded()[0] == seq![2u8, m][0]);
    }
}

/// Different policies have different encodings.
pub proof fn law_policy_encoding_injective(a: PolicyView, b: PolicyView)
    requires
        a.encoded() == b.encoded(),
    ensures
        a == b,
{
    broadcast use bytes::lemma_le_bytes_len;

    lemma_variant_byte(a);
    lemma_variant_byte(b);
    match (a, b) {
        (PolicyView::SingleKey(j), PolicyView::SingleKey(k)) => {
            bytes::lemma_concat_cancel(seq![1u8], j@, seq![1u8], k@);
            crypto::lemma_key_ext(j, k);
        },
        (
            PolicyView::Threshold { m: m, keys: j },
            PolicyView::Threshold { m: n, keys: k },
        ) => {
            assert(a.encoded()[1] == m);
            assert(b.encoded()[1] == n);
            bytes::lemma_concat_cancel(
                seq![2u8, m] + count_bytes(j.len()),
                key_bytes(j),
                seq![2u8, n] + count_bytes(k.len()),
                key_bytes(k),
            );
            lemma_key_bytes_injective(j, k);
        },
        _ => {},
    }
}

pub proof fn lemma_key_bytes_len(keys: Seq<PublicKey>)
    ensures
        key_bytes(keys).len() == 32 * keys.len(),
    decreases keys.len(),
{
    if keys.len() > 0 {
        lemma_key_bytes_len(keys.drop_first());
        assert(keys[0]@.len() == 32);
    }
}

/// An account id stands for one policy and salt, unless their hash inputs
/// collide: nobody but the holder of the policy behind an id can reveal one
/// that matches it.
pub proof fn law_id_binds_policy(a: PolicyView, salt_a: u64, b: PolicyView, salt_b: u64)
    requires
        auth_id(a, salt_a) == auth_id(b, salt_b),
    ensures
        (a == b && salt_a == salt_b) || hash::collide(auth_input(a, salt_a), auth_input(b, salt_b)),
{
    broadcast use bytes::lemma_le_bytes_len;

    hash::law_headed_part_binds(
        text::utf8("phi:account:auth"@),
        a.encoded(),
        bytes::le64(salt_a),
        b.encoded(),
        bytes::le64(salt_b),
    );
    if !hash::collide(auth_input(a, salt_a), auth_input(b, salt_b)) {
        law_policy_encoding_injective(a, b);
        bytes::lemma_le64_injective(salt_a, salt_b);
    }
}

/// Different accounts have different encodings: the state commitment covers
/// id, balance, nonce and policy.
pub proof fn law_account_encoding_injective(a: AccountView, b: AccountView)
    requires
        a.encoded() == b.encoded(),
    ensures
        a == b,
{
    broadcast use bytes::lemma_le_bytes_len;

    let ha = a.id@ + bytes::le64(a.balance) + bytes::le64(a.nonce);
    let hb = b.id@ + bytes::le64(b.balance) + bytes::le64(b.nonce);
    bytes::lemma_concat_cancel(ha, a.auth.encoded(), hb, b.auth.encoded());
    bytes::lemma_concat_cancel(
        a.id@ + bytes::le64(a.balance),
        bytes::le64(a.nonce),
        b.id@ + bytes::le64(b.balance),
        bytes::le64(b.nonce),
    );
    bytes::lemma_concat_cancel(a.id@, bytes::le64(a.balance), b.id@, bytes::le64(b.balance));
    lemma_id_ext(a.id, b.id);
    bytes::lemma_le64_injective(a.balance, b.balance);
    bytes::lemma_le64_injective(a.nonce, b.nonce);
    law_policy_encoding_injective(a.auth, b.auth);
}

/// Different labels have different ids, unless the hash inputs collide.
pub proof fn law_labels_have_their_own_ids(a: Seq<char>, b: Seq<char>)
    requires
        label_id(a) == label_id(b),
    ensures
        a == b || hash::collide(
            hash::tagged_preimage(text::utf8("phi:account"@), seq![text::utf8(a)]),
            hash::tagged_preimage(text::utf8("phi:account"@), seq![text::utf8(b)]),
        ),
{
    hash::law_lone_part_binds(text::utf8("phi:account"@), text::utf8(a), text::utf8(b));
    if text::utf8(a) == text::utf8(b) {
        text::lemma_utf8_injective(a, b);
    }
}

} // verus!
