//! Canonical ledger snapshots.
//!
//! A snapshot lists the consensus parameters and then every account in
//! ascending order of its id. A state has one snapshot, and bytes that are not
//! the snapshot of a state are refused.

use vstd::prelude::*;

use crate::account::{Account, AccountId, AccountView, AuthPolicy, PolicyView};
use crate::account;
use crate::bytemap;
use crate::bytemap::Key;
use crate::bytes;
use crate::crypto;
use crate::crypto::PublicKey;
use crate::hash;
use crate::state;
use crate::state::{State, StateView};
use crate::transaction;

verus! {

/// The stored form of a policy: a variant byte, then the fields.
pub open spec fn policy_record(p: PolicyView) -> Seq<u8> {
    match p {
        PolicyView::Open => seq![0u8],
        PolicyView::SingleKey(key) => seq![1u8] + key@,
        PolicyView::Threshold { m, keys } => seq![2u8, m] + bytes::le64(keys.len() as u64)
            + account::key_bytes(keys),
        PolicyView::Unclaimed => seq![3u8],
    }
}

/// The stored form of an account.
pub open spec fn account_record(a: AccountView) -> Seq<u8> {
    a.id@ + bytes::le64(a.balance) + bytes::le64(a.nonce) + policy_record(a.auth)
}

/// Account records, one after the other.
pub open spec fn account_records(list: Seq<AccountView>) -> Seq<u8>
    decreases list.len(),
{
    if list.len() == 0 {
        Seq::empty()
    } else {
        account_record(list[0]) + account_records(list.drop_first())
    }
}

/// Whether every count fits in 64 bits.
pub open spec fn countable(list: Seq<AccountView>) -> bool {
    &&& list.len() <= u64::MAX
    &&& forall|i: int| 0 <= i < list.len() ==> policy_countable((#[trigger] list[i]).auth)
}

pub open spec fn policy_countable(p: PolicyView) -> bool {
    match p {
        PolicyView::Threshold { keys, .. } => keys.len() <= u64::MAX,
        _ => true,
    }
}

/// The bytes of a snapshot with the accounts in this order.
pub open spec fn snapshot_bytes(s: StateView, list: Seq<AccountView>) -> Seq<u8> {
    bytes::le64(s.chain_id) + bytes::le64(s.base_fee) + transaction::sponsor_bytes(s.minter)
        + bytes::le64(list.len() as u64) + account_records(list)
}

/// Whether `data` is a snapshot of the state, listing the accounts as `list`.
pub open spec fn lists(s: StateView, list: Seq<AccountView>, data: Seq<u8>) -> bool {
    &&& countable(list)
    &&& state::is_listing(list, s.accounts)
    &&& data == snapshot_bytes(s, list)
}

/// Whether `data` is the snapshot of the state.
pub open spec fn is_snapshot(s: StateView, data: Seq<u8>) -> bool {
    exists|list: Seq<AccountView>| lists(s, list, data)
}

/// Encodings of equal length heads cancel; used with a shared remainder.
proof fn lemma_keys_cancel(j: Seq<PublicKey>, x: Seq<u8>, k: Seq<PublicKey>, y: Seq<u8>)
    requires
        account::key_bytes(j) + x == account::key_bytes(k) + y,
        j.len() == k.len(),
    ensures
        j == k,
        x == y,
{
    account::lemma_key_bytes_len(j);
    account::lemma_key_bytes_len(k);
    bytes::lemma_concat_cancel(account::key_bytes(j), x, account::key_bytes(k), y);
    account::lemma_key_bytes_injective(j, k);
}

/// A stored policy can be told from what follows it.
proof fn lemma_policy_cancel(p: PolicyView, x: Seq<u8>, q: PolicyView, y: Seq<u8>)
    requires
        policy_countable(p),
        policy_countable(q),
        policy_record(p) + x == policy_record(q) + y,
    ensures
        p == q,
        x == y,
{
    broadcast use bytes::lemma_le_bytes_len;

    let u = policy_record(p);
    let v = policy_record(q);
    lemma_policy_head(p);
    lemma_policy_head(q);
    assert((u + x)[0] == u[0]);
    assert((v + y)[0] == v[0]);
    match (p, q) {
        (PolicyView::SingleKey(j), PolicyView::SingleKey(k)) => {
            bytes::lemma_concat_cancel(u, x, v, y);
            bytes::lemma_concat_cancel(seq![1u8], j@, seq![1u8], k@);
            crypto::lemma_key_ext(j, k);
        },
        (PolicyView::Threshold { m: m, keys: j }, PolicyView::Threshold { m: n, keys: k }) => {
            let cj = bytes::le64(j.len() as u64);
            let ck = bytes::le64(k.len() as u64);
            let tj = account::key_bytes(j) + x;
            let tk = account::key_bytes(k) + y;
            assert(u + x =~= (seq![2u8, m] + cj) + tj);
            assert(v + y =~= (seq![2u8, n] + ck) + tk);
            bytes::lemma_concat_cancel(seq![2u8, m] + cj, tj, seq![2u8, n] + ck, tk);
            bytes::lemma_concat_cancel(seq![2u8, m], cj, seq![2u8, n], ck);
            assert(seq![2u8, m][1] == seq![2u8, n][1]);
            bytes::lemma_le64_injective(j.len() as u64, k.len() as u64);
            lemma_keys_cancel(j, x, k, y);
        },
        _ => {
            bytes::lemma_concat_cancel(u, x, v, y);
        },
    }
}

proof fn lemma_policy_head(p: PolicyView)
    ensures
        policy_record(p).len() >= 1,
        policy_record(p)[0] == match p {
            PolicyView::Open => 0u8,
            PolicyView::SingleKey(_) => 1u8,
            PolicyView::Threshold { .. } => 2u8,
            PolicyView::Unclaimed => 3u8,
        },
{
    if let PolicyView::Threshold { m, keys } = p {
        assert(policy_record(p)[0] == seq![2u8, m][0]);
    }
}

/// A stored account can be told from what follows it.
proof fn lemma_account_cancel(a: AccountView, x: Seq<u8>, b: AccountView, y: Seq<u8>)
    requires
        policy_countable(a.auth),
        policy_countable(b.auth),
        account_record(a) + x == account_record(b) + y,
    ensures
        a == b,
        x == y,
{
    broadcast use bytes::lemma_le_bytes_len;

    let ha = a.id@ + bytes::le64(a.balance) + bytes::le64(a.nonce);
    let hb = b.id@ + bytes::le64(b.balance) + bytes::le64(b.nonce);
    assert(account_record(a) + x =~= ha + (policy_record(a.auth) + x));
    assert(account_record(b) + y =~= hb + (policy_record(b.auth) + y));
    bytes::lemma_concat_cancel(ha, policy_record(a.auth) + x, hb, policy_record(b.auth) + y);
    bytes::lemma_concat_cancel(
        a.id@ + bytes::le64(a.balance),
        bytes::le64(a.nonce),
        b.id@ + bytes::le64(b.balance),
        bytes::le64(b.nonce),
    );
    bytes::lemma_concat_cancel(a.id@, bytes::le64(a.balance), b.id@, bytes::le64(b.balance));
    account::lemma_id_ext(a.id, b.id);
    bytes::lemma_le64_injective(a.balance, b.balance);
    bytes::lemma_le64_injective(a.nonce, b.nonce);
    lemma_policy_cancel(a.auth, x, b.auth, y);
}

/// As many stored accounts can be told from what follows them.
proof fn lemma_records_cancel(
    a: Seq<AccountView>,
    x: Seq<u8>,
    b: Seq<AccountView>,
    y: Seq<u8>,
)
    requires
        countable(a),
        countable(b),
        a.len() == b.len(),
        account_records(a) + x == account_records(b) + y,
    ensures
        a == b,
        x == y,
    decreases a.len(),
{
    if a.len() == 0 {
        assert(account_records(a) + x =~= x);
        assert(account_records(b) + y =~= y);
        assert(a =~= b);
    } else {
        let ra = account_records(a.drop_first()) + x;
        let rb = account_records(b.drop_first()) + y;
        assert(account_records(a) + x =~= account_record(a[0]) + ra);
        assert(account_records(b) + y =~= account_record(b[0]) + rb);
        lemma_account_cancel(a[0], ra, b[0], rb);
        assert forall|i: int| 0 <= i < a.drop_first().len() implies policy_countable(
            (#[trigger] a.drop_first()[i]).auth,
        ) by {
            assert(a.drop_first()[i] == a[i + 1]);
        }
        assert forall|i: int| 0 <= i < b.drop_first().len() implies policy_countable(
            (#[trigger] b.drop_first()[i]).auth,
        ) by {
            assert(b.drop_first()[i] == b[i + 1]);
        }
        lemma_records_cancel(a.drop_first(), x, b.drop_first(), y);
        assert(a =~= seq![a[0]] + a.drop_first());
        assert(b =~= seq![b[0]] + b.drop_first());
    }
}

proof fn lemma_records_push(list: Seq<AccountView>, a: AccountView)
    ensures
        account_records(list.push(a)) == account_records(list) + account_record(a),
    decreases list.len(),
{
    if list.len() == 0 {
        assert(list.push(a).drop_first() =~= Seq::<AccountView>::empty());
        assert(account_records(list.push(a).drop_first()) =~= Seq::<u8>::empty());
        assert(account_records(list.push(a)) =~= account_records(list) + account_record(a));
    } else {
        lemma_records_push(list.drop_first(), a);
        assert(list.push(a).drop_first() =~= list.drop_first().push(a));
        assert(account_records(list.push(a)) =~= account_records(list) + account_record(a));
    }
}

/// The fixed part of a snapshot can be told from the records.
proof fn lemma_header_cancel(
    s: StateView,
    m: u64,
    x: Seq<u8>,
    t: StateView,
    n: u64,
    y: Seq<u8>,
)
    requires
        bytes::le64(s.chain_id) + bytes::le64(s.base_fee) + transaction::sponsor_bytes(s.minter)
            + bytes::le64(m) + x == bytes::le64(t.chain_id) + bytes::le64(t.base_fee)
            + transaction::sponsor_bytes(t.minter) + bytes::le64(n) + y,
    ensures
        s.chain_id == t.chain_id,
        s.base_fee == t.base_fee,
        s.minter == t.minter,
        m == n,
        x == y,
{
    broadcast use bytes::lemma_le_bytes_len;

    let hs = bytes::le64(s.chain_id) + bytes::le64(s.base_fee);
    let ht = bytes::le64(t.chain_id) + bytes::le64(t.base_fee);
    let ms = transaction::sponsor_bytes(s.minter);
    let mt = transaction::sponsor_bytes(t.minter);
    let rs = bytes::le64(m) + x;
    let rt = bytes::le64(n) + y;
    assert(hs + ms + bytes::le64(m) + x =~= hs + (ms + rs));
    assert(ht + mt + bytes::le64(n) + y =~= ht + (mt + rt));
    bytes::lemma_concat_cancel(hs, ms + rs, ht, mt + rt);
    bytes::lemma_concat_cancel(
        bytes::le64(s.chain_id),
        bytes::le64(s.base_fee),
        bytes::le64(t.chain_id),
        bytes::le64(t.base_fee),
    );
    bytes::lemma_le64_injective(s.chain_id, t.chain_id);
    bytes::lemma_le64_injective(s.base_fee, t.base_fee);
    assert((ms + rs)[0] == ms[0]);
    assert((mt + rt)[0] == mt[0]);
    bytes::lemma_concat_cancel(ms, rs, mt, rt);
    transaction::lemma_sponsor_injective(s.minter, t.minter);
    bytes::lemma_concat_cancel(bytes::le64(m), x, bytes::le64(n), y);
    bytes::lemma_le64_injective(m, n);
}

/// A snapshot determines the state and the order of its accounts.
proof fn lemma_lists_unique(
    s: StateView,
    a: Seq<AccountView>,
    t: StateView,
    b: Seq<AccountView>,
    data: Seq<u8>,
)
    requires
        lists(s, a, data),
        lists(t, b, data),
    ensures
        s == t,
        a == b,
{
    lemma_header_cancel(
        s,
        a.len() as u64,
        account_records(a),
        t,
        b.len() as u64,
        account_records(b),
    );
    let none = Seq::<u8>::empty();
    assert(account_records(a) + none =~= account_records(a));
    assert(account_records(b) + none =~= account_records(b));
    lemma_records_cancel(a, none, b, none);
    let m = bytemap::as_map(state::keyed_list(a));
    assert forall|id: AccountId| #[trigger] s.accounts.contains_key(id) == t.accounts.contains_key(
        id,
    ) by {
        assert(t.accounts.contains_key(id) == m.contains_key(id.0.0));
    }
    assert forall|id: AccountId| s.accounts.contains_key(id) implies #[trigger] s.accounts[id]
        == t.accounts[id] by {
        assert(t.accounts.contains_key(id));
        assert(t.accounts[id] == m[id.0.0]);
    }
    assert(s.accounts =~= t.accounts);
}

/// Bytes are the snapshot of at most one state: what is restored from a
/// snapshot is the state it was taken of.
pub proof fn law_snapshot_restores(s: StateView, t: StateView, data: Seq<u8>)
    requires
        is_snapshot(s, data),
        is_snapshot(t, data),
    ensures
        s == t,
{
    let a = choose|list: Seq<AccountView>| lists(s, list, data);
    let b = choose|list: Seq<AccountView>| lists(t, list, data);
    lemma_lists_unique(s, a, t, b, data);
}

/// A state has one snapshot.
pub proof fn law_snapshot_is_canonical(s: StateView, x: Seq<u8>, y: Seq<u8>)
    requires
        is_snapshot(s, x),
        is_snapshot(s, y),
    ensures
        x == y,
{
    let a = choose|list: Seq<AccountView>| lists(s, list, x);
    let b = choose|list: Seq<AccountView>| lists(s, list, y);
    let ka = state::keyed_list(a);
    let kb = state::keyed_list(b);
    let ma = bytemap::as_map(ka);
    let mb = bytemap::as_map(kb);
    assert forall|k: Key| #[trigger] ma.contains_key(k) == mb.contains_key(k) by {
        let id = AccountId(hash::Hash(k));
        assert(s.accounts.contains_key(id) == ma.contains_key(id.0.0));
        assert(s.accounts.contains_key(id) == mb.contains_key(id.0.0));
    }
    assert forall|k: Key| ma.contains_key(k) implies #[trigger] ma[k] == mb[k] by {
        let id = AccountId(hash::Hash(k));
        assert(s.accounts.contains_key(id) == ma.contains_key(id.0.0));
        assert(s.accounts[id] == ma[id.0.0]);
        assert(s.accounts[id] == mb[id.0.0]);
    }
    assert(ma =~= mb);
    bytemap::lemma_ascending_unique(ka, kb);
    assert(a =~= b) by {
        assert forall|i: int| 0 <= i < a.len() implies a[i] == b[i] by {
            assert(ka[i] == kb[i]);
        }
        assert(ka.len() == kb.len());
    }
}

fn push_policy(out: &mut Vec<u8>, p: &AuthPolicy)
    ensures
        final(out)@ == old(out)@ + policy_record(p@),
{
    match p {
        AuthPolicy::Open => out.push(0),
        AuthPolicy::SingleKey(key) => {
            out.push(1);
            bytes::push_bytes(out, key.0.as_slice());
        },
        AuthPolicy::Threshold { m, keys } => {
            out.push(2);
            out.push(*m);
            bytes::push_u64(out, keys.len() as u64);
            account::push_keys(out, keys);
        },
        AuthPolicy::Unclaimed => out.push(3),
    }
    assert(out@ =~= old(out)@ + policy_record(p@));
}

fn push_account(out: &mut Vec<u8>, a: &Account)
    ensures
        final(out)@ == old(out)@ + account_record(a@),
{
    bytes::push_bytes(out, a.id.0.0.as_slice());
    bytes::push_u64(out, a.balance);
    bytes::push_u64(out, a.nonce);
    push_policy(out, &a.auth);
    assert(out@ =~= old(out)@ + account_record(a@));
}

/// Reads a policy at `at`; gives it with the position after it.
fn read_policy(data: &[u8], at: usize) -> (r: Option<(AuthPolicy, usize)>)
    requires
        at <= data@.len(),
    ensures
        match r {
            Some((p, end)) => {
                &&& at <= end <= data@.len()
                &&& policy_countable(p@)
                &&& data@.skip(at as int) == policy_record(p@) + data@.skip(end as int)
            },
            None => forall|p: PolicyView, rest: Seq<u8>|
                policy_countable(p) ==> data@.skip(at as int) != #[trigger] (policy_record(p)
                    + rest),
        },
{
    broadcast use bytes::lemma_le_bytes_len;

    let ghost s = data@.skip(at as int);
    proof {
        assert forall|p: PolicyView, rest: Seq<u8>|
            policy_countable(p) && s == #[trigger] (policy_record(p) + rest) implies s.len() >= 1
            && s[0] == policy_record(p)[0] && s.len() == policy_record(p).len() + rest.len() by {
            lemma_policy_head(p);
        }
        assert forall|p: PolicyView| policy_countable(p) implies #[trigger] policy_record(p).len()
            >= 1 && policy_record(p)[0] == match p {
            PolicyView::Open => 0u8,
            PolicyView::SingleKey(_) => 1u8,
            PolicyView::Threshold { .. } => 2u8,
            PolicyView::Unclaimed => 3u8,
        } by {
            lemma_policy_head(p);
        }
    }
    if at >= data.len() {
        return None;
    }
    let tag: u8 = data[at];
    assert(tag == s[0]);
    if tag == 0 {
        assert(s =~= policy_record(PolicyView::Open) + data@.skip(at + 1));
        return Some((AuthPolicy::Open, at + 1));
    }
    if tag == 3 {
        assert(s =~= policy_record(PolicyView::Unclaimed) + data@.skip(at + 1));
        return Some((AuthPolicy::Unclaimed, at + 1));
    }
    if tag == 1 {
        if data.len() - at < 33 {
            return None;
        }
        let key = PublicKey(bytes::read_32(data, at + 1));
        assert(s =~= policy_record(PolicyView::SingleKey(key)) + data@.skip(at + 33));
        return Some((AuthPolicy::SingleKey(key), at + 33));
    }
    if tag == 2 {
        if data.len() - at < 10 {
            proof {
                assert forall|p: PolicyView, rest: Seq<u8>|
                    policy_countable(p) implies s != #[trigger] (policy_record(p) + rest) by {
                    if s == policy_record(p) + rest {
                        assert(policy_record(p)[0] == 2u8);
                        assert(p is Threshold);
                    }
                }
            }
            return None;
        }
        let m: u8 = data[at + 1];
        let count: u64 = bytes::read_u64(data, at + 2);
        let ghost head = seq![2u8, m] + bytes::le64(count);
        assert(s =~= head + data@.skip(at + 10));
        let r = read_keys(data, at + 10, count);
        proof {
            assert forall|p: PolicyView, rest: Seq<u8>|
                policy_countable(p) && s == #[trigger] (policy_record(p) + rest) implies (match p {
                PolicyView::Threshold { m: n, keys } => n == m && keys.len() == count
                    && data@.skip(at + 10) == account::key_bytes(keys) + rest,
                _ => false,
            }) by {
                assert(policy_record(p)[0] == 2u8);
                if let PolicyView::Threshold { m: n, keys } = p {
                    let h = seq![2u8, n] + bytes::le64(keys.len() as u64);
                    let t = account::key_bytes(keys) + rest;
                    assert(policy_record(p) + rest =~= h + t);
                    bytes::lemma_concat_cancel(head, data@.skip(at + 10), h, t);
                    bytes::lemma_concat_cancel(
                        seq![2u8, m],
                        bytes::le64(count),
                        seq![2u8, n],
                        bytes::le64(keys.len() as u64),
                    );
                    assert(seq![2u8, m][1] == seq![2u8, n][1]);
                    bytes::lemma_le64_injective(count, keys.len() as u64);
                }
            }
        }
        match r {
            Some((keys, end)) => {
                proof {
                    let p = PolicyView::Threshold { m, keys: keys@ };
                    assert(s =~= policy_record(p) + data@.skip(end as int));
                }
                return Some((AuthPolicy::Threshold { m, keys }, end));
            },
            None => {
                return None;
            },
        }
    }
    None
}

/// Reads `count` keys at `at`; gives them with the position after them.
fn read_keys(data: &[u8], at: usize, count: u64) -> (r: Option<(Vec<PublicKey>, usize)>)
    requires
        at <= data@.len(),
    ensures
        match r {
            Some((keys, end)) => {
                &&& at <= end <= data@.len()
                &&& keys@.len() == count
                &&& data@.skip(at as int) == account::key_bytes(keys@) + data@.skip(end as int)
            },
            None => forall|keys: Seq<PublicKey>, rest: Seq<u8>|
                keys.len() == count ==> data@.skip(at as int) != #[trigger] (account::key_bytes(
                    keys,
                ) + rest),
        },
{
    let mut keys: Vec<PublicKey> = Vec::new();
    let mut pos: usize = at;
    let mut i: u64 = 0;
    assert(data@.skip(at as int) =~= account::key_bytes(keys@) + data@.skip(pos as int));
    while i < count
        invariant
            i <= count,
            at <= pos <= data@.len(),
            keys@.len() == i,
            pos == at + 32 * i,
            data@.skip(at as int) == account::key_bytes(keys@) + data@.skip(pos as int),
        decreases count - i,
    {
        if data.len() - pos < 32 {
            proof {
                assert forall|k: Seq<PublicKey>, rest: Seq<u8>| k.len() == count implies data@.skip(
                    at as int,
                ) != #[trigger] (account::key_bytes(k) + rest) by {
                    account::lemma_key_bytes_len(k);
                    assert((account::key_bytes(k) + rest).len() >= 32 * count);
                    assert(data@.skip(at as int).len() == data@.len() - at);
                }
            }
            return None;
        }
        let key = PublicKey(bytes::read_32(data, pos));
        let ghost before = keys@;
        keys.push(key);
        proof {
            lemma_keys_push(before, key);
            assert(data@.skip(pos as int) =~= key@ + data@.skip(pos + 32));
            assert(data@.skip(at as int) =~= account::key_bytes(keys@) + data@.skip(pos + 32));
        }
        pos = pos + 32;
        i += 1;
    }
    Some((keys, pos))
}

proof fn lemma_keys_push(keys: Seq<PublicKey>, key: PublicKey)
    ensures
        account::key_bytes(keys.push(key)) == account::key_bytes(keys) + key@,
    decreases keys.len(),
{
    if keys.len() == 0 {
        assert(keys.push(key).drop_first() =~= Seq::<PublicKey>::empty());
        assert(account::key_bytes(keys.push(key).drop_first()) =~= Seq::<u8>::empty());
    } else {
        lemma_keys_push(keys.drop_first(), key);
        assert(keys.push(key).drop_first() =~= keys.drop_first().push(key));
    }
    assert(account::key_bytes(keys.push(key)) =~= account::key_bytes(keys) + key@);
}

/// Reads an account at `at`; gives it with the position after it.
fn read_account(data: &[u8], at: usize) -> (r: Option<(Account, usize)>)
    requires
        at <= data@.len(),
    ensures
        match r {
            Some((a, end)) => {
                &&& at <= end <= data@.len()
                &&& policy_countable(a@.auth)
                &&& data@.skip(at as int) == account_record(a@) + data@.skip(end as int)
            },
            None => forall|a: AccountView, rest: Seq<u8>|
                policy_countable(a.auth) ==> data@.skip(at as int) != #[trigger] (account_record(a)
                    + rest),
        },
{
    broadcast use bytes::lemma_le_bytes_len;

    let ghost s = data@.skip(at as int);
    if data.len() - at < 48 {
        proof {
            assert forall|a: AccountView, rest: Seq<u8>| policy_countable(a.auth) implies s
                != #[trigger] (account_record(a) + rest) by {
                assert(account_record(a).len() >= 48);
                assert((account_record(a) + rest).len() >= 48);
            }
        }
        return None;
    }
    let id = AccountId(hash::Hash(bytes::read_32(data, at)));
    let balance: u64 = bytes::read_u64(data, at + 32);
    let nonce: u64 = bytes::read_u64(data, at + 40);
    let ghost head = id@ + bytes::le64(balance) + bytes::le64(nonce);
    assert(s =~= head + data@.skip(at + 48));
    let r = read_policy(data, at + 48);
    proof {
        assert forall|a: AccountView, rest: Seq<u8>|
            s == #[trigger] (account_record(a) + rest) implies data@.skip(at + 48)
            == policy_record(a.auth) + rest by {
            let h = a.id@ + bytes::le64(a.balance) + bytes::le64(a.nonce);
            assert(account_record(a) + rest =~= h + (policy_record(a.auth) + rest));
            bytes::lemma_concat_cancel(
                head,
                data@.skip(at + 48),
                h,
                policy_record(a.auth) + rest,
            );
        }
    }
    match r {
        Some((auth, end)) => {
            let a = Account { id, balance, nonce, auth };
            assert(s =~= account_record(a@) + data@.skip(end as int));
            Some((a, end))
        },
        None => None,
    }
}

/// The header of a snapshot.
struct Header {
    chain_id: u64,
    base_fee: u64,
    minter: Option<AccountId>,
    count: u64,
}

spec fn header_bytes(h: Header) -> Seq<u8> {
    bytes::le64(h.chain_id) + bytes::le64(h.base_fee) + transaction::sponsor_bytes(h.minter)
        + bytes::le64(h.count)
}

fn read_header(data: &[u8]) -> (r: Option<(Header, usize)>)
    ensures
        match r {
            Some((h, end)) => end <= data@.len() && data@ == header_bytes(h) + data@.skip(
                end as int,
            ),
            None => forall|h: Header, rest: Seq<u8>|
                data@ != #[trigger] (header_bytes(h) + rest),
        },
{
    broadcast use bytes::lemma_le_bytes_len;

    proof {
        assert forall|h: Header, rest: Seq<u8>|
            data@ == #[trigger] (header_bytes(h) + rest) implies data@.len() >= 25 && data@[16]
            == (if h.minter is Some { 1u8 } else { 0u8 }) && (h.minter is Some ==> data@.len()
            >= 57) by {
            let hd = bytes::le64(h.chain_id) + bytes::le64(h.base_fee);
            let m = transaction::sponsor_bytes(h.minter);
            assert(m[0] == if h.minter is Some { 1u8 } else { 0u8 });
            assert((header_bytes(h) + rest)[16] == m[0]);
        }
    }
    if data.len() < 25 {
        return None;
    }
    let chain_id: u64 = bytes::read_u64(data, 0);
    let base_fee: u64 = bytes::read_u64(data, 8);
    let marker: u8 = data[16];
    if marker == 0 {
        let count: u64 = bytes::read_u64(data, 17);
        let h = Header { chain_id, base_fee, minter: None, count };
        assert(data@ =~= header_bytes(h) + data@.skip(25));
        return Some((h, 25));
    }
    if marker == 1 {
        if data.len() < 57 {
            return None;
        }
        let id = AccountId(hash::Hash(bytes::read_32(data, 17)));
        let count: u64 = bytes::read_u64(data, 49);
        let h = Header { chain_id, base_fee, minter: Some(id), count };
        assert(data@ =~= header_bytes(h) + data@.skip(57));
        return Some((h, 57));
    }
    None
}

proof fn lemma_lists_header(s: StateView, list: Seq<AccountView>, data: Seq<u8>)
    requires
        lists(s, list, data),
    ensures
        data == header_bytes(
            Header {
                chain_id: s.chain_id,
                base_fee: s.base_fee,
                minter: s.minter,
                count: list.len() as u64,
            },
        ) + account_records(list),
{
}

/// What a snapshot says once its header is known.
proof fn lemma_after_header(data: Seq<u8>, h: Header, rest: Seq<u8>)
    requires
        data == header_bytes(h) + rest,
    ensures
        forall|s: StateView, list: Seq<AccountView>| #[trigger]
            lists(s, list, data) ==> {
                &&& s.chain_id == h.chain_id
                &&& s.base_fee == h.base_fee
                &&& s.minter == h.minter
                &&& list.len() == h.count
                &&& account_records(list) == rest
            },
{
    assert forall|s: StateView, list: Seq<AccountView>| #[trigger] lists(s, list, data) implies {
        &&& s.chain_id == h.chain_id
        &&& s.base_fee == h.base_fee
        &&& s.minter == h.minter
        &&& list.len() == h.count
        &&& account_records(list) == rest
    } by {
        let t = StateView {
            accounts: Map::empty(),
            chain_id: h.chain_id,
            base_fee: h.base_fee,
            minter: h.minter,
        };
        lemma_header_cancel(s, list.len() as u64, account_records(list), t, h.count, rest);
    }
}

/// The accounts of a list, put one after the other into an empty ledger.
spec fn collected(list: Seq<AccountView>) -> Map<AccountId, AccountView>
    decreases list.len(),
{
    if list.len() == 0 {
        Map::empty()
    } else {
        collected(list.drop_last()).insert(list.last().id, list.last())
    }
}

proof fn lemma_collected(list: Seq<AccountView>)
    ensures
        forall|id: AccountId| #[trigger]
            collected(list).contains_key(id) == bytemap::as_map(
                state::keyed_list(list),
            ).contains_key(id.0.0),
        forall|id: AccountId|
            collected(list).contains_key(id) ==> #[trigger] collected(list)[id]
                == bytemap::as_map(state::keyed_list(list))[id.0.0],
    decreases list.len(),
{
    if list.len() > 0 {
        lemma_collected(list.drop_last());
        let keyed = state::keyed_list(list);
        let last = list.last();
        assert(keyed.drop_last() =~= state::keyed_list(list.drop_last()));
        assert(keyed.last() == (last.id.0.0, last));
        assert forall|id: AccountId| #[trigger] collected(list).contains_key(id)
            == bytemap::as_map(keyed).contains_key(id.0.0) by {
            assert(collected(list.drop_last()).contains_key(id) == bytemap::as_map(
                keyed.drop_last(),
            ).contains_key(id.0.0));
            if id.0.0 == last.id.0.0 {
                assert(id == last.id);
            }
        }
        assert forall|id: AccountId| collected(list).contains_key(id) implies #[trigger] collected(
            list,
        )[id] == bytemap::as_map(keyed)[id.0.0] by {
            if id != last.id {
                assert(collected(list.drop_last()).contains_key(id));
                assert(id.0.0 != last.id.0.0);
                assert(collected(list.drop_last())[id] == bytemap::as_map(
                    keyed.drop_last(),
                )[id.0.0]);
            }
        }
    }
}

impl State {
    /// Canonical bytes of the whole ledger: parameters and accounts.
    pub fn snapshot(&self) -> (out: Vec<u8>)
        ensures
            is_snapshot(self@, out@),
    {
        let list = self.accounts_in_order();
        let ghost views = state::account_list(list@);
        let mut out: Vec<u8> = Vec::new();
        bytes::push_u64(&mut out, self.chain_id());
        bytes::push_u64(&mut out, self.base_fee());
        match self.minter() {
            None => out.push(0),
            Some(id) => {
                out.push(1);
                bytes::push_bytes(&mut out, id.0.0.as_slice());
            },
        }
        bytes::push_u64(&mut out, list.len() as u64);
        let ghost head = out@;
        proof {
            assert(head =~= bytes::le64(self@.chain_id) + bytes::le64(self@.base_fee)
                + transaction::sponsor_bytes(self@.minter) + bytes::le64(views.len() as u64));
            assert(views.take(0) =~= Seq::<AccountView>::empty());
            assert(out@ =~= head + account_records(views.take(0)));
        }
        let mut i: usize = 0;
        while i < list.len()
            invariant
                i <= list@.len(),
                views == state::account_list(list@),
                out@ == head + account_records(views.take(i as int)),
                forall|j: int| 0 <= j < i ==> policy_countable((#[trigger] views[j]).auth),
            decreases list@.len() - i,
        {
            push_account(&mut out, &list[i]);
            proof {
                assert(views.take(i + 1) =~= views.take(i as int).push(views[i as int]));
                lemma_records_push(views.take(i as int), views[i as int]);
                assert(out@ =~= head + account_records(views.take(i + 1)));
            }
            if let AuthPolicy::Threshold { keys, .. } = &list[i].auth {
                let n: usize = keys.len();
                assert(keys@.len() == n);
            }
            i += 1;
        }
        proof {
            assert(views.take(i as int) =~= views);
            assert(lists(self@, views, out@));
        }
        out
    }

    /// The ledger whose snapshot the bytes are, if there is one.
    pub fn from_snapshot(data: &[u8]) -> (r: Option<State>)
        ensures
            match r {
                Some(s) => is_snapshot(s@, data@),
                None => forall|s: StateView| !is_snapshot(s, data@),
            },
    {
        let (h, start): (Header, usize) = match read_header(data) {
            Some(x) => x,
            None => {
                proof {
                    assert forall|s: StateView| !is_snapshot(s, data@) by {
                        if is_snapshot(s, data@) {
                            let list = choose|list: Seq<AccountView>| lists(s, list, data@);
                            lemma_lists_header(s, list, data@);
                        }
                    }
                }
                return None;
            },
        };
        let ghost rest = data@.skip(start as int);
        proof {
            lemma_after_header(data@, h, rest);
        }
        let mut s = State::new();
        s.set_chain_id(h.chain_id);
        s.set_base_fee(h.base_fee);
        s.set_minter(h.minter);
        let ghost mut done: Seq<AccountView> = Seq::empty();
        let mut last: Option<Key> = None;
        let mut pos: usize = start;
        let mut i: u64 = 0;
        assert(rest =~= account_records(done) + data@.skip(pos as int));
        assert(s@.accounts =~= collected(done));
        while i < h.count
            invariant
                i <= h.count,
                start <= pos <= data@.len(),
                rest == data@.skip(start as int),
                data@ == header_bytes(h) + rest,
                rest == account_records(done) + data@.skip(pos as int),
                done.len() == i,
                countable(done),
                bytemap::ascending(state::keyed_list(done)),
                match last {
                    Some(k) => i > 0 && done.last().id.0.0 == k,
                    None => i == 0,
                },
                s@ == (StateView {
                    accounts: collected(done),
                    chain_id: h.chain_id,
                    base_fee: h.base_fee,
                    minter: h.minter,
                }),
                forall|s: StateView, list: Seq<AccountView>| #[trigger]
                    lists(s, list, data@) ==> list.len() == h.count && account_records(list)
                        == rest,
            decreases h.count - i,
        {
            let ghost tail = data@.skip(pos as int);
            proof {
                // Any list that the bytes spell starts with what was read.
                assert forall|t: StateView, list: Seq<AccountView>| #[trigger]
                    lists(t, list, data@) implies list.take(i as int) == done && tail
                    == account_record(list[i as int]) + account_records(list.skip(i + 1)) by {
                    lemma_records_split(list, i as int);
                    assert(countable(list.take(i as int))) by {
                        assert forall|j: int| 0 <= j < i implies policy_countable(
                            (#[trigger] list.take(i as int)[j]).auth,
                        ) by {
                            assert(list.take(i as int)[j] == list[j]);
                        }
                    }
                    lemma_records_cancel(
                        list.take(i as int),
                        account_record(list[i as int]) + account_records(list.skip(i + 1)),
                        done,
                        tail,
                    );
                }
            }
            let (a, end): (Account, usize) = match read_account(data, pos) {
                Some(x) => x,
                None => {
                    proof {
                        assert forall|t: StateView| !is_snapshot(t, data@) by {
                            if is_snapshot(t, data@) {
                                let list = choose|list: Seq<AccountView>| lists(t, list, data@);
                                assert(lists(t, list, data@));
                                assert(policy_countable(list[i as int].auth));
                                assert(tail == account_record(list[i as int]) + account_records(
                                    list.skip(i + 1),
                                ));
                            }
                        }
                    }
                    return None;
                },
            };
            proof {
                assert forall|t: StateView, list: Seq<AccountView>| #[trigger]
                    lists(t, list, data@) implies list[i as int] == a@ by {
                    assert(policy_countable(list[i as int].auth));
                    lemma_account_cancel(
                        list[i as int],
                        account_records(list.skip(i + 1)),
                        a@,
                        data@.skip(end as int),
                    );
                }
            }
            let in_order: bool = match &last {
                Some(k) => match bytemap::side(k, &a.id.0.0) {
                    bytemap::Side::Before => true,
                    bytemap::Side::Same => false,
                    bytemap::Side::After => false,
                },
                None => true,
            };
            if !in_order {
                proof {
                    assert forall|t: StateView| !is_snapshot(t, data@) by {
                        if is_snapshot(t, data@) {
                            let list = choose|list: Seq<AccountView>| lists(t, list, data@);
                            assert(lists(t, list, data@));
                            assert(list.take(i as int) == done);
                            assert(list[i as int] == a@);
                            let keyed = state::keyed_list(list);
                            assert(done.last() == list.take(i as int)[i - 1]);
                            assert(keyed[i - 1].0 == last->0);
                            assert(bytemap::less(keyed[i - 1].0, keyed[i as int].0));
                            let x = last->0;
                            let y = a.id.0.0;
                            if bytemap::less(y, x) {
                                bytemap::lemma_less_transitive(x, y, x);
                            }
                            bytemap::lemma_less_irreflexive(x);
                        }
                    }
                }
                return None;
            }
            let ghost v = a@;
            last = Some(a.id.0.0);
            s.upsert_account(a);
            proof {
                let next = done.push(v);
                lemma_records_push(done, v);
                assert(rest =~= account_records(next) + data@.skip(end as int));
                assert(next.drop_last() =~= done);
                lemma_ascending_push(done, v);
                assert(countable(next)) by {
                    assert forall|j: int| 0 <= j < next.len() implies policy_countable(
                        (#[trigger] next[j]).auth,
                    ) by {
                        if j < done.len() {
                            assert(next[j] == done[j]);
                        }
                    }
                }
                done = next;
            }
            pos = end;
            i += 1;
        }
        if pos != data.len() {
            proof {
                assert forall|t: StateView| !is_snapshot(t, data@) by {
                    if is_snapshot(t, data@) {
                        let list = choose|list: Seq<AccountView>| lists(t, list, data@);
                        assert(lists(t, list, data@));
                        let none = Seq::<u8>::empty();
                        assert(account_records(list) + none =~= account_records(list));
                        lemma_records_cancel(list, none, done, data@.skip(pos as int));
                    }
                }
            }
            return None;
        }
        proof {
            assert(data@.skip(pos as int) =~= Seq::<u8>::empty());
            assert(rest =~= account_records(done));
            lemma_collected(done);
            assert(lists(s@, done, data@));
        }
        Some(s)
    }
}

proof fn lemma_ascending_push(list: Seq<AccountView>, a: AccountView)
    requires
        bytemap::ascending(state::keyed_list(list)),
        list.len() > 0 ==> bytemap::less(list.last().id.0.0, a.id.0.0),
    ensures
        bytemap::ascending(state::keyed_list(list.push(a))),
{
    let before = state::keyed_list(list);
    let after = state::keyed_list(list.push(a));
    let n = list.len() as int;
    assert forall|i: int, j: int| 0 <= i < j < after.len() implies bytemap::less(
        #[trigger] after[i].0,
        #[trigger] after[j].0,
    ) by {
        assert(after[i] == before[i]);
        if j < n {
            assert(after[j] == before[j]);
        } else if i < n - 1 {
            assert(bytemap::less(before[i].0, before[n - 1].0));
            bytemap::lemma_less_transitive(before[i].0, before[n - 1].0, a.id.0.0);
        }
    }
}

proof fn lemma_records_split(list: Seq<AccountView>, i: int)
    requires
        0 <= i < list.len(),
    ensures
        account_records(list) == account_records(list.take(i)) + (account_record(list[i])
            + account_records(list.skip(i + 1))),
    decreases i,
{
    if i == 0 {
        assert(list.take(0) =~= Seq::<AccountView>::empty());
        assert(list.skip(1) =~= list.drop_first());
        assert(account_records(list) =~= account_records(list.take(0)) + (account_record(list[0])
            + account_records(list.skip(1))));
    } else {
        let rest = list.drop_first();
        lemma_records_split(rest, i - 1);
        assert(rest.take(i - 1) =~= list.take(i).drop_first());
        assert(rest.skip(i) =~= list.skip(i + 1));
        assert(list.take(i)[0] == list[0]);
        assert(account_records(list) =~= account_records(list.take(i)) + (account_record(list[i])
            + account_records(list.skip(i + 1))));
    }
}

} // verus!
