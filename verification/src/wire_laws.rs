//! What stands where in the bytes that are hashed, signed and stored.

use vstd::prelude::*;

use crate::account;
use crate::account::{AccountView, PolicyView};
use crate::block::BlockHeader;
use crate::bytes;
use crate::consensus;
use crate::hash;
use crate::interop::light_client::{CrossChainEvent, ForeignHeader};
use crate::merkle;
use crate::nex;
use crate::receipt;
use crate::receipt::{Receipt, TxError};
use crate::smt;
use crate::snapshot;
use crate::state;
use crate::state::StateView;
use crate::text;
use crate::transaction;
use crate::transaction::{AccessView, TransactionKind, TxView};
use crate::vm::contract;
use crate::vm::instr::Instr;

verus! {

/// Each part of a hash input comes behind its length, in four bytes; the parts
/// follow each other, and the tag comes first of all.
pub proof fn law_parts_are_framed(tag: Seq<u8>, part: Seq<u8>, parts: Seq<Seq<u8>>)
    requires
        part.len() < 0x1_0000_0000,
    ensures
        hash::framed(part).len() == 4 + part.len(),
        bytes::le_value(hash::framed(part).take(4)) == part.len(),
        hash::framed(part).skip(4) == part,
        hash::framed_parts(Seq::empty()) == Seq::<u8>::empty(),
        hash::framed_parts(seq![part] + parts) == hash::framed(part) + hash::framed_parts(parts),
        hash::tagged_preimage(tag, parts) == hash::framed_parts(seq![tag] + parts),
        hash::tagged(tag, parts)@ == hash::blake3_digest(hash::tagged_preimage(tag, parts))@,
{
    broadcast use bytes::lemma_le_bytes_len;

    bytes::lemma_byte_ranges();
    bytes::lemma_le_value_of_le_bytes(part.len(), 4);
    assert(part.len() % 0x1_0000_0000 == part.len());
    assert(hash::framed(part).take(4) =~= bytes::le_bytes(part.len(), 4));
    assert(hash::framed(part).skip(4) =~= part);
    assert((seq![part] + parts).drop_first() =~= parts);
    assert((seq![tag] + parts).drop_first() =~= parts);
}

/// A policy starts with its kind: open, one key, a threshold or unclaimed. The
/// key follows, or the threshold, the number of keys and the keys.
pub proof fn law_policies_start_with_their_kind(p: PolicyView)
    ensures
        match p {
            PolicyView::Open => p.encoded() == seq![0u8],
            PolicyView::SingleKey(key) => p.encoded()[0] == 1 && p.encoded().skip(1) == key@,
            PolicyView::Threshold { m, keys } => {
                &&& p.encoded()[0] == 2
                &&& p.encoded()[1] == m
                &&& bytes::le_value(p.encoded().subrange(2, 6)) == keys.len() % 0x1_0000_0000
                &&& p.encoded().skip(6) == account::key_bytes(keys)
            },
            PolicyView::Unclaimed => p.encoded() == seq![3u8],
        },
{
    broadcast use bytes::lemma_le_bytes_len;

    bytes::lemma_byte_ranges();
    match p {
        PolicyView::Open => {},
        PolicyView::SingleKey(key) => {
            assert(p.encoded().skip(1) =~= key@);
        },
        PolicyView::Threshold { m, keys } => {
            bytes::lemma_le_value_of_le_bytes(keys.len() % 0x1_0000_0000, 4);
            assert(p.encoded().subrange(2, 6) =~= account::count_bytes(keys.len()));
            assert(p.encoded().skip(6) =~= account::key_bytes(keys));
        },
        PolicyView::Unclaimed => {},
    }
}

/// Keys and ids are written one after the other.
pub proof fn law_lists_are_written_in_order(
    keys: Seq<crate::crypto::PublicKey>,
    ids: Seq<account::AccountId>,
)
    ensures
        account::key_bytes(Seq::empty()) == Seq::<u8>::empty(),
        keys.len() > 0 ==> account::key_bytes(keys) == keys[0]@ + account::key_bytes(
            keys.drop_first(),
        ),
        transaction::id_bytes(Seq::empty()) == Seq::<u8>::empty(),
        ids.len() > 0 ==> transaction::id_bytes(ids) == ids[0]@ + transaction::id_bytes(
            ids.drop_first(),
        ),
{
}

/// An account is its id, its balance, its nonce and its policy.
pub proof fn law_accounts_are_written_in_full(a: AccountView)
    ensures
        a.encoded().take(32) == a.id@,
        bytes::le_value(a.encoded().subrange(32, 40)) == a.balance,
        bytes::le_value(a.encoded().subrange(40, 48)) == a.nonce,
        a.encoded().skip(48) == a.auth.encoded(),
        state::value_digest(a)@ == hash::blake3_digest(
            hash::tagged_preimage(text::utf8("phi:account:state"@), seq![a.encoded()]),
        )@,
{
    broadcast use bytes::lemma_le_bytes_len;

    bytes::law_numbers_are_little_endian(a.balance, 0);
    bytes::law_numbers_are_little_endian(a.nonce, 0);
    assert(a.encoded().take(32) =~= a.id@);
    assert(a.encoded().subrange(32, 40) =~= bytes::le64(a.balance));
    assert(a.encoded().subrange(40, 48) =~= bytes::le64(a.nonce));
    assert(a.encoded().skip(48) =~= a.auth.encoded());
}

/// What a transaction does is a byte that tells a transfer from a mint, the
/// account to credit, and the amount.
pub proof fn law_kinds_are_told_apart(k: TransactionKind)
    ensures
        k.encoded().len() == 41,
        k matches TransactionKind::Transfer { to, amount } ==> {
            &&& k.encoded()[0] == 0
            &&& k.encoded().subrange(1, 33) == to@
            &&& bytes::le_value(k.encoded().skip(33)) == amount
        },
        k matches TransactionKind::Mint { to, amount } ==> {
            &&& k.encoded()[0] == 1
            &&& k.encoded().subrange(1, 33) == to@
            &&& bytes::le_value(k.encoded().skip(33)) == amount
        },
{
    broadcast use bytes::lemma_le_bytes_len;

    bytes::law_numbers_are_little_endian(k.amount(), 0);
    assert(k.encoded().subrange(1, 33) =~= k.target()@);
    assert(k.encoded().skip(33) =~= bytes::le64(k.amount()));
}

/// An access set is the number of reads and the reads, then the same for the
/// writes.
pub proof fn law_access_sets_are_counted(a: AccessView)
    ensures
        bytes::le_value(a.encoded().take(4)) == a.reads.len() % 0x1_0000_0000,
        ({
            let w = (4 + 32 * a.reads.len()) as int;
            &&& a.encoded().subrange(4, w) == transaction::id_bytes(a.reads)
            &&& bytes::le_value(a.encoded().subrange(w, w + 4)) == a.writes.len()
                % 0x1_0000_0000
            &&& a.encoded().skip(w + 4) == transaction::id_bytes(a.writes)
        }),
{
    broadcast use bytes::lemma_le_bytes_len;

    bytes::lemma_byte_ranges();
    bytes::lemma_le_value_of_le_bytes(a.reads.len() % 0x1_0000_0000, 4);
    bytes::lemma_le_value_of_le_bytes(a.writes.len() % 0x1_0000_0000, 4);
    transaction::lemma_id_bytes_len(a.reads);
    transaction::lemma_id_bytes_len(a.writes);
    let w = (4 + 32 * a.reads.len()) as int;
    assert(a.encoded().take(4) =~= account::count_bytes(a.reads.len()));
    assert(a.encoded().subrange(4, w) =~= transaction::id_bytes(a.reads));
    assert(a.encoded().subrange(w, w + 4) =~= account::count_bytes(a.writes.len()));
    assert(a.encoded().skip(w + 4) =~= transaction::id_bytes(a.writes));
}

/// The id of a transaction is the hash of all of it but the signatures, field
/// by field.
pub proof fn law_ids_are_hashes_of_every_field(t: TxView)
    ensures
        t.id()@ == hash::blake3_digest(t.id_input())@,
        t.id_input() == hash::tagged_preimage(text::utf8("phi:tx"@), t.id_parts()),
        t.id_parts().len() == 8,
        bytes::le_value(t.id_parts()[0]) == t.chain_id,
        t.id_parts()[1] == t.sender@,
        bytes::le_value(t.id_parts()[2]) == t.nonce,
        t.id_parts()[3] == t.kind.encoded(),
        t.id_parts()[4] == t.access.encoded(),
        bytes::le_value(t.id_parts()[5]) == t.max_fee,
        t.id_parts()[0].len() == 8 && t.id_parts()[2].len() == 8 && t.id_parts()[5].len() == 8,
        match t.sponsor {
            None => t.id_parts()[6] == seq![0u8],
            Some(id) => t.id_parts()[6] == seq![1u8] + id@,
        },
        match t.auth_reveal {
            None => t.id_parts()[7] == seq![0u8],
            Some(r) => t.id_parts()[7] == seq![1u8] + r.policy.encoded() + bytes::le64(r.salt),
        },
{
    bytes::law_numbers_are_little_endian(t.chain_id, 0);
    bytes::law_numbers_are_little_endian(t.nonce, 0);
    bytes::law_numbers_are_little_endian(t.max_fee, 0);
    if t.auth_reveal is Some {
        let r = t.auth_reveal->0;
        assert(t.id_parts()[7] =~= seq![1u8] + r.policy.encoded() + bytes::le64(r.salt));
    }
}

/// The hash of a header covers every field of it.
pub proof fn law_header_hashes_cover_every_field(h: BlockHeader)
    ensures
        h.digest()@ == hash::blake3_digest(h.hash_input())@,
        h.hash_input() == hash::tagged_preimage(text::utf8("phi:header"@), h.hash_parts()),
        h.hash_parts().len() == 8,
        bytes::le_value(h.hash_parts()[0]) == h.height && h.hash_parts()[0].len() == 8,
        bytes::le_value(h.hash_parts()[1]) == h.chain_id && h.hash_parts()[1].len() == 8,
        h.hash_parts()[2] == h.parent@,
        h.hash_parts()[3] == h.tx_root@,
        h.hash_parts()[4] == h.state_root@,
        h.hash_parts()[5] == h.receipts_root@,
        bytes::le_value(h.hash_parts()[6]) == h.proposer && h.hash_parts()[6].len() == 4,
        bytes::le_value(h.hash_parts()[7]) == h.timestamp_ms && h.hash_parts()[7].len() == 8,
{
    bytes::law_numbers_are_little_endian(h.height, h.proposer);
    bytes::law_numbers_are_little_endian(h.chain_id, 0);
    bytes::law_numbers_are_little_endian(h.timestamp_ms, 0);
}

/// A result is a zero byte, or the number of its error and the figures of it.
pub proof fn law_results_are_numbered(r: Result<(), TxError>)
    ensures
        r is Ok ==> receipt::result_bytes(r) == seq![0u8],
        r matches Err(e) ==> receipt::result_bytes(r)[0] == (match e {
            TxError::UnknownSender => 1u8,
            TxError::BadNonce { .. } => 2,
            TxError::AccessViolation => 3,
            TxError::AuthFailed => 4,
            TxError::RevealMismatch => 5,
            TxError::InsufficientBalance { .. } => 6,
            TxError::Overflow => 7,
            TxError::WrongChain { .. } => 8,
            TxError::TransactionTooLarge => 9,
            TxError::UnauthorizedIssuance => 10,
            TxError::FeeTooLow { .. } => 11,
        }),
        r matches Err(e) ==> receipt::result_bytes(r).skip(1) == (match e {
            TxError::BadNonce { expected, got } => bytes::le64(expected) + bytes::le64(got),
            TxError::InsufficientBalance { have, need } => bytes::le64(have) + bytes::le64(need),
            TxError::WrongChain { expected, got } => bytes::le64(expected) + bytes::le64(got),
            TxError::FeeTooLow { base_fee, max_fee } => bytes::le64(base_fee) + bytes::le64(
                max_fee,
            ),
            _ => Seq::empty(),
        }),
{
}

/// The hash of a receipt covers the transaction and the result, and not the fee.
pub proof fn law_receipt_hashes(r: Receipt)
    ensures
        r.digest()@ == hash::blake3_digest(
            hash::tagged_preimage(
                text::utf8("phi:receipt"@),
                seq![r.tx_id@, receipt::result_bytes(r.result)],
            ),
        )@,
{
}

/// A vote signs the hash of the block, its height, the view, and a byte that is
/// one for approval.
pub proof fn law_votes_sign_block_and_view(
    block_hash: hash::Hash,
    height: u64,
    view: u64,
    approve: bool,
)
    ensures
        consensus::vote_digest(block_hash, height, view, approve)@ == hash::blake3_digest(
            hash::tagged_preimage(
                text::utf8("phi:vote"@),
                seq![
                    block_hash@,
                    bytes::le64(height),
                    bytes::le64(view),
                    if approve {
                        seq![1u8]
                    } else {
                        seq![0u8]
                    },
                ],
            ),
        )@,
{
    assert(seq![
        if approve {
            1u8
        } else {
            0u8
        },
    ] =~= if approve {
        seq![1u8]
    } else {
        seq![0u8]
    });
}

/// Foreign headers and events are hashed field by field.
pub proof fn law_foreign_hashes_cover_every_field(h: ForeignHeader, e: CrossChainEvent)
    ensures
        h.digest()@ == hash::blake3_digest(
            hash::tagged_preimage(text::utf8("phi:interop:header"@), h.parts()),
        )@,
        h.parts().len() == 4,
        bytes::le_value(h.parts()[0]) == h.height && h.parts()[0].len() == 8,
        h.parts()[1] == h.parent@,
        h.parts()[2] == h.event_root@,
        bytes::le_value(h.parts()[3]) == h.nonce && h.parts()[3].len() == 8,
        e.digest()@ == hash::blake3_digest(
            hash::tagged_preimage(text::utf8("phi:interop:event"@), e.parts()),
        )@,
        e.parts().len() == 4,
        bytes::le_value(e.parts()[0]) == e.foreign_chain.0 && e.parts()[0].len() == 8,
        bytes::le_value(e.parts()[1]) == e.sequence && e.parts()[1].len() == 8,
        e.parts()[2] == e.beneficiary@,
        bytes::le_value(e.parts()[3]) == e.amount && e.parts()[3].len() == 8,
{
    bytes::law_numbers_are_little_endian(h.height, 0);
    bytes::law_numbers_are_little_endian(h.nonce, 0);
    bytes::law_numbers_are_little_endian(e.foreign_chain.0, 0);
    bytes::law_numbers_are_little_endian(e.sequence, 0);
    bytes::law_numbers_are_little_endian(e.amount, 0);
}

/// An instruction is its number, and its operand in eight bytes if it has one; a
/// program is its instructions in order.
pub proof fn law_instructions_are_numbered(i: Instr, code: Seq<Instr>)
    ensures
        contract::instr_bytes(i)[0] == (match i {
            Instr::Push(_) => 0x01u8,
            Instr::Pop => 0x02,
            Instr::Dup => 0x03,
            Instr::Swap => 0x04,
            Instr::Add => 0x10,
            Instr::Sub => 0x11,
            Instr::Mul => 0x12,
            Instr::Div => 0x13,
            Instr::Mod => 0x14,
            Instr::Eq => 0x20,
            Instr::Lt => 0x21,
            Instr::Gt => 0x22,
            Instr::And => 0x23,
            Instr::Or => 0x24,
            Instr::Not => 0x25,
            Instr::Jump(_) => 0x30,
            Instr::JumpIf(_) => 0x31,
            Instr::Arg(_) => 0x40,
            Instr::Caller => 0x41,
            Instr::Value => 0x42,
            Instr::SLoad => 0x50,
            Instr::SStore => 0x51,
            Instr::Return => 0x60,
            Instr::Halt => 0x61,
            Instr::Abort => 0x62,
        }),
        match i {
            Instr::Push(v) => bytes::le_value(contract::instr_bytes(i).skip(1)) == v
                && contract::instr_bytes(i).len() == 9,
            Instr::Jump(t) | Instr::JumpIf(t) | Instr::Arg(t) => bytes::le_value(
                contract::instr_bytes(i).skip(1),
            ) == t && contract::instr_bytes(i).len() == 9,
            _ => contract::instr_bytes(i).len() == 1,
        },
        contract::code_bytes(Seq::empty()) == Seq::<u8>::empty(),
        contract::code_bytes(seq![i] + code) == contract::instr_bytes(i) + contract::code_bytes(
            code,
        ),
        contract::code_hash_of(code)@ == hash::blake3_digest(
            hash::tagged_preimage(text::utf8("phi:vm:code"@), seq![contract::code_bytes(code)]),
        )@,
{
    broadcast use bytes::lemma_le_bytes_len;

    match i {
        Instr::Push(v) => {
            bytes::law_numbers_are_little_endian(v, 0);
            assert(contract::instr_bytes(i).skip(1) =~= bytes::le64(v));
        },
        Instr::Jump(t) | Instr::JumpIf(t) | Instr::Arg(t) => {
            bytes::law_numbers_are_little_endian(t as u64, 0);
            assert(contract::instr_bytes(i).skip(1) =~= bytes::le64(t as u64));
        },
        _ => {},
    }
    assert((seq![i] + code).drop_first() =~= code);
}

/// The nodes of the trees are hashed under tags of their own, with what they
/// stand over.
pub proof fn law_tree_nodes_are_tagged(
    a: hash::Hash,
    b: hash::Hash,
    count: nat,
    key: crate::bytemap::Key,
)
    ensures
        merkle::leaf_digest(a)@ == hash::blake3_digest(
            hash::tagged_preimage(text::utf8("nex:merkle:leaf"@), seq![a@]),
        )@,
        merkle::node_digest(a, b)@ == hash::blake3_digest(
            hash::tagged_preimage(text::utf8("nex:merkle:node"@), seq![a@, b@]),
        )@,
        merkle::empty_digest()@ == hash::blake3_digest(
            hash::tagged_preimage(text::utf8("nex:merkle:empty"@), Seq::empty()),
        )@,
        merkle::root_digest(count, a)@ == hash::blake3_digest(
            hash::tagged_preimage(
                text::utf8("nex:merkle:root"@),
                seq![bytes::le64(count as u64), a@],
            ),
        )@,
        smt::leaf_digest(key, a)@ == hash::blake3_digest(
            hash::tagged_preimage(text::utf8("nex:smt:leaf"@), seq![key@, a@]),
        )@,
        smt::node_digest(a, b)@ == hash::blake3_digest(
            hash::tagged_preimage(text::utf8("nex:smt:node"@), seq![a@, b@]),
        )@,
        smt::empty_digest(256)@ == hash::blake3_digest(
            hash::tagged_preimage(text::utf8("nex:smt:empty"@), Seq::empty()),
        )@,
{
}

/// A label stands for the account whose id is the hash of it, and the policy of
/// an account gives its id together with a salt.
pub proof fn law_account_ids_are_hashes(label: Seq<char>, policy: PolicyView, salt: u64)
    ensures
        account::label_id(label)@ == hash::blake3_digest(
            hash::tagged_preimage(text::utf8("phi:account"@), seq![text::utf8(label)]),
        )@,
        account::auth_id(policy, salt)@ == hash::blake3_digest(
            hash::tagged_preimage(
                text::utf8("phi:account:auth"@),
                seq![policy.encoded(), bytes::le64(salt)],
            ),
        )@,
        nex::account::label_id(label)@ == hash::blake3_digest(
            hash::tagged_preimage(text::utf8("nex:account"@), seq![text::utf8(label)]),
        )@,
{
}

/// A snapshot is the network, the base fee, the minter, the number of accounts
/// and the accounts.
pub proof fn law_snapshots_are_laid_out(s: StateView, list: Seq<AccountView>, data: Seq<u8>)
    requires
        snapshot::lists(s, list, data),
    ensures
        bytes::le_value(data.take(8)) == s.chain_id,
        bytes::le_value(data.subrange(8, 16)) == s.base_fee,
        ({
            let at = if s.minter is Some {
                49int
            } else {
                17
            };
            &&& data[16] == (if s.minter is Some {
                1u8
            } else {
                0u8
            })
            &&& s.minter is Some ==> data.subrange(17, 49) == (s.minter->0)@
            &&& bytes::le_value(data.subrange(at, at + 8)) == list.len()
            &&& data.skip(at + 8) == snapshot::account_records(list)
        }),
{
    broadcast use bytes::lemma_le_bytes_len;

    bytes::law_numbers_are_little_endian(s.chain_id, 0);
    bytes::law_numbers_are_little_endian(s.base_fee, 0);
    bytes::law_numbers_are_little_endian(list.len() as u64, 0);
    let at = if s.minter is Some {
        49int
    } else {
        17
    };
    assert(data.take(8) =~= bytes::le64(s.chain_id));
    assert(data.subrange(8, 16) =~= bytes::le64(s.base_fee));
    if s.minter is Some {
        assert(data.subrange(17, 49) =~= (s.minter->0)@);
    }
    assert(data.subrange(at, at + 8) =~= bytes::le64(list.len() as u64));
    assert(data.skip(at + 8) =~= snapshot::account_records(list));
}

/// An account is stored as its id, its balance, its nonce and its policy, and
/// the accounts follow each other.
pub proof fn law_stored_accounts_are_laid_out(a: AccountView, list: Seq<AccountView>)
    requires
        snapshot::policy_countable(a.auth),
    ensures
        snapshot::account_records(Seq::empty()) == Seq::<u8>::empty(),
        snapshot::account_records(seq![a] + list) == snapshot::account_record(a)
            + snapshot::account_records(list),
        ({
            let d = snapshot::account_record(a);
            &&& d.take(32) == a.id@
            &&& bytes::le_value(d.subrange(32, 40)) == a.balance
            &&& bytes::le_value(d.subrange(40, 48)) == a.nonce
            &&& match a.auth {
                PolicyView::Open => d.skip(48) == seq![0u8],
                PolicyView::SingleKey(key) => d[48] == 1 && d.skip(49) == key@,
                PolicyView::Threshold { m, keys } => {
                    &&& d[48] == 2
                    &&& d[49] == m
                    &&& bytes::le_value(d.subrange(50, 58)) == keys.len()
                    &&& d.skip(58) == account::key_bytes(keys)
                },
                PolicyView::Unclaimed => d.skip(48) == seq![3u8],
            }
        }),
{
    broadcast use bytes::lemma_le_bytes_len;

    bytes::law_numbers_are_little_endian(a.balance, 0);
    bytes::law_numbers_are_little_endian(a.nonce, 0);
    let d = snapshot::account_record(a);
    assert((seq![a] + list).drop_first() =~= list);
    assert(d.take(32) =~= a.id@);
    assert(d.subrange(32, 40) =~= bytes::le64(a.balance));
    assert(d.subrange(40, 48) =~= bytes::le64(a.nonce));
    match a.auth {
        PolicyView::Open => {
            assert(d.skip(48) =~= seq![0u8]);
        },
        PolicyView::SingleKey(key) => {
            assert(d.skip(49) =~= key@);
        },
        PolicyView::Threshold { m, keys } => {
            bytes::law_numbers_are_little_endian(keys.len() as u64, 0);
            assert(d.subrange(50, 58) =~= bytes::le64(keys.len() as u64));
            assert(d.skip(58) =~= account::key_bytes(keys));
        },
        PolicyView::Unclaimed => {
            assert(d.skip(48) =~= seq![3u8]);
        },
    }
}

/// On the starter chain, ids, headers and accounts are hashed field by field.
pub proof fn law_starter_hashes_cover_every_field(
    t: nex::transaction::TxView,
    h: nex::block::BlockHeader,
    a: nex::account::AccountView,
)
    ensures
        t.id()@ == hash::blake3_digest(
            hash::tagged_preimage(text::utf8("nex:tx"@), t.id_parts()),
        )@,
        t.id_parts().len() == 5,
        t.id_parts()[0] == t.sender@,
        bytes::le_value(t.id_parts()[1]) == t.nonce && t.id_parts()[1].len() == 8,
        t.kind is Transfer ==> t.id_parts()[2] == text::utf8("transfer"@),
        t.kind is Mint ==> t.id_parts()[2] == text::utf8("mint"@),
        t.id_parts()[3] == t.kind.target()@,
        bytes::le_value(t.id_parts()[4]) == t.kind.amount() && t.id_parts()[4].len() == 8,
        h.digest()@ == hash::blake3_digest(
            hash::tagged_preimage(text::utf8("nex:header"@), h.hash_parts()),
        )@,
        h.hash_parts().len() == 6,
        bytes::le_value(h.hash_parts()[0]) == h.height && h.hash_parts()[0].len() == 8,
        h.hash_parts()[1] == h.parent@,
        h.hash_parts()[2] == h.tx_root@,
        h.hash_parts()[3] == h.state_root@,
        bytes::le_value(h.hash_parts()[4]) == h.proposer && h.hash_parts()[4].len() == 4,
        bytes::le_value(h.hash_parts()[5]) == h.timestamp_ms && h.hash_parts()[5].len() == 8,
        a.encoded().len() == 48,
        a.encoded().take(32) == a.id@,
        bytes::le_value(a.encoded().subrange(32, 40)) == a.balance,
        bytes::le_value(a.encoded().subrange(40, 48)) == a.nonce,
{
    broadcast use bytes::lemma_le_bytes_len;

    bytes::law_numbers_are_little_endian(t.nonce, h.proposer);
    bytes::law_numbers_are_little_endian(t.kind.amount(), 0);
    bytes::law_numbers_are_little_endian(h.height, 0);
    bytes::law_numbers_are_little_endian(h.timestamp_ms, 0);
    bytes::law_numbers_are_little_endian(a.balance, 0);
    bytes::law_numbers_are_little_endian(a.nonce, 0);
    assert(a.encoded().take(32) =~= a.id@);
    assert(a.encoded().subrange(32, 40) =~= bytes::le64(a.balance));
    assert(a.encoded().subrange(40, 48) =~= bytes::le64(a.nonce));
}

/// The root of the starter chain is the hash of the accounts, in the order of
/// their ids, behind a tag.
pub proof fn law_starter_roots_hash_the_accounts(
    s: nex::state::StateView,
    list: Seq<(crate::bytemap::Key, nex::account::AccountView)>,
)
    ensures
        s.root()@ == hash::blake3_digest(
            text::utf8("nex:state"@) + nex::state::encodings(s.listing()),
        )@,
        nex::state::encodings(Seq::empty()) == Seq::<u8>::empty(),
        list.len() > 0 ==> nex::state::encodings(list) == nex::state::encodings(list.drop_last())
            + list.last().1.encoded(),
{
}

} // verus!
