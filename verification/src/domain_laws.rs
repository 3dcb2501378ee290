//! Hashes and signatures of one kind are never taken for those of another.

use vstd::prelude::*;

use crate::account;
use crate::account::PolicyView;
use crate::block::BlockHeader;
use crate::bytes;
use crate::consensus;
use crate::hash;
use crate::interop::light_client::{CrossChainEvent, ForeignHeader};
use crate::merkle;
use crate::receipt;
use crate::receipt::Receipt;
use crate::text;
use crate::transaction::TxView;

verus! {

/// The tags that a signed message can start with are short, and differ.
proof fn lemma_signed_tags()
    ensures
        text::utf8("phi:tx"@) != text::utf8("phi:vote"@),
        text::utf8("phi:tx"@) != text::utf8("phi:interop:header"@),
        text::utf8("phi:vote"@) != text::utf8("phi:interop:header"@),
        text::utf8("phi:tx"@).len() < 0x1_0000_0000,
        text::utf8("phi:vote"@).len() < 0x1_0000_0000,
        text::utf8("phi:interop:header"@).len() < 0x1_0000_0000,
{
    reveal_strlit("phi:tx");
    reveal_strlit("phi:vote");
    reveal_strlit("phi:interop:header");
    text::lemma_utf8_len("phi:tx"@);
    text::lemma_utf8_len("phi:vote"@);
    text::lemma_utf8_len("phi:interop:header"@);
    assert("phi:tx"@[4] == 't');
    assert("phi:vote"@[4] == 'v');
    assert("phi:interop:header"@[4] == 'i');
    if text::utf8("phi:tx"@) == text::utf8("phi:vote"@) {
        text::lemma_utf8_injective("phi:tx"@, "phi:vote"@);
    }
    if text::utf8("phi:tx"@) == text::utf8("phi:interop:header"@) {
        text::lemma_utf8_injective("phi:tx"@, "phi:interop:header"@);
    }
    if text::utf8("phi:vote"@) == text::utf8("phi:interop:header"@) {
        text::lemma_utf8_injective("phi:vote"@, "phi:interop:header"@);
    }
}

/// A signature is good for what was signed alone: what authorizes a transaction,
/// casts a vote, or vouches for a foreign header is never the same message as
/// another of these, unless the hash inputs collide.
pub proof fn law_signed_messages_are_kept_apart(
    tx: TxView,
    block_hash: hash::Hash,
    height: u64,
    view: u64,
    approve: bool,
    header: ForeignHeader,
)
    requires
        tx.frames(),
    ensures
        tx.id() == consensus::vote_digest(block_hash, height, view, approve) ==> hash::collide(
            tx.id_input(),
            consensus::vote_input(block_hash, height, view, approve),
        ),
        tx.id() == header.digest() ==> hash::collide(tx.id_input(), header.hash_input()),
        consensus::vote_digest(block_hash, height, view, approve) == header.digest()
            ==> hash::collide(
            consensus::vote_input(block_hash, height, view, approve),
            header.hash_input(),
        ),
{
    broadcast use bytes::lemma_le_bytes_len;

    lemma_signed_tags();
    let a = text::utf8("phi:tx"@);
    let b = text::utf8("phi:vote"@);
    let c = text::utf8("phi:interop:header"@);
    let ballot = seq![
        block_hash@,
        bytes::le64(height),
        bytes::le64(view),
        seq![
            if approve {
                1u8
            } else {
                0u8
            },
        ],
    ];
    assert(hash::frames_fit(a, tx.id_parts()));
    assert(hash::frames_fit(b, ballot));
    assert(hash::frames_fit(c, header.parts()));
    if tx.id() == consensus::vote_digest(block_hash, height, view, approve) {
        hash::law_tagged_binds(a, tx.id_parts(), b, ballot);
    }
    if tx.id() == header.digest() {
        hash::law_tagged_binds(a, tx.id_parts(), c, header.parts());
    }
    if consensus::vote_digest(block_hash, height, view, approve) == header.digest() {
        hash::law_tagged_binds(b, ballot, c, header.parts());
    }
}

/// A leaf of a Merkle tree is never taken for an inner node, nor either for a
/// root, unless the hash inputs collide.
pub proof fn law_leaves_are_no_nodes(
    leaf: hash::Hash,
    left: hash::Hash,
    right: hash::Hash,
    count: nat,
    top: hash::Hash,
)
    ensures
        merkle::leaf_digest(leaf) == merkle::node_digest(left, right) ==> hash::collide(
            merkle::leaf_input(leaf),
            merkle::node_input(left, right),
        ),
        merkle::leaf_digest(leaf) == merkle::root_digest(count, top) ==> hash::collide(
            merkle::leaf_input(leaf),
            merkle::root_input(count, top),
        ),
        merkle::node_digest(left, right) == merkle::root_digest(count, top) ==> hash::collide(
            merkle::node_input(left, right),
            merkle::root_input(count, top),
        ),
{
    broadcast use bytes::lemma_le_bytes_len;

    let a = text::utf8("nex:merkle:leaf"@);
    let b = text::utf8("nex:merkle:node"@);
    let c = text::utf8("nex:merkle:root"@);
    reveal_strlit("nex:merkle:leaf");
    reveal_strlit("nex:merkle:node");
    reveal_strlit("nex:merkle:root");
    text::lemma_utf8_len("nex:merkle:leaf"@);
    text::lemma_utf8_len("nex:merkle:node"@);
    text::lemma_utf8_len("nex:merkle:root"@);
    assert("nex:merkle:leaf"@[11] == 'l');
    assert("nex:merkle:node"@[11] == 'n');
    assert("nex:merkle:root"@[11] == 'r');
    if a == b {
        text::lemma_utf8_injective("nex:merkle:leaf"@, "nex:merkle:node"@);
    }
    if a == c {
        text::lemma_utf8_injective("nex:merkle:leaf"@, "nex:merkle:root"@);
    }
    if b == c {
        text::lemma_utf8_injective("nex:merkle:node"@, "nex:merkle:root"@);
    }
    let p = seq![leaf@];
    let q = seq![left@, right@];
    let r = seq![bytes::le64(count as u64), top@];
    assert(hash::frames_fit(a, p));
    assert(hash::frames_fit(b, q));
    assert(hash::frames_fit(c, r));
    if merkle::leaf_digest(leaf) == merkle::node_digest(left, right) {
        hash::law_tagged_binds(a, p, b, q);
    }
    if merkle::leaf_digest(leaf) == merkle::root_digest(count, top) {
        hash::law_tagged_binds(a, p, c, r);
    }
    if merkle::node_digest(left, right) == merkle::root_digest(count, top) {
        hash::law_tagged_binds(b, q, c, r);
    }
}

/// An account that a policy controls is none that is named by a label, unless the
/// hash inputs collide.
pub proof fn law_named_accounts_are_not_owned_accounts(
    label: Seq<char>,
    policy: PolicyView,
    salt: u64,
)
    requires
        label.len() < 0x1000_0000,
        policy.encoded().len() < 0x1_0000_0000,
        account::label_id(label) == account::auth_id(policy, salt),
    ensures
        hash::collide(
            hash::tagged_preimage(text::utf8("phi:account"@), seq![text::utf8(label)]),
            account::auth_input(policy, salt),
        ),
{
    broadcast use bytes::lemma_le_bytes_len;

    let a = text::utf8("phi:account"@);
    let b = text::utf8("phi:account:auth"@);
    reveal_strlit("phi:account");
    reveal_strlit("phi:account:auth");
    text::lemma_utf8_len("phi:account"@);
    text::lemma_utf8_len("phi:account:auth"@);
    text::lemma_utf8_len(label);
    if a == b {
        text::lemma_utf8_injective("phi:account"@, "phi:account:auth"@);
    }
    let p = seq![text::utf8(label)];
    let q = seq![policy.encoded(), bytes::le64(salt)];
    assert(hash::frames_fit(a, p));
    assert(hash::frames_fit(b, q));
    hash::law_tagged_binds(a, p, b, q);
}

/// Blocks, receipts and cross-chain events are hashed apart from each other,
/// unless the hash inputs collide.
pub proof fn law_records_are_hashed_apart(
    header: BlockHeader,
    r: Receipt,
    event: CrossChainEvent,
)
    ensures
        header.digest() == r.digest() ==> hash::collide(header.hash_input(), r.hash_input()),
        header.digest() == event.digest() ==> hash::collide(
            header.hash_input(),
            event.hash_input(),
        ),
        r.digest() == event.digest() ==> hash::collide(r.hash_input(), event.hash_input()),
{
    broadcast use bytes::lemma_le_bytes_len;

    let a = text::utf8("phi:header"@);
    let b = text::utf8("phi:receipt"@);
    let c = text::utf8("phi:interop:event"@);
    reveal_strlit("phi:header");
    reveal_strlit("phi:receipt");
    reveal_strlit("phi:interop:event");
    text::lemma_utf8_len("phi:header"@);
    text::lemma_utf8_len("phi:receipt"@);
    text::lemma_utf8_len("phi:interop:event"@);
    assert("phi:header"@[4] == 'h');
    assert("phi:receipt"@[4] == 'r');
    assert("phi:interop:event"@[4] == 'i');
    if a == b {
        text::lemma_utf8_injective("phi:header"@, "phi:receipt"@);
    }
    if a == c {
        text::lemma_utf8_injective("phi:header"@, "phi:interop:event"@);
    }
    if b == c {
        text::lemma_utf8_injective("phi:receipt"@, "phi:interop:event"@);
    }
    let q = seq![r.tx_id@, receipt::result_bytes(r.result)];
    assert(receipt::result_bytes(r.result).len() < 0x1_0000_0000);
    assert(hash::frames_fit(a, header.hash_parts()));
    assert(hash::frames_fit(b, q));
    assert(hash::frames_fit(c, event.parts()));
    if header.digest() == r.digest() {
        hash::law_tagged_binds(a, header.hash_parts(), b, q);
    }
    if header.digest() == event.digest() {
        hash::law_tagged_binds(a, header.hash_parts(), c, event.parts());
    }
    if r.digest() == event.digest() {
        hash::law_tagged_binds(b, q, c, event.parts());
    }
}

} // verus!
