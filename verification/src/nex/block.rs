//! Block structure.

use vstd::prelude::*;

use crate::bytes;
use crate::hash;
use crate::merkle;
use crate::nex::transaction;
use crate::nex::transaction::{Transaction, TxView};
use crate::text;

verus! {

/// Block header: what light clients verify.
#[derive(Clone, Copy, Debug, PartialEq, Eq)]
pub struct BlockHeader {
    pub height: u64,
    pub parent: hash::Hash,
    /// Merkle root of transactions in this block.
    pub tx_root: hash::Hash,
    /// State root *after* executing this block.
    pub state_root: hash::Hash,
    /// Index of the proposing validator.
    pub proposer: u32,
    pub timestamp_ms: u64,
}

impl BlockHeader {
    /// The hashed fields, in order.
    pub open spec fn hash_parts(self) -> Seq<Seq<u8>> {
        seq![
            bytes::le64(self.height),
            self.parent@,
            self.tx_root@,
            self.state_root@,
            bytes::le32(self.proposer),
            bytes::le64(self.timestamp_ms),
        ]
    }

    /// The header hash.
    pub open spec fn digest(self) -> hash::Hash {
        hash::tagged(text::utf8("nex:header"@), self.hash_parts())
    }

    pub fn hash(&self) -> (h: hash::Hash)
        ensures
            h == self.digest(),
    {
        let height = bytes::u64_bytes(self.height);
        let proposer = bytes::u32_bytes(self.proposer);
        let timestamp_ms = bytes::u64_bytes(self.timestamp_ms);
        let parts: [&[u8]; 6] = [
            height.as_slice(),
            self.parent.0.as_slice(),
            self.tx_root.0.as_slice(),
            self.state_root.0.as_slice(),
            proposer.as_slice(),
            timestamp_ms.as_slice(),
        ];
        assert(hash::part_views(parts@) =~= self.hash_parts());
        hash::Hash::of_tagged("nex:header".as_bytes(), &parts)
    }
}

#[derive(Debug, PartialEq, Eq)]
pub struct Block {
    pub header: BlockHeader,
    pub transactions: Vec<Transaction>,
}

/// The contents of a [`Block`].
#[verifier::ext_equal]
pub struct BlockView {
    pub header: BlockHeader,
    pub transactions: Seq<TxView>,
}

impl View for Block {
    type V = BlockView;

    open spec fn view(&self) -> BlockView {
        BlockView {
            header: self.header,
            transactions: transaction::tx_views(self.transactions@),
        }
    }
}

/// The Merkle root that a header commits to for these transactions.
pub open spec fn tx_root_of(txs: Seq<TxView>) -> hash::Hash {
    merkle::root_of(Seq::new(txs.len(), |i: int| txs[i].id()))
}

impl Block {
    /// Merkle root over transaction ids.
    pub fn compute_tx_root(txs: &[Transaction]) -> (h: hash::Hash)
        ensures
            h == tx_root_of(transaction::tx_views(txs@)),
    {
        let mut ids: Vec<hash::Hash> = Vec::new();
        let mut i: usize = 0;
        while i < txs.len()
            invariant
                i <= txs@.len(),
                ids@.len() == i,
                forall|j: int| 0 <= j < i ==> #[trigger] ids@[j] == txs@[j]@.id(),
            decreases txs@.len() - i,
        {
            ids.push(txs[i].id());
            i += 1;
        }
        proof {
            let views = transaction::tx_views(txs@);
            assert(ids@ =~= Seq::new(views.len(), |i: int| views[i].id()));
        }
        merkle::root(ids.as_slice())
    }
}

/// What is hashed for a header hash.
pub open spec fn header_input(h: BlockHeader) -> Seq<u8> {
    hash::tagged_preimage(text::utf8("nex:header"@), h.hash_parts())
}

/// A header hash covers every field of the header, unless the hash inputs
/// collide.
pub proof fn law_header_hash_binds(a: BlockHeader, b: BlockHeader)
    requires
        a.digest() == b.digest(),
    ensures
        a == b || hash::collide(header_input(a), header_input(b)),
{
    broadcast use bytes::lemma_le_bytes_len;

    let tag = text::utf8("nex:header"@);
    reveal_strlit("nex:header");
    text::lemma_utf8_len("nex:header"@);
    let p = a.hash_parts();
    let q = b.hash_parts();
    assert(hash::frames_fit(tag, p));
    assert(hash::frames_fit(tag, q));
    hash::law_tagged_binds(tag, p, tag, q);
    if !hash::collide(header_input(a), header_input(b)) {
        assert(p[0] == q[0] && p[1] == q[1] && p[2] == q[2] && p[3] == q[3] && p[4] == q[4] && p[5]
            == q[5]);
        bytes::lemma_le64_injective(a.height, b.height);
        bytes::lemma_le64_injective(a.timestamp_ms, b.timestamp_ms);
        bytes::lemma_le32_injective(a.proposer, b.proposer);
        hash::lemma_hash_ext(a.parent, b.parent);
        hash::lemma_hash_ext(a.tx_root, b.tx_root);
        hash::lemma_hash_ext(a.state_root, b.state_root);
    }
}

} // verus!
