//! Block structure.

use vstd::prelude::*;

use crate::bytes;
use crate::hash;
use crate::merkle;
use crate::merkle::MerkleProof;
use crate::text;
use crate::transaction;
use crate::transaction::{Transaction, TxView};

verus! {

/// Block header: what light clients verify. Quorum certificates over the
/// header hash are produced by the consensus module and stored alongside the
/// chain.
#[derive(Clone, Copy, Debug, PartialEq, Eq)]
pub struct BlockHeader {
    pub height: u64,
    /// Network this block belongs to.
    pub chain_id: u64,
    pub parent: hash::Hash,
    /// Merkle root of transactions in this block.
    pub tx_root: hash::Hash,
    /// State root *after* executing this block.
    pub state_root: hash::Hash,
    /// Merkle root of execution receipts, so light clients can verify not just
    /// that a transaction was included but what it did.
    pub receipts_root: hash::Hash,
    /// Index of the proposing validator.
    pub proposer: u32,
    pub timestamp_ms: u64,
}

impl BlockHeader {
    /// The hashed fields, in order.
    pub open spec fn hash_parts(self) -> Seq<Seq<u8>> {
        seq![
            bytes::le64(self.height),
            bytes::le64(self.chain_id),
            self.parent@,
            self.tx_root@,
            self.state_root@,
            self.receipts_root@,
            bytes::le32(self.proposer),
            bytes::le64(self.timestamp_ms),
        ]
    }

    /// What is hashed for the header hash.
    pub open spec fn hash_input(self) -> Seq<u8> {
        hash::tagged_preimage(text::utf8("phi:header"@), self.hash_parts())
    }

    /// The header hash.
    pub open spec fn digest(self) -> hash::Hash {
        hash::tagged(text::utf8("phi:header"@), self.hash_parts())
    }

    pub fn hash(&self) -> (h: hash::Hash)
        ensures
            h == self.digest(),
    {
        let height = bytes::u64_bytes(self.height);
        let chain_id = bytes::u64_bytes(self.chain_id);
        let proposer = bytes::u32_bytes(self.proposer);
        let timestamp_ms = bytes::u64_bytes(self.timestamp_ms);
        let parts: [&[u8]; 8] = [
            height.as_slice(),
            chain_id.as_slice(),
            self.parent.0.as_slice(),
            self.tx_root.0.as_slice(),
            self.state_root.0.as_slice(),
            self.receipts_root.0.as_slice(),
            proposer.as_slice(),
            timestamp_ms.as_slice(),
        ];
        assert(hash::part_views(parts@) =~= self.hash_parts());
        hash::Hash::of_tagged("phi:header".as_bytes(), &parts)
    }
}

/// A header hash stands for one header, unless the hash inputs collide.
pub proof fn law_header_hash_binds(a: BlockHeader, b: BlockHeader)
    requires
        a.digest() == b.digest(),
    ensures
        a == b || hash::collide(a.hash_input(), b.hash_input()),
{
    broadcast use bytes::lemma_le_bytes_len;

    let tag = text::utf8("phi:header"@);
    reveal_strlit("phi:header");
    text::lemma_utf8_len("phi:header"@);
    let p = a.hash_parts();
    let q = b.hash_parts();
    assert(hash::frames_fit(tag, p));
    assert(hash::frames_fit(tag, q));
    hash::law_tagged_binds(tag, p, tag, q);
    if !hash::collide(a.hash_input(), b.hash_input()) {
        assert(p[0] == q[0] && p[1] == q[1] && p[2] == q[2] && p[3] == q[3]);
        assert(p[4] == q[4] && p[5] == q[5] && p[6] == q[6] && p[7] == q[7]);
        bytes::lemma_le64_injective(a.height, b.height);
        bytes::lemma_le64_injective(a.chain_id, b.chain_id);
        hash::lemma_hash_ext(a.parent, b.parent);
        hash::lemma_hash_ext(a.tx_root, b.tx_root);
        hash::lemma_hash_ext(a.state_root, b.state_root);
        hash::lemma_hash_ext(a.receipts_root, b.receipts_root);
        bytes::lemma_le32_injective(a.proposer, b.proposer);
        bytes::lemma_le64_injective(a.timestamp_ms, b.timestamp_ms);
    }
}

#[derive(Debug, PartialEq, Eq)]
pub struct Block {
    pub header: BlockHeader,
    pub transactions: Vec<Transaction>,
}

/// The contents of a [`Block`].
#[verifier::ext_equal]
pub struct BlockView {
    pub header: BlockHeader,
    pub transactions: Seq<TxView>,
}

impl View for Block {
    type V = BlockView;

    open spec fn view(&self) -> BlockView {
        BlockView {
            header: self.header,
            transactions: transaction::tx_views(self.transactions@),
        }
    }
}

/// A copy of a list of transactions.
pub fn clone_txs(txs: &Vec<Transaction>) -> (copy: Vec<Transaction>)
    ensures
        transaction::tx_views(copy@) == transaction::tx_views(txs@),
{
    let mut copy: Vec<Transaction> = Vec::new();
    let mut i: usize = 0;
    while i < txs.len()
        invariant
            i <= txs@.len(),
            copy@.len() == i,
            forall|j: int| 0 <= j < i ==> (#[trigger] copy@[j])@ == txs@[j]@,
        decreases txs@.len() - i,
    {
        copy.push(txs[i].clone());
        i += 1;
    }
    assert(transaction::tx_views(copy@) =~= transaction::tx_views(txs@));
    copy
}

impl Clone for Block {
    fn clone(&self) -> (b: Block)
        ensures
            b@ == self@,
    {
        Block { header: self.header, transactions: clone_txs(&self.transactions) }
    }
}

/// The ids of a list of transactions.
pub open spec fn tx_ids(txs: Seq<TxView>) -> Seq<hash::Hash> {
    Seq::new(txs.len(), |i: int| txs[i].id())
}

fn ids_of(txs: &[Transaction]) -> (ids: Vec<hash::Hash>)
    ensures
        ids@ == tx_ids(transaction::tx_views(txs@)),
{
    let mut ids: Vec<hash::Hash> = Vec::new();
    let mut i: usize = 0;
    while i < txs.len()
        invariant
            i <= txs@.len(),
            ids@.len() == i,
            forall|j: int| 0 <= j < i ==> #[trigger] ids@[j] == txs@[j]@.id(),
        decreases txs@.len() - i,
    {
        ids.push(txs[i].id());
        i += 1;
    }
    assert(ids@ =~= tx_ids(transaction::tx_views(txs@)));
    ids
}

/// The Merkle root that a header commits to for these transactions.
pub open spec fn tx_root_of(txs: Seq<TxView>) -> hash::Hash {
    merkle::root_of(tx_ids(txs))
}

/// All that is hashed for the root over a transaction list, the ids included.
pub open spec fn tx_root_inputs(txs: Seq<TxView>) -> Set<Seq<u8>> {
    merkle::root_inputs(tx_ids(txs)).union(
        Set::new(
            |x: Seq<u8>|
                exists|i: int| 0 <= i < txs.len() && x == (#[trigger] txs[i]).id_input(),
        ),
    )
}

impl Block {
    /// Merkle root over transaction ids (see the `merkle` module for the
    /// hardened construction: tagged leaves, odd-node promotion).
    pub fn compute_tx_root(txs: &[Transaction]) -> (h: hash::Hash)
        ensures
            h == tx_root_of(transaction::tx_views(txs@)),
    {
        let ids = ids_of(txs);
        merkle::root(ids.as_slice())
    }

    /// Inclusion proof for the transaction at `index`, checkable against
    /// `header.tx_root` with [`Block::verify_tx_proof`].
    pub fn prove_tx(&self, index: usize) -> (proof: Option<MerkleProof>)
        ensures
            index >= self@.transactions.len() ==> proof is None,
            index < self@.transactions.len() ==> proof is Some && proof->0@ == merkle::path(
                merkle::leaf_level(tx_ids(self@.transactions)),
                index as int,
            ),
    {
        let ids = ids_of(self.transactions.as_slice());
        merkle::prove(ids.as_slice(), index)
    }

    /// Verify that a transaction id sits at `index` in a block committing to
    /// `tx_root` with `tx_count` transactions.
    pub fn verify_tx_proof(
        tx_root: &hash::Hash,
        tx_id: &hash::Hash,
        index: usize,
        tx_count: usize,
        proof: &MerkleProof,
    ) -> (ok: bool)
        ensures
            ok == merkle::proves(*tx_root, *tx_id, index as int, tx_count as nat, proof@),
    {
        merkle::verify(tx_root, tx_id, index, tx_count, proof)
    }
}

/// The proof that a block builds for one of its transactions verifies against
/// the block's transaction root.
pub proof fn law_tx_proofs_verify(txs: Seq<TxView>, index: int)
    requires
        0 <= index < txs.len(),
    ensures
        merkle::proves(
            tx_root_of(txs),
            txs[index].id(),
            index,
            txs.len(),
            merkle::path(merkle::leaf_level(tx_ids(txs)), index),
        ),
{
    merkle::law_proofs_verify(tx_ids(txs), index);
}

/// Against a transaction root only the id of the transaction at a place can be
/// proved there, and only under the right number of transactions, unless two of
/// the hash inputs of root and proof collide.
pub proof fn law_tx_proofs_are_sound(
    txs: Seq<TxView>,
    tx_id: hash::Hash,
    index: int,
    count: nat,
    siblings: Seq<hash::Hash>,
)
    requires
        txs.len() <= u64::MAX,
        count <= u64::MAX,
        merkle::proves(tx_root_of(txs), tx_id, index, count, siblings),
    ensures
        (count == txs.len() && tx_id == txs[index].id()) || hash::collision_in(
            tx_root_inputs(txs).union(merkle::proof_inputs(tx_id, index, count, siblings)),
        ),
{
    let inputs = tx_root_inputs(txs).union(merkle::proof_inputs(tx_id, index, count, siblings));
    merkle::law_proofs_are_sound(tx_ids(txs), tx_id, index, count, siblings);
    if !hash::collision_in(inputs) {
        assert(merkle::root_inputs(tx_ids(txs)).union(
            merkle::proof_inputs(tx_id, index, count, siblings),
        ).subset_of(inputs));
    }
}

/// The proof that a block builds for one of its transactions fits that one
/// alone: where the ids are distinct, it verifies for no other id, index or
/// number of transactions, unless two of the hash inputs of root and proof
/// collide.
pub proof fn law_tx_proofs_fit_one_transaction(
    txs: Seq<TxView>,
    i: int,
    tx_id: hash::Hash,
    index: int,
    count: nat,
)
    requires
        0 <= i < txs.len() <= u64::MAX,
        count <= u64::MAX,
        tx_ids(txs).no_duplicates(),
    ensures
        ({
            let siblings = merkle::path(merkle::leaf_level(tx_ids(txs)), i);
            let same = index == i && count == txs.len() && tx_id == txs[i].id();
            &&& same ==> merkle::proves(tx_root_of(txs), tx_id, index, count, siblings)
            &&& merkle::proves(tx_root_of(txs), tx_id, index, count, siblings) ==> same
                || hash::collision_in(
                tx_root_inputs(txs).union(merkle::proof_inputs(tx_id, index, count, siblings)),
            )
        }),
{
    let siblings = merkle::path(merkle::leaf_level(tx_ids(txs)), i);
    let inputs = tx_root_inputs(txs).union(merkle::proof_inputs(tx_id, index, count, siblings));
    merkle::law_proofs_fit_one_leaf(tx_ids(txs), i, tx_id, index, count);
    assert(merkle::root_inputs(tx_ids(txs)).union(
        merkle::proof_inputs(tx_id, index, count, siblings),
    ).subset_of(inputs));
}

/// A transaction root commits to the payload of every transaction and to
/// their order, unless two of the hash inputs collide.
pub proof fn law_tx_root_binds(a: Seq<TxView>, b: Seq<TxView>)
    requires
        tx_root_of(a) == tx_root_of(b),
        forall|i: int| 0 <= i < a.len() ==> (#[trigger] a[i]).frames(),
        forall|i: int| 0 <= i < b.len() ==> (#[trigger] b[i]).frames(),
    ensures
        hash::collision_in(tx_root_inputs(a).union(tx_root_inputs(b))) || (a.len() == b.len()
            && forall|i: int|
            0 <= i < a.len() ==> (#[trigger] a[i]).payload() == b[i].payload()),
{
    let inputs = tx_root_inputs(a).union(tx_root_inputs(b));
    if !hash::collision_in(inputs) {
        assert(merkle::root_inputs(tx_ids(a)).union(merkle::root_inputs(tx_ids(b))).subset_of(
            inputs,
        ));
        merkle::law_root_binds_leaves(tx_ids(a), tx_ids(b));
        assert(tx_ids(a).len() == tx_ids(b).len());
        assert forall|i: int| 0 <= i < a.len() implies (#[trigger] a[i]).payload()
            == b[i].payload() by {
            assert(tx_ids(a)[i] == tx_ids(b)[i]);
            assert(tx_root_inputs(a).contains(a[i].id_input()));
            assert(tx_root_inputs(b).contains(b[i].id_input()));
            transaction::law_id_binds_payload(a[i], b[i]);
        }
    }
}

/// The transaction root is the Merkle root of the transaction ids, in order.
pub proof fn law_tx_root_covers_every_transaction(txs: Seq<TxView>)
    ensures
        tx_root_of(txs) == merkle::root_of(Seq::new(txs.len(), |i: int| txs[i].id())),
{
    assert(tx_ids(txs) =~= Seq::new(txs.len(), |i: int| txs[i].id()));
}

} // verus!
